//! Total ground length covered by the shadows of a row of posts standing on a
//! line and lit from a fixed elevation angle, with overlapping shadows counted
//! once.
//!
//! Posts stand at integer positions with integer heights. Each post casts the
//! half-open shadow `[x, x + h * cot(angle))`. The trigonometry stays with the
//! caller: the cotangent of the angle is handed in as an exact ratio
//! `num / den` ([`Cotangent`]). In units of `1 / den` every shadow then has
//! integer ends `x * den` and `x * den + h * num`, and the merged length is
//! computed and proved exactly in those units.
mod data;
mod flatlander;
mod measure;
mod read_input;
mod shadow_error;

pub use data::{
    at_position, is_stable_sort_of, sorted_by_position, valid_angle, Data, MAX_ANGLE, MIN_ANGLE,
};
pub use flatlander::{
    shadow_end, shadow_length, shadow_start, valid_height, valid_position, Cotangent, Flatlander,
    MAX_HEIGHT, MAX_POSITION, MIN_HEIGHT,
};
pub use measure::{
    lemma_disjoint_posts, lemma_nested_posts, lemma_no_posts, lemma_order_independent,
    lemma_single_post, shadow_cover, shadow_measure, valid_post,
};
pub use read_input::{
    all_digits, decimal_i32, digits_value, is_digit, is_space, line_pair, next_line_pair,
    option_view, parse_line, read_line, words, InputState, MAX_POSTS,
};
pub use shadow_error::ShadowError;
