use vstd::prelude::*;

use crate::data::{valid_angle, Data};
use crate::flatlander::{valid_height, valid_position};
use crate::shadow_error::ShadowError;

verus! {

/// Largest number of posts that an input may announce.
pub const MAX_POSTS: i32 = 100000;

/// The characters that `char::is_whitespace` accepts: those of Unicode's
/// White_Space property.
pub open spec fn is_space(c: char) -> bool {
    ||| c == '\t'
    ||| c == '\n'
    ||| c == '\u{0B}'
    ||| c == '\u{0C}'
    ||| c == '\r'
    ||| c == ' '
    ||| c == '\u{85}'
    ||| c == '\u{A0}'
    ||| c == '\u{1680}'
    ||| (0x2000 <= c as u32 && c as u32 <= 0x200A)
    ||| c == '\u{2028}'
    ||| c == '\u{2029}'
    ||| c == '\u{202F}'
    ||| c == '\u{205F}'
    ||| c == '\u{3000}'
}

/// The words of `s`: its maximal runs of non-space characters, left to right.
pub open spec fn words(s: Seq<char>) -> Seq<Seq<char>>
    decreases s.len(),
{
    if s.len() == 0 {
        Seq::empty()
    } else {
        let w = words(s.drop_last());
        let c = s.last();
        if is_space(c) {
            w
        } else if s.len() >= 2 && !is_space(s[s.len() - 2]) {
            w.update(w.len() - 1, w.last().push(c))
        } else {
            w.push(seq![c])
        }
    }
}

pub open spec fn is_digit(c: char) -> bool {
    '0' <= c <= '9'
}

pub open spec fn all_digits(d: Seq<char>) -> bool {
    forall|i: int| 0 <= i < d.len() ==> is_digit(#[trigger] d[i])
}

/// The value of a run of decimal digits.
pub open spec fn digits_value(d: Seq<char>) -> int
    decreases d.len(),
{
    if d.len() == 0 {
        0
    } else {
        digits_value(d.drop_last()) * 10 + (d.last() as int - '0' as int)
    }
}

/// The integer that `w` spells as `i32::from_str` reads it: an optional `+`
/// or `-`, then at least one decimal digit and nothing else, with a value that
/// fits in an `i32`.
pub open spec fn decimal_i32(w: Seq<char>) -> Option<i32> {
    let signed = w.len() > 0 && (w[0] == '-' || w[0] == '+');
    let digits = if signed {
        w.skip(1)
    } else {
        w
    };
    let value = if w.len() > 0 && w[0] == '-' {
        -digits_value(digits)
    } else {
        digits_value(digits)
    };
    if digits.len() > 0 && all_digits(digits) && i32::MIN <= value <= i32::MAX {
        Some(value as i32)
    } else {
        None
    }
}

/// What a line of input holds: exactly two words, each a decimal `i32`.
pub open spec fn line_pair(line: Seq<char>) -> Result<(i32, i32), ShadowError> {
    let w = words(line);
    if w.len() != 2 {
        Err(ShadowError::ValorFaltante)
    } else {
        match (decimal_i32(w[0]), decimal_i32(w[1])) {
            (Some(a), Some(b)) => Ok((a, b)),
            _ => Err(ShadowError::NumeroInvalido),
        }
    }
}

proof fn lemma_digits_prefix(d: Seq<char>, m: int)
    requires
        0 <= m <= d.len(),
        all_digits(d),
    ensures
        0 <= digits_value(d.take(m)) <= digits_value(d),
    decreases d.len(),
{
    if m == d.len() {
        assert(d.take(m) =~= d);
        if d.len() > 0 {
            lemma_digits_prefix(d.drop_last(), 0);
            assert(is_digit(d[d.len() - 1]));
        } else {
            assert(d.take(m) =~= Seq::<char>::empty());
        }
    } else {
        let init = d.drop_last();
        assert(d.take(m) =~= init.take(m));
        lemma_digits_prefix(init, m);
        lemma_digits_prefix(init, init.len() as int);
        assert(init.take(init.len() as int) =~= init);
        assert(is_digit(d[d.len() - 1]));
    }
}

/// Reads `w` as a decimal `i32`, as `i32::from_str` does.
fn parse_i32(w: &Vec<char>) -> (r: Option<i32>)
    ensures
        r == decimal_i32(w@),
{
    let n = w.len();
    if n == 0 {
        return None;
    }
    let negative = w[0] == '-';
    let start: usize = if w[0] == '-' || w[0] == '+' {
        1
    } else {
        0
    };
    let ghost digits = w@.skip(start as int);
    proof {
        if start == 0 {
            assert(digits =~= w@);
        }
    }
    if start == n {
        return None;
    }
    let mut acc: i64 = 0;
    let mut k: usize = start;
    proof {
        assert(digits.take(0) =~= Seq::<char>::empty());
    }
    while k < n
        invariant
            n == w@.len(),
            start <= k <= n,
            start <= 1,
            start == 1 <==> (w@[0] == '-' || w@[0] == '+'),
            negative == (w@[0] == '-'),
            digits == w@.skip(start as int),
            digits == (if start == 1 {
                w@.skip(1)
            } else {
                w@
            }),
            acc == digits_value(digits.take(k - start)),
            0 <= acc <= 0x8000_0000,
            forall|i: int| 0 <= i < k - start ==> is_digit(#[trigger] digits[i]),
        decreases n - k,
    {
        let c = w[k];
        assert(digits[k - start] == c);
        if !('0' <= c && c <= '9') {
            assert(!is_digit(digits[k - start]));
            return None;
        }
        proof {
            assert(digits.take(k - start + 1).drop_last() =~= digits.take(k - start));
            assert(digits.take(k - start + 1).last() == c);
        }
        acc = acc * 10 + (c as u32 - '0' as u32) as i64;
        assert(acc == digits_value(digits.take(k - start + 1)));
        if acc > 0x8000_0000 {
            proof {
                if all_digits(digits) {
                    lemma_digits_prefix(digits, k - start + 1);
                }
            }
            return None;
        }
        k = k + 1;
    }
    proof {
        assert(digits.take(n - start) =~= digits);
    }
    let v: i64 = if negative {
        -acc
    } else {
        acc
    };
    if v < i32::MIN as i64 || v > i32::MAX as i64 {
        return None;
    }
    Some(v as i32)
}

/// What reading the next line gives: `None` when the input has ended.
pub open spec fn next_line_pair(line: Option<Seq<char>>) -> Result<(i32, i32), ShadowError> {
    match line {
        Some(l) => line_pair(l),
        None => Err(ShadowError::LineaFaltante),
    }
}

pub open spec fn option_view(line: Option<&str>) -> Option<Seq<char>> {
    match line {
        Some(l) => Some(l@),
        None => None,
    }
}

/// The characters of `line`, one by one.
fn chars_of(line: &str) -> (r: Vec<char>)
    ensures
        r@ == line@,
{
    let mut r: Vec<char> = Vec::new();
    for c in it: line.chars()
        invariant
            it.seq() == line@,
            r@ == line@.take(it.index() as int),
    {
        r.push(c);
    }
    r
}

fn is_whitespace(c: char) -> (r: bool)
    ensures
        r == is_space(c),
{
    c == '\t' || c == '\n' || c == '\u{0B}' || c == '\u{0C}' || c == '\r' || c == ' ' || c
        == '\u{85}' || c == '\u{A0}' || c == '\u{1680}' || (0x2000 <= c as u32 && c as u32
        <= 0x200A) || c == '\u{2028}' || c == '\u{2029}' || c == '\u{202F}' || c == '\u{205F}'
        || c == '\u{3000}'
}

/// Splits `chars` into its words.
fn split_words(chars: &Vec<char>) -> (r: Vec<Vec<char>>)
    ensures
        r@.len() == words(chars@).len(),
        forall|k: int| 0 <= k < r@.len() ==> #[trigger] r@[k]@ == words(chars@)[k],
{
    let mut r: Vec<Vec<char>> = Vec::new();
    let n = chars.len();
    let mut i: usize = 0;
    proof {
        assert(chars@.take(0) =~= Seq::<char>::empty());
    }
    while i < n
        invariant
            n == chars@.len(),
            i <= n,
            r@.len() == words(chars@.take(i as int)).len(),
            forall|k: int| 0 <= k < r@.len() ==> #[trigger] r@[k]@ == words(chars@.take(i as int))[k],
            0 < i && !is_space(chars@[i - 1]) ==> r@.len() > 0,
        decreases n - i,
    {
        let c = chars[i];
        let ghost before = chars@.take(i as int);
        let ghost after = chars@.take(i + 1);
        proof {
            assert(after.drop_last() =~= before);
            assert(after.last() == c);
            if i > 0 {
                assert(after[i - 1] == chars@[i - 1]);
            }
        }
        if is_whitespace(c) {
        } else if i > 0 && !is_whitespace(chars[i - 1]) {
            let mut last = r.pop().unwrap();
            last.push(c);
            r.push(last);
        } else {
            let mut word: Vec<char> = Vec::new();
            word.push(c);
            proof {
                assert(word@ =~= seq![c]);
            }
            r.push(word);
        }
        i = i + 1;
    }
    proof {
        assert(chars@.take(n as int) =~= chars@);
    }
    r
}

/// Parses a line into its two integers.
pub fn parse_line(line: &str) -> (r: Result<(i32, i32), ShadowError>)
    ensures
        r == line_pair(line@),
{
    let chars = chars_of(line);
    let w = split_words(&chars);
    if w.len() != 2 {
        return Err(ShadowError::ValorFaltante);
    }
    let first = match parse_i32(&w[0]) {
        Some(v) => v,
        None => return Err(ShadowError::NumeroInvalido),
    };
    let second = match parse_i32(&w[1]) {
        Some(v) => v,
        None => return Err(ShadowError::NumeroInvalido),
    };
    Ok((first, second))
}

/// Parses the next line of input; `None` means that the input has ended.
pub fn read_line(line: Option<&str>) -> (r: Result<(i32, i32), ShadowError>)
    ensures
        r == next_line_pair(option_view(line)),
{
    match line {
        Some(l) => parse_line(l),
        None => Err(ShadowError::LineaFaltante),
    }
}

/// How far the reading of an input has come. The first line holds the angle
/// and the number of posts; each of the following lines holds one post.
pub enum InputState {
    /// The first line is still to come.
    Header,
    /// `remaining` more posts are to come; `data` holds the scene so far.
    Posts { data: Data, remaining: u32 },
}

impl InputState {
    /// Nothing read yet.
    pub fn new() -> (r: InputState)
        ensures
            r is Header,
    {
        InputState::Header
    }

    /// Every announced post has been read.
    pub open spec fn complete(&self) -> bool {
        self matches InputState::Posts { remaining, .. } && remaining == 0
    }

    /// Whether every announced post has been read.
    pub fn is_complete(&self) -> (r: bool)
        ensures
            r == self.complete(),
    {
        match self {
            InputState::Header => false,
            InputState::Posts { remaining, .. } => *remaining == 0,
        }
    }

    /// Takes the next line of input (`None` when the input has ended) and
    /// moves on, or reports why the input is rejected. Once the input is
    /// complete, further lines are ignored.
    pub fn feed(self, line: Option<&str>) -> (r: Result<InputState, ShadowError>)
        ensures
            match self {
                InputState::Header => match next_line_pair(option_view(line)) {
                    Err(e) => r == Err::<InputState, ShadowError>(e),
                    Ok((theta, n)) => if !(1 <= n <= MAX_POSTS) {
                        r == Err::<InputState, ShadowError>(ShadowError::FueraDeRango)
                    } else if !valid_angle(theta as int) {
                        r == Err::<InputState, ShadowError>(
                            ShadowError::InvalidAngle { value: theta },
                        )
                    } else {
                        r matches Ok(InputState::Posts { data, remaining }) && remaining == n
                            && data.theta() == theta && data.posts() == Seq::<
                            crate::flatlander::Flatlander,
                        >::empty()
                    },
                },
                InputState::Posts { data, remaining } => if remaining == 0 {
                    r == Ok::<InputState, ShadowError>(self)
                } else {
                    match next_line_pair(option_view(line)) {
                        Err(e) => r == Err::<InputState, ShadowError>(e),
                        Ok((x, h)) => if !valid_position(x as int) {
                            r == Err::<InputState, ShadowError>(
                                ShadowError::InvalidPositionOrHeight { value: x },
                            )
                        } else if !valid_height(h as int) {
                            r == Err::<InputState, ShadowError>(
                                ShadowError::InvalidPositionOrHeight { value: h },
                            )
                        } else {
                            r matches Ok(InputState::Posts { data: next, remaining: left })
                                && left == remaining - 1 && next.theta() == data.theta()
                                && next.posts().len() == data.posts().len() + 1
                                && next.posts().drop_last() == data.posts()
                                && next.posts().last().position() == x
                                && next.posts().last().height() == h
                        },
                    }
                },
            },
    {
        match self {
            InputState::Header => {
                let (theta, n) = match read_line(line) {
                    Ok(pair) => pair,
                    Err(e) => return Err(e),
                };
                if !(1 <= n && n <= MAX_POSTS) {
                    return Err(ShadowError::FueraDeRango);
                }
                let mut data = Data::new();
                match data.set_degrees(theta) {
                    Ok(()) => {},
                    Err(e) => return Err(e),
                }
                Ok(InputState::Posts { data, remaining: n as u32 })
            },
            InputState::Posts { mut data, remaining } => {
                if remaining == 0 {
                    return Ok(InputState::Posts { data, remaining });
                }
                let (x, h) = match read_line(line) {
                    Ok(pair) => pair,
                    Err(e) => return Err(e),
                };
                match data.set_flatlander(x, h) {
                    Ok(()) => {},
                    Err(e) => return Err(e),
                }
                Ok(InputState::Posts { data, remaining: remaining - 1 })
            },
        }
    }

    /// The scene, once every announced post has been read.
    pub fn into_data(self) -> (r: Option<Data>)
        ensures
            r is Some <==> self.complete(),
            self matches InputState::Posts { data, .. } ==> (r is Some ==> r == Some(data)),
    {
        match self {
            InputState::Posts { data, remaining } => if remaining == 0 {
                Some(data)
            } else {
                None
            },
            InputState::Header => None,
        }
    }
}

} // verus!
