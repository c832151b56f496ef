use vstd::prelude::*;
use vstd::set_lib::{lemma_int_range, set_int_range};

use crate::data::{at_position, is_stable_sort_of};
use crate::flatlander::{
    shadow_end, shadow_length, shadow_start, valid_height, valid_position, Cotangent, Flatlander,
};

verus! {

/// The ground points covered by the shadow of at least one post of `posts`.
pub open spec fn shadow_cover(posts: Seq<Flatlander>, c: Cotangent) -> Set<int> {
    Set::new(
        |p: int|
            exists|i: int|
                #![trigger posts[i]]
                0 <= i < posts.len() && shadow_start(posts[i], c) <= p < shadow_end(posts[i], c),
    )
}

/// The total length of ground in shadow, overlaps counted once, in units of
/// `1 / c.den`.
pub open spec fn shadow_measure(posts: Seq<Flatlander>, c: Cotangent) -> nat {
    shadow_cover(posts, c).len()
}

pub(crate) proof fn lemma_cover_empty(c: Cotangent)
    ensures
        shadow_cover(Seq::empty(), c) == Set::<int>::empty(),
{
    assert(shadow_cover(Seq::empty(), c) =~= Set::<int>::empty());
}

pub(crate) proof fn lemma_cover_push(posts: Seq<Flatlander>, f: Flatlander, c: Cotangent)
    ensures
        shadow_cover(posts.push(f), c) == shadow_cover(posts, c).union(
            set_int_range(shadow_start(f, c), shadow_end(f, c)),
        ),
{
    let s = posts.push(f);
    let lhs = shadow_cover(s, c);
    let rhs = shadow_cover(posts, c).union(set_int_range(shadow_start(f, c), shadow_end(f, c)));
    assert forall|p: int| lhs.contains(p) implies rhs.contains(p) by {
        let i = choose|i: int|
            #![trigger s[i]]
            0 <= i < s.len() && shadow_start(s[i], c) <= p < shadow_end(s[i], c);
        if i < posts.len() {
            assert(s[i] == posts[i]);
        }
    }
    assert forall|p: int| rhs.contains(p) implies lhs.contains(p) by {
        if shadow_cover(posts, c).contains(p) {
            let i = choose|i: int|
                #![trigger posts[i]]
                0 <= i < posts.len() && shadow_start(posts[i], c) <= p < shadow_end(posts[i], c);
            assert(s[i] == posts[i]);
        } else {
            assert(s[posts.len() as int] == f);
        }
    }
    assert(lhs =~= rhs);
}

pub(crate) proof fn lemma_cover_finite(posts: Seq<Flatlander>, c: Cotangent)
    ensures
        shadow_cover(posts, c).finite(),
    decreases posts.len(),
{
    if posts.len() == 0 {
        assert(posts =~= Seq::<Flatlander>::empty());
        lemma_cover_empty(c);
    } else {
        let init = posts.drop_last();
        let f = posts.last();
        assert(posts == init.push(f));
        lemma_cover_finite(init, c);
        lemma_cover_push(init, f, c);
        if shadow_start(f, c) <= shadow_end(f, c) {
            lemma_int_range(shadow_start(f, c), shadow_end(f, c));
        } else {
            assert(set_int_range(shadow_start(f, c), shadow_end(f, c)) =~= Set::<int>::empty());
        }
        vstd::set_lib::lemma_set_union_finite_iff(
            shadow_cover(init, c),
            set_int_range(shadow_start(f, c), shadow_end(f, c)),
        );
    }
}

/// Every post of `s` is a post of `t` and the other way round.
pub(crate) open spec fn same_posts(s: Seq<Flatlander>, t: Seq<Flatlander>) -> bool {
    forall|f: Flatlander| s.contains(f) <==> t.contains(f)
}

/// A post whose fields lie within their bounds.
pub open spec fn valid_post(f: Flatlander) -> bool {
    valid_position(f.position()) && valid_height(f.height())
}

proof fn lemma_cover_same_posts(s: Seq<Flatlander>, t: Seq<Flatlander>, c: Cotangent)
    requires
        same_posts(s, t),
    ensures
        shadow_cover(s, c) == shadow_cover(t, c),
{
    assert forall|p: int| shadow_cover(s, c).contains(p) implies shadow_cover(t, c).contains(p) by {
        let i = choose|i: int|
            #![trigger s[i]]
            0 <= i < s.len() && shadow_start(s[i], c) <= p < shadow_end(s[i], c);
        assert(s.contains(s[i]));
        let j = choose|j: int| 0 <= j < t.len() && t[j] == s[i];
        assert(t[j] == s[i]);
    }
    assert forall|p: int| shadow_cover(t, c).contains(p) implies shadow_cover(s, c).contains(p) by {
        let i = choose|i: int|
            #![trigger t[i]]
            0 <= i < t.len() && shadow_start(t[i], c) <= p < shadow_end(t[i], c);
        assert(t.contains(t[i]));
        let j = choose|j: int| 0 <= j < s.len() && s[j] == t[i];
        assert(s[j] == t[i]);
    }
    assert(shadow_cover(s, c) =~= shadow_cover(t, c));
}

proof fn lemma_stable_sort_same_posts(r: Seq<Flatlander>, s: Seq<Flatlander>)
    requires
        is_stable_sort_of(r, s),
    ensures
        same_posts(r, s),
{
    assert forall|f: Flatlander| r.contains(f) implies s.contains(f) by {
        let p = f.position();
        let i = choose|i: int| 0 <= i < r.len() && r[i] == f;
        r.lemma_filter_contains(|g: Flatlander| g.position() == p, i);
        assert(at_position(r, p) == at_position(s, p));
        s.lemma_filter_contains_rev(|g: Flatlander| g.position() == p, f);
    }
    assert forall|f: Flatlander| s.contains(f) implies r.contains(f) by {
        let p = f.position();
        let i = choose|i: int| 0 <= i < s.len() && s[i] == f;
        s.lemma_filter_contains(|g: Flatlander| g.position() == p, i);
        assert(at_position(r, p) == at_position(s, p));
        r.lemma_filter_contains_rev(|g: Flatlander| g.position() == p, f);
    }
}

proof fn lemma_cover_single(f: Flatlander, c: Cotangent)
    ensures
        shadow_cover(seq![f], c) == set_int_range(shadow_start(f, c), shadow_end(f, c)),
{
    lemma_cover_empty(c);
    lemma_cover_push(Seq::empty(), f, c);
    assert(Seq::<Flatlander>::empty().push(f) =~= seq![f]);
    assert(Set::<int>::empty().union(set_int_range(shadow_start(f, c), shadow_end(f, c)))
        =~= set_int_range(shadow_start(f, c), shadow_end(f, c)));
}

proof fn lemma_cover_pair(f: Flatlander, g: Flatlander, c: Cotangent)
    ensures
        shadow_cover(seq![f, g], c) == set_int_range(shadow_start(f, c), shadow_end(f, c)).union(
            set_int_range(shadow_start(g, c), shadow_end(g, c)),
        ),
{
    lemma_cover_single(f, c);
    lemma_cover_push(seq![f], g, c);
    assert(seq![f].push(g) =~= seq![f, g]);
}

proof fn lemma_length_nonneg(f: Flatlander, c: Cotangent)
    requires
        valid_post(f),
    ensures
        shadow_start(f, c) <= shadow_end(f, c),
{
    assert(f.height() * c.num >= 0) by (nonlinear_arith)
        requires
            f.height() >= 1,
    ;
}

/// A scene without posts has no shadow.
pub proof fn lemma_no_posts(c: Cotangent)
    ensures
        shadow_measure(Seq::empty(), c) == 0,
{
    lemma_cover_empty(c);
}

/// A single post's shadow is as long as its own shadow length; at an angle of
/// 45 degrees, where the cotangent is 1, that is the post's height.
pub proof fn lemma_single_post(f: Flatlander, c: Cotangent)
    requires
        valid_post(f),
    ensures
        shadow_measure(seq![f], c) == shadow_length(f, c),
        c.num == c.den ==> shadow_measure(seq![f], c) == f.height() * c.den,
{
    lemma_cover_single(f, c);
    lemma_length_nonneg(f, c);
    lemma_int_range(shadow_start(f, c), shadow_end(f, c));
}

/// Two posts whose shadows do not overlap cover the sum of their shadow
/// lengths.
pub proof fn lemma_disjoint_posts(f: Flatlander, g: Flatlander, c: Cotangent)
    requires
        valid_post(f),
        valid_post(g),
        shadow_end(f, c) <= shadow_start(g, c) || shadow_end(g, c) <= shadow_start(f, c),
    ensures
        shadow_measure(seq![f, g], c) == shadow_length(f, c) + shadow_length(g, c),
{
    let a = set_int_range(shadow_start(f, c), shadow_end(f, c));
    let b = set_int_range(shadow_start(g, c), shadow_end(g, c));
    lemma_cover_pair(f, g, c);
    lemma_length_nonneg(f, c);
    lemma_length_nonneg(g, c);
    lemma_int_range(shadow_start(f, c), shadow_end(f, c));
    lemma_int_range(shadow_start(g, c), shadow_end(g, c));
    assert(a.disjoint(b));
    vstd::set_lib::lemma_set_disjoint_lens(a, b);
}

/// When one post's shadow lies within another's, the two cover just the
/// larger shadow, in either order.
pub proof fn lemma_nested_posts(f: Flatlander, g: Flatlander, c: Cotangent)
    requires
        valid_post(f),
        valid_post(g),
        shadow_start(f, c) <= shadow_start(g, c),
        shadow_end(g, c) <= shadow_end(f, c),
    ensures
        shadow_measure(seq![f, g], c) == shadow_length(f, c),
        shadow_measure(seq![g, f], c) == shadow_length(f, c),
{
    let a = set_int_range(shadow_start(f, c), shadow_end(f, c));
    let b = set_int_range(shadow_start(g, c), shadow_end(g, c));
    lemma_cover_pair(f, g, c);
    lemma_cover_pair(g, f, c);
    lemma_length_nonneg(f, c);
    assert(a.union(b) =~= a);
    assert(b.union(a) =~= a);
    lemma_int_range(shadow_start(f, c), shadow_end(f, c));
}

/// Sorting does not change the total, and two scenes holding the same posts in
/// any two orders have the same total once sorted.
pub proof fn lemma_order_independent(
    s: Seq<Flatlander>,
    t: Seq<Flatlander>,
    sorted_s: Seq<Flatlander>,
    sorted_t: Seq<Flatlander>,
    c: Cotangent,
)
    requires
        s.to_multiset() == t.to_multiset(),
        is_stable_sort_of(sorted_s, s),
        is_stable_sort_of(sorted_t, t),
    ensures
        shadow_measure(sorted_s, c) == shadow_measure(s, c),
        shadow_measure(sorted_t, c) == shadow_measure(t, c),
        shadow_measure(sorted_s, c) == shadow_measure(sorted_t, c),
{
    lemma_stable_sort_same_posts(sorted_s, s);
    lemma_stable_sort_same_posts(sorted_t, t);
    assert(same_posts(s, t)) by {
        assert forall|f: Flatlander| s.contains(f) <==> t.contains(f) by {
            s.to_multiset_ensures();
            t.to_multiset_ensures();
            assert(s.contains(f) <==> s.to_multiset().count(f) > 0);
            assert(t.contains(f) <==> t.to_multiset().count(f) > 0);
            assert(s.to_multiset().count(f) == t.to_multiset().count(f));
        }
    }
    lemma_cover_same_posts(sorted_s, s, c);
    lemma_cover_same_posts(sorted_t, t, c);
    lemma_cover_same_posts(s, t, c);
}

} // verus!
