use vstd::prelude::*;
use vstd::set_lib::{lemma_int_range, lemma_len_subset, set_int_range};

use crate::flatlander::{
    shadow_start, valid_height, valid_position, Cotangent, Flatlander, MAX_POSITION,
};
use crate::measure::{
    lemma_cover_empty, lemma_cover_finite, lemma_cover_push, shadow_cover, shadow_measure,
};
use crate::shadow_error::ShadowError;

verus! {

/// Smallest elevation angle of the light, in degrees.
pub const MIN_ANGLE: i32 = 10;

/// Largest elevation angle of the light, in degrees.
pub const MAX_ANGLE: i32 = 80;

pub open spec fn valid_angle(theta: int) -> bool {
    MIN_ANGLE <= theta <= MAX_ANGLE
}

/// The posts stand in order of position, left to right.
pub open spec fn sorted_by_position(posts: Seq<Flatlander>) -> bool {
    forall|i: int, j: int|
        0 <= i < j < posts.len() ==> #[trigger] posts[i].position() <= #[trigger] posts[j].position()
}

/// The posts of `s` that stand at position `p`, in their order in `s`.
pub open spec fn at_position(s: Seq<Flatlander>, p: int) -> Seq<Flatlander> {
    s.filter(|f: Flatlander| f.position() == p)
}

/// `r` holds the posts of `s` sorted by position, and the posts that share a
/// position keep the order they had in `s`.
pub open spec fn is_stable_sort_of(r: Seq<Flatlander>, s: Seq<Flatlander>) -> bool {
    &&& sorted_by_position(r)
    &&& forall|p: int| #[trigger] at_position(r, p) == at_position(s, p)
}

proof fn lemma_at_position_none(s: Seq<Flatlander>, p: int)
    requires
        forall|k: int| 0 <= k < s.len() ==> #[trigger] s[k].position() != p,
    ensures
        at_position(s, p) == Seq::<Flatlander>::empty(),
    decreases s.len(),
{
    reveal(Seq::filter);
    if s.len() > 0 {
        lemma_at_position_none(s.drop_last(), p);
    }
}

/// How appending `x` to `r` changes the posts of `r` at position `p`.
proof fn lemma_at_position_push(r: Seq<Flatlander>, x: Flatlander, p: int)
    ensures
        at_position(r.push(x), p) == if x.position() == p {
            at_position(r, p).push(x)
        } else {
            at_position(r, p)
        },
{
    r.lemma_filter_push(x, |f: Flatlander| f.position() == p);
}

/// Merges two sorted runs into one; at equal positions the posts of `a` come
/// first.
fn merge(a: Vec<Flatlander>, b: Vec<Flatlander>) -> (r: Vec<Flatlander>)
    requires
        sorted_by_position(a@),
        sorted_by_position(b@),
    ensures
        sorted_by_position(r@),
        forall|p: int| #[trigger] at_position(r@, p) == at_position(a@, p) + at_position(b@, p),
{
    let mut r: Vec<Flatlander> = Vec::new();
    let mut i: usize = 0;
    let mut j: usize = 0;
    proof {
        assert(a@.take(0) =~= Seq::<Flatlander>::empty());
        assert(b@.take(0) =~= Seq::<Flatlander>::empty());
        assert forall|p: int| #[trigger]
            at_position(r@, p) == at_position(a@.take(0), p) + at_position(b@.take(0), p) by {
            lemma_at_position_none(r@, p);
            assert(at_position(r@, p) + at_position(r@, p) =~= at_position(r@, p));
        }
    }
    while i < a.len() || j < b.len()
        invariant
            i <= a.len(),
            j <= b.len(),
            sorted_by_position(a@),
            sorted_by_position(b@),
            sorted_by_position(r@),
            forall|p: int| #[trigger]
                at_position(r@, p) == at_position(a@.take(i as int), p) + at_position(
                    b@.take(j as int),
                    p,
                ),
            r@.len() > 0 && i < a.len() ==> r@.last().position() <= a@[i as int].position(),
            r@.len() > 0 && j < b.len() ==> r@.last().position() <= b@[j as int].position(),
            i < a.len() ==> forall|k: int|
                0 <= k < j ==> #[trigger] b@[k].position() < a@[i as int].position(),
        decreases a.len() - i + b.len() - j,
    {
        let ghost old_r = r@;
        if j == b.len() || (i < a.len() && a[i].get_x() <= b[j].get_x()) {
            let x = a[i];
            r.push(x);
            proof {
                assert(a@.take(i + 1) =~= a@.take(i as int).push(x));
                assert forall|p: int| #[trigger]
                    at_position(r@, p) == at_position(a@.take(i + 1), p) + at_position(
                        b@.take(j as int),
                        p,
                    ) by {
                    lemma_at_position_push(old_r, x, p);
                    lemma_at_position_push(a@.take(i as int), x, p);
                    if x.position() == p {
                        assert forall|k: int| 0 <= k < b@.take(j as int).len() implies #[trigger] b@.take(
                            j as int,
                        )[k].position() != p by {
                            assert(b@.take(j as int)[k] == b@[k]);
                        }
                        lemma_at_position_none(b@.take(j as int), p);
                        assert(at_position(a@.take(i + 1), p) + at_position(b@.take(j as int), p)
                            =~= at_position(a@.take(i + 1), p));
                        assert(at_position(a@.take(i as int), p) + at_position(b@.take(j as int), p)
                            =~= at_position(a@.take(i as int), p));
                    }
                }
                if i + 1 < a.len() {
                    assert(a@[i as int].position() <= a@[i + 1].position());
                }
            }
            i = i + 1;
        } else {
            let x = b[j];
            r.push(x);
            proof {
                assert(b@.take(j + 1) =~= b@.take(j as int).push(x));
                assert forall|p: int| #[trigger]
                    at_position(r@, p) == at_position(a@.take(i as int), p) + at_position(
                        b@.take(j + 1),
                        p,
                    ) by {
                    lemma_at_position_push(old_r, x, p);
                    lemma_at_position_push(b@.take(j as int), x, p);
                    if x.position() == p {
                        assert(at_position(a@.take(i as int), p) + at_position(b@.take(j as int), p).push(x)
                            =~= (at_position(a@.take(i as int), p) + at_position(b@.take(j as int), p)).push(x));
                    }
                }
                if j + 1 < b.len() {
                    assert(b@[j as int].position() <= b@[j + 1].position());
                }
            }
            j = j + 1;
        }
    }
    proof {
        assert(a@.take(i as int) =~= a@);
        assert(b@.take(j as int) =~= b@);
    }
    r
}

/// Sorts the posts `v[lo..hi]` by position, stably.
fn sort_range(v: &Vec<Flatlander>, lo: usize, hi: usize) -> (r: Vec<Flatlander>)
    requires
        lo <= hi <= v.len(),
    ensures
        is_stable_sort_of(r@, v@.subrange(lo as int, hi as int)),
    decreases hi - lo,
{
    if hi - lo <= 1 {
        let mut r: Vec<Flatlander> = Vec::new();
        if hi - lo == 1 {
            r.push(v[lo]);
        }
        proof {
            assert(r@ =~= v@.subrange(lo as int, hi as int));
        }
        r
    } else {
        let mid = lo + (hi - lo) / 2;
        let a = sort_range(v, lo, mid);
        let b = sort_range(v, mid, hi);
        let r = merge(a, b);
        proof {
            let whole = v@.subrange(lo as int, hi as int);
            let left = v@.subrange(lo as int, mid as int);
            let right = v@.subrange(mid as int, hi as int);
            assert(whole =~= left + right);
            assert forall|p: int| #[trigger] at_position(r@, p) == at_position(whole, p) by {
                Seq::filter_distributes_over_add(left, right, |f: Flatlander| f.position() == p);
            }
        }
        r
    }
}

/// The state of the left-to-right sweep over the shadows.
enum Run {
    /// No shadow seen yet.
    Empty,
    /// The merged shadow `[start, end)` is still open.
    Open { start: u128, end: u128 },
}

/// What the sweep knows after the first `i` posts: everything of their shadows
/// left of the open run is already counted in `total`, and from the run's
/// start on they cover exactly the run.
spec fn sweep_inv(posts: Seq<Flatlander>, c: Cotangent, i: int, run: Run, total: int) -> bool {
    let cover = shadow_cover(posts.take(i), c);
    match run {
        Run::Empty => i == 0 && total == 0,
        Run::Open { start, end } => {
            &&& 0 < i
            &&& start <= end
            &&& start <= shadow_start(posts[i - 1], c)
            &&& total <= start
            &&& total == cover.filter(|p: int| p < start).len()
            &&& forall|p: int| p >= start ==> (cover.contains(p) <==> p < end)
        },
    }
}

/// Stores the scene: the light's elevation angle and the posts.
pub struct Data {
    theta: i32,
    flatlanders: Vec<Flatlander>,
}

impl Data {
    #[verifier::type_invariant]
    spec fn inv(self) -> bool {
        self.theta == 0 || valid_angle(self.theta as int)
    }

    /// The elevation angle in degrees; `0` while it is unset.
    pub closed spec fn theta(self) -> int {
        self.theta as int
    }

    /// The posts, in insertion order until sorted.
    pub closed spec fn posts(self) -> Seq<Flatlander> {
        self.flatlanders@
    }

    /// An empty scene whose angle is unset.
    pub fn new() -> (r: Data)
        ensures
            r.theta() == 0,
            r.posts() == Seq::<Flatlander>::empty(),
    {
        Data { theta: 0, flatlanders: Vec::new() }
    }

    /// Sets the angle in degrees, or reports it out of range and leaves the
    /// scene as it was.
    pub fn set_degrees(&mut self, theta: i32) -> (r: Result<(), ShadowError>)
        ensures
            r is Ok <==> valid_angle(theta as int),
            r is Ok ==> final(self).theta() == theta,
            r is Err ==> r == Err::<(), ShadowError>(ShadowError::InvalidAngle { value: theta })
                && final(self).theta() == old(self).theta(),
            final(self).posts() == old(self).posts(),
    {
        if !(MIN_ANGLE <= theta && theta <= MAX_ANGLE) {
            return Err(ShadowError::InvalidAngle { value: theta });
        }
        self.theta = theta;
        Ok(())
    }

    /// Appends a post, or reports its first field out of range and leaves the
    /// scene as it was.
    pub fn set_flatlander(&mut self, x: i32, h: i32) -> (r: Result<(), ShadowError>)
        ensures
            final(self).theta() == old(self).theta(),
            r is Ok <==> valid_position(x as int) && valid_height(h as int),
            r is Ok ==> final(self).posts().len() == old(self).posts().len() + 1
                && final(self).posts().drop_last() == old(self).posts()
                && final(self).posts().last().position() == x
                && final(self).posts().last().height() == h,
            !valid_position(x as int) ==> r == Err::<(), ShadowError>(
                ShadowError::InvalidPositionOrHeight { value: x },
            ),
            valid_position(x as int) && !valid_height(h as int) ==> r == Err::<(), ShadowError>(
                ShadowError::InvalidPositionOrHeight { value: h },
            ),
            r is Err ==> final(self).posts() == old(self).posts(),
    {
        let flatlander = match Flatlander::new(x, h) {
            Ok(f) => f,
            Err(e) => return Err(e),
        };
        proof {
            use_type_invariant(&*self);
        }
        let mut posts = Vec::new();
        std::mem::swap(&mut posts, &mut self.flatlanders);
        posts.push(flatlander);
        self.flatlanders = posts;
        proof {
            assert(self.flatlanders@.drop_last() =~= old(self).flatlanders@);
        }
        Ok(())
    }

    /// Sorts the posts by position; posts that share a position keep their
    /// order.
    pub fn sort(&mut self)
        ensures
            final(self).theta() == old(self).theta(),
            is_stable_sort_of(final(self).posts(), old(self).posts()),
    {
        proof {
            use_type_invariant(&*self);
        }
        let sorted = sort_range(&self.flatlanders, 0, self.flatlanders.len());
        proof {
            assert(self.flatlanders@.subrange(0, self.flatlanders@.len() as int) =~= self.flatlanders@);
        }
        self.flatlanders = sorted;
    }

    /// Returns the angle in degrees.
    pub fn get_theta(&self) -> (r: i32)
        ensures
            r == self.theta(),
            r == 0 || valid_angle(r as int),
    {
        proof {
            use_type_invariant(self);
        }
        self.theta
    }

    /// Returns the posts.
    pub fn get_flatlanders(&self) -> (r: &Vec<Flatlander>)
        ensures
            r@ == self.posts(),
    {
        &self.flatlanders
    }

    /// Total length of ground in shadow, overlapping shadows counted once, in
    /// units of `1 / cot.den`, where `cot` is the cotangent of the angle.
    /// The posts must be sorted by position; the scene is used up.
    pub fn calculate_total_shadow_length(self, cot: Cotangent) -> (r: u128)
        requires
            sorted_by_position(self.posts()),
        ensures
            r == shadow_measure(self.posts(), cot),
    {
        let ghost posts = self.flatlanders@;
        let n = self.flatlanders.len();
        let mut total: u128 = 0;
        let mut run = Run::Empty;
        let mut i: usize = 0;
        proof {
            lemma_cover_empty(cot);
            assert(posts.take(0) =~= Seq::<Flatlander>::empty());
        }
        while i < n
            invariant
                posts == self.flatlanders@,
                n == posts.len(),
                i <= n,
                sorted_by_position(posts),
                sweep_inv(posts, cot, i as int, run, total as int),
                run matches Run::Open { end, .. } ==> end <= MAX_POSITION * 0xffff_ffff_ffff_ffffu64
                    + 1000 * 0xffff_ffff_ffff_ffffu64,
            decreases n - i,
        {
            let f = &self.flatlanders[i];
            let s = f.shadow_start_at(cot);
            let len = f.calculate_shadow_length(cot);
            let e = s + len;
            let ghost old_run = run;
            let ghost old_total = total;
            let ghost prev = shadow_cover(posts.take(i as int), cot);
            let ghost next = shadow_cover(posts.take(i + 1), cot);
            proof {
                assert(posts.take(i + 1) =~= posts.take(i as int).push(*f));
                lemma_cover_push(posts.take(i as int), *f, cot);
                lemma_cover_finite(posts.take(i as int), cot);
            }
            match run {
                Run::Empty => {
                    run = Run::Open { start: s, end: e };
                    proof {
                        assert(next =~= set_int_range(s as int, e as int));
                        assert(next.filter(|p: int| p < s) =~= Set::<int>::empty());
                    }
                },
                Run::Open { start, end } => {
                    proof {
                        assert(posts[i - 1].position() <= posts[i as int].position());
                        assert(posts[i - 1].position() * cot.den <= posts[i as int].position()
                            * cot.den) by (nonlinear_arith)
                            requires
                                posts[i - 1].position() <= posts[i as int].position(),
                        ;
                    }
                    if s <= end {
                        let new_end = if end < e {
                            e
                        } else {
                            end
                        };
                        run = Run::Open { start, end: new_end };
                        proof {
                            assert(next.filter(|p: int| p < start) =~= prev.filter(
                                |p: int| p < start,
                            ));
                        }
                    } else {
                        total = total + (end - start);
                        run = Run::Open { start: s, end: e };
                        proof {
                            let left = prev.filter(|p: int| p < start);
                            let mid = set_int_range(start as int, end as int);
                            assert(next.filter(|p: int| p < s) =~= left.union(mid));
                            assert(left.disjoint(mid));
                            lemma_len_subset(left, prev);
                            lemma_int_range(start as int, end as int);
                            vstd::set_lib::lemma_set_disjoint_lens(left, mid);
                        }
                    }
                },
            }
            i = i + 1;
        }
        proof {
            assert(posts.take(n as int) =~= posts);
        }
        match run {
            Run::Empty => {
                proof {
                    lemma_cover_empty(cot);
                    assert(posts =~= Seq::<Flatlander>::empty());
                }
                total
            },
            Run::Open { start, end } => {
                proof {
                    let cover = shadow_cover(posts, cot);
                    let left = cover.filter(|p: int| p < start);
                    let mid = set_int_range(start as int, end as int);
                    lemma_cover_finite(posts, cot);
                    assert(cover =~= left.union(mid));
                    lemma_len_subset(left, cover);
                    lemma_int_range(start as int, end as int);
                    vstd::set_lib::lemma_set_disjoint_lens(left, mid);
                }
                total + (end - start)
            },
        }
    }
}

} // verus!
