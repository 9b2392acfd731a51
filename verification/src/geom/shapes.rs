//! Shapes of tiles around an origin: balls, and sectors of them towards a ray.
use vstd::prelude::*;

use crate::positional::OctantRelative;
use crate::positional::RelativePosition;
use crate::positional::chebyshev;
use crate::positional::fits_i32;
use crate::positional::octant_offset;
use crate::positional::octant_relative_of;
use crate::positional::relative_of_octant;

verus! {

/// The dot product of two offsets.
pub fn dot(a: RelativePosition, b: RelativePosition) -> (r: i32)
    requires
        fits_i32(a.dx * b.dx),
        fits_i32(a.dy * b.dy),
        fits_i32(a.dx * b.dx + a.dy * b.dy),
    ensures
        r == a.dx * b.dx + a.dy * b.dy,
{
    a.dx * b.dx + a.dy * b.dy
}

/// The dot product as an unbounded integer.
pub open spec fn spec_dot(a: RelativePosition, b: RelativePosition) -> int {
    a.dx * b.dx + a.dy * b.dy
}

/// The dot product, without overflow.
fn wide_dot(a: RelativePosition, b: RelativePosition) -> (r: i128)
    ensures
        r == spec_dot(a, b),
{
    assert(-0x8000_0000 * 0x8000_0000 <= a.dx * b.dx <= 0x8000_0000 * 0x8000_0000) by (nonlinear_arith)
        requires
            i32::MIN <= a.dx <= i32::MAX,
            i32::MIN <= b.dx <= i32::MAX,
    ;
    assert(-0x8000_0000 * 0x8000_0000 <= a.dy * b.dy <= 0x8000_0000 * 0x8000_0000) by (nonlinear_arith)
        requires
            i32::MIN <= a.dy <= i32::MAX,
            i32::MIN <= b.dy <= i32::MAX,
    ;
    (a.dx as i128) * (b.dx as i128) + (a.dy as i128) * (b.dy as i128)
}

/// The tiles within `radius` of the origin, the origin itself left out.
pub open spec fn in_ball(radius: int, p: RelativePosition) -> bool {
    1 <= p.spec_length() <= radius
}

/// Tiles within a maximum radius `R`. Listing them leaves out the origin.
#[derive(Debug, Clone, Copy)]
pub struct Ball<const R: u8>;

impl<const R: u8> Ball<R> {
    /// Every tile of the ball, each once.
    pub fn list_relative(&self) -> (r: Vec<RelativePosition>)
        ensures
            r@.no_duplicates(),
            forall|p: RelativePosition| r@.contains(p) <==> in_ball(R as int, p),
    {
        let len: u32 = R as u32;
        let mut out: Vec<RelativePosition> = Vec::new();
        let mut run: u32 = 1;
        while run <= len
            invariant
                len == R,
                1 <= run <= len + 1,
                out@.no_duplicates(),
                forall|p: RelativePosition| out@.contains(p) ==> in_ball(R as int, p),
                forall|p: RelativePosition|
                    in_ball(R as int, p) && #[trigger] octant_relative_of(p).run < run ==> out@.contains(p),
            decreases len + 1 - run,
        {
            let mut octant: u8 = 0;
            while octant < 8
                invariant
                    len == R,
                    1 <= run <= len,
                    octant <= 8,
                    out@.no_duplicates(),
                    forall|p: RelativePosition| out@.contains(p) ==> in_ball(R as int, p),
                    forall|p: RelativePosition|
                        in_ball(R as int, p) && #[trigger] octant_relative_of(p).run < run ==> out@.contains(p),
                    forall|p: RelativePosition|
                        in_ball(R as int, p) && #[trigger] octant_relative_of(p).run == run && octant_relative_of(p).octant
                            < octant ==> out@.contains(p),
                decreases 8 - octant,
            {
                let mut rise: u32 = 0;
                while rise <= len
                    invariant
                        len == R,
                        1 <= run <= len,
                        octant < 8,
                        rise <= len + 1,
                        out@.no_duplicates(),
                        forall|p: RelativePosition| out@.contains(p) ==> in_ball(R as int, p),
                        forall|p: RelativePosition|
                            in_ball(R as int, p) && #[trigger] octant_relative_of(p).run < run ==> out@.contains(p),
                        forall|p: RelativePosition|
                            in_ball(R as int, p) && #[trigger] octant_relative_of(p).run == run
                                && octant_relative_of(p).octant < octant ==> out@.contains(p),
                        forall|p: RelativePosition|
                            in_ball(R as int, p) && #[trigger] octant_relative_of(p).run == run
                                && octant_relative_of(p).octant == octant && octant_relative_of(p).rise < rise
                                ==> out@.contains(p),
                    decreases len + 1 - rise,
                {
                    let o = OctantRelative { run, rise, octant };
                    proof {
                        lemma_octant_offset_length(o);
                    }
                    let p = relative_of_octant(o);
                    proof {
                        assert(p.spec_length() == chebyshev(octant_offset(o).0, octant_offset(o).1));
                        assert forall|q: RelativePosition|
                            in_ball(R as int, q) && #[trigger] octant_relative_of(q).run == run
                                && octant_relative_of(q).octant == octant && octant_relative_of(q).rise == rise
                                implies q == p by {
                            crate::positional::lemma_octant_roundtrip(q);
                            assert(octant_relative_of(q) == o);
                        }
                    }
                    let mut seen = false;
                    let mut k: usize = 0;
                    while k < out.len()
                        invariant
                            k <= out.len(),
                            seen == out@.subrange(0, k as int).contains(p),
                        decreases out.len() - k,
                    {
                        let ghost before = out@.subrange(0, k as int);
                        if out[k] == p {
                            seen = true;
                        }
                        proof {
                            let after = out@.subrange(0, k + 1);
                            assert(after =~= before.push(out@[k as int]));
                            if after.contains(p) && !before.contains(p) {
                                let w = choose|w: int| 0 <= w < after.len() && after[w] == p;
                                if w < before.len() {
                                    assert(before[w] == p);
                                }
                            }
                            if before.contains(p) {
                                let w = choose|w: int| 0 <= w < before.len() && before[w] == p;
                                assert(after[w] == p);
                            }
                            if out@[k as int] == p {
                                assert(after[k as int] == p);
                            }
                        }
                        k += 1;
                    }
                    proof {
                        assert(out@.subrange(0, out.len() as int) =~= out@);
                    }
                    let ghost old_out = out@;
                    if !seen {
                        out.push(p);
                        proof {
                            assert(in_ball(R as int, p));
                            assert forall|q: RelativePosition| #[trigger] out@.contains(q) <==> old_out.contains(q) || q == p by {
                                if old_out.contains(q) {
                                    let w = choose|w: int| 0 <= w < old_out.len() && old_out[w] == q;
                                    assert(out@[w] == q);
                                }
                                if q == p {
                                    assert(out@[old_out.len() as int] == p);
                                }
                                if out@.contains(q) {
                                    let w = choose|w: int| 0 <= w < out@.len() && out@[w] == q;
                                    if w < old_out.len() {
                                        assert(old_out[w] == q);
                                    }
                                }
                            }
                        }
                    }
                    rise += 1;
                }
                octant += 1;
            }
            proof {
                assert forall|p: RelativePosition|
                    in_ball(R as int, p) && #[trigger] octant_relative_of(p).run < run + 1 implies out@.contains(p) by {
                    crate::positional::lemma_octant_roundtrip(p);
                    if octant_relative_of(p).run == run {
                        assert(octant_relative_of(p).octant < 8);
                        assert(octant_relative_of(p).rise <= len);
                    }
                }
            }
            run += 1;
        }
        proof {
            assert forall|p: RelativePosition| in_ball(R as int, p) implies out@.contains(p) by {
                crate::positional::lemma_octant_roundtrip(p);
                assert(octant_relative_of(p).run < run);
            }
        }
        out
    }

    /// Whether `x` is within the radius; the origin is.
    pub fn contains_relative(&self, x: RelativePosition) -> (r: bool)
        ensures
            r == (x.spec_length() <= R as int),
    {
        x.length() <= R as u32
    }

    /// The ball itself is the union of all its parts.
    pub fn union_all(&self) -> (r: Ball<R>)
        ensures
            r == *self,
    {
        Ball::<R>
    }
}

/// Turning a position of any octant into an offset: its length is the larger of run and
/// rise.
pub proof fn lemma_octant_offset_length(o: OctantRelative)
    requires
        o.run <= 255,
        o.rise <= 255,
    ensures
        crate::positional::octant_offset_fits(o),
        chebyshev(octant_offset(o).0, octant_offset(o).1) == if o.rise <= o.run { o.run as int } else { o.rise as int },
{
}


proof fn lemma_push_no_dup(s: Seq<RelativePosition>, x: RelativePosition)
    requires
        s.no_duplicates(),
        !s.contains(x),
    ensures
        s.push(x).no_duplicates(),
{
    let t = s.push(x);
    assert forall|i: int, j: int| 0 <= i < t.len() && 0 <= j < t.len() && i != j implies t[i] != t[j] by {
        if i < s.len() && j < s.len() {
            assert(t[i] == s[i] && t[j] == s[j]);
        } else if i < s.len() {
            assert(t[i] == s[i]);
        } else {
            assert(t[j] == s[j]);
        }
    }
}

/// Whether `y` is strictly closer in angle to `ray` than `x`: the squared cosine of its
/// angle is larger (compared without dividing).
pub open spec fn closer(y: RelativePosition, x: RelativePosition, ray: RelativePosition) -> bool {
    spec_dot(y, ray) * spec_dot(y, ray) * spec_dot(x, x) > spec_dot(x, ray) * spec_dot(x, ray) * spec_dot(y, y)
}

/// The tiles of the ball of `radius` on the side of `ray`.
pub open spec fn in_half_ball(radius: int, ray: RelativePosition, y: RelativePosition) -> bool {
    in_ball(radius, y) && spec_dot(y, ray) >= 0
}

/// The tiles of the half ball strictly closer in angle to `ray` than `x`.
pub open spec fn closer_than(radius: int, ray: RelativePosition, x: RelativePosition) -> Set<RelativePosition> {
    Set::new(|y: RelativePosition| in_half_ball(radius, ray, y) && closer(y, x, ray))
}

/// The items of `s` strictly closer in angle to `ray` than `x`, in order.
pub open spec fn closer_in(s: Seq<RelativePosition>, x: RelativePosition, ray: RelativePosition) -> Seq<RelativePosition>
    decreases s.len(),
{
    if s.len() == 0 {
        Seq::empty()
    } else {
        let prev = closer_in(s.drop_last(), x, ray);
        if closer(s.last(), x, ray) {
            prev.push(s.last())
        } else {
            prev
        }
    }
}

proof fn lemma_closer_in(s: Seq<RelativePosition>, x: RelativePosition, ray: RelativePosition)
    requires
        s.no_duplicates(),
    ensures
        closer_in(s, x, ray).no_duplicates(),
        forall|y: RelativePosition| #[trigger] closer_in(s, x, ray).contains(y) <==> s.contains(y) && closer(y, x, ray),
    decreases s.len(),
{
    if s.len() > 0 {
        let pre = s.drop_last();
        assert(pre.no_duplicates());
        lemma_closer_in(pre, x, ray);
        let c = closer_in(s, x, ray);
        let cp = closer_in(pre, x, ray);
        assert forall|y: RelativePosition| #[trigger] c.contains(y) <==> s.contains(y) && closer(y, x, ray) by {
            if s.contains(y) {
                let w = choose|w: int| 0 <= w < s.len() && s[w] == y;
                if w < pre.len() {
                    assert(pre[w] == y);
                }
            }
            if pre.contains(y) {
                let w = choose|w: int| 0 <= w < pre.len() && pre[w] == y;
                assert(s[w] == y);
            }
            if closer(s.last(), x, ray) {
                assert(c =~= cp.push(s.last()));
                if c.contains(y) {
                    let w = choose|w: int| 0 <= w < c.len() && c[w] == y;
                    if w < cp.len() {
                        assert(cp[w] == y);
                    }
                }
                if cp.contains(y) {
                    let w = choose|w: int| 0 <= w < cp.len() && cp[w] == y;
                    assert(c[w] == y);
                }
                if y == s.last() {
                    assert(c[cp.len() as int] == y);
                }
            }
        }
        if closer(s.last(), x, ray) {
            assert(!pre.contains(s.last())) by {
                if pre.contains(s.last()) {
                    let w = choose|w: int| 0 <= w < pre.len() && pre[w] == s.last();
                    assert(s[w] == s[s.len() - 1]);
                }
            }
            assert(!cp.contains(s.last()));
        }
    }
}

/// Whether `y` is strictly closer in angle to `ray` than `x`, for tiles of a ball.
fn closer_exec(y: RelativePosition, x: RelativePosition, ray: RelativePosition) -> (r: bool)
    requires
        y.spec_length() <= 255,
        x.spec_length() <= 255,
    ensures
        r == closer(y, x, ray),
{
    let dy_ray = wide_dot(y, ray);
    let dx_ray = wide_dot(x, ray);
    let xx = wide_dot(x, x);
    let yy = wide_dot(y, y);
    proof {
        assert(-255 <= y.dx <= 255 && -255 <= y.dy <= 255);
        assert(-255 <= x.dx <= 255 && -255 <= x.dy <= 255);
        assert(-0x100_0000_0000 <= dy_ray <= 0x100_0000_0000) by (nonlinear_arith)
            requires
                dy_ray == y.dx * ray.dx + y.dy * ray.dy,
                -255 <= y.dx <= 255,
                -255 <= y.dy <= 255,
                -0x8000_0000 <= ray.dx <= 0x8000_0000,
                -0x8000_0000 <= ray.dy <= 0x8000_0000,
        ;
        assert(-0x100_0000_0000 <= dx_ray <= 0x100_0000_0000) by (nonlinear_arith)
            requires
                dx_ray == x.dx * ray.dx + x.dy * ray.dy,
                -255 <= x.dx <= 255,
                -255 <= x.dy <= 255,
                -0x8000_0000 <= ray.dx <= 0x8000_0000,
                -0x8000_0000 <= ray.dy <= 0x8000_0000,
        ;
        assert(0 <= xx <= 0x2_0000) by (nonlinear_arith)
            requires
                xx == x.dx * x.dx + x.dy * x.dy,
                -255 <= x.dx <= 255,
                -255 <= x.dy <= 255,
        ;
        assert(0 <= yy <= 0x2_0000) by (nonlinear_arith)
            requires
                yy == y.dx * y.dx + y.dy * y.dy,
                -255 <= y.dx <= 255,
                -255 <= y.dy <= 255,
        ;
        assert(0 <= dy_ray * dy_ray <= 0x1_0000_0000_0000_0000_0000) by (nonlinear_arith)
            requires
                -0x100_0000_0000 <= dy_ray <= 0x100_0000_0000,
        ;
        assert(0 <= dx_ray * dx_ray <= 0x1_0000_0000_0000_0000_0000) by (nonlinear_arith)
            requires
                -0x100_0000_0000 <= dx_ray <= 0x100_0000_0000,
        ;
        assert(0 <= dy_ray * dy_ray * xx <= 0x2_0000_0000_0000_0000_0000_0000) by (nonlinear_arith)
            requires
                0 <= dy_ray * dy_ray <= 0x1_0000_0000_0000_0000_0000,
                0 <= xx <= 0x2_0000,
        ;
        assert(0 <= dx_ray * dx_ray * yy <= 0x2_0000_0000_0000_0000_0000_0000) by (nonlinear_arith)
            requires
                0 <= dx_ray * dx_ray <= 0x1_0000_0000_0000_0000_0000,
                0 <= yy <= 0x2_0000,
        ;
    }
    dy_ray * dy_ray * xx > dx_ray * dx_ray * yy
}

/// Part of a ball: the tiles on the side of `ray`, keeping those at least as close in angle
/// to the ray as the `top_n`th closest. Ties at the cut are all kept; it never reaches past
/// the half ball.
#[derive(Debug, Clone, Copy)]
pub struct Sector<const R: u8> {
    pub ray: RelativePosition,
    pub top_n: usize,
}

impl<const R: u8> Sector<R> {
    /// Every tile of the sector, each once: a tile of the half ball is in it where fewer
    /// than `top_n` tiles of the half ball are strictly closer in angle to the ray.
    pub fn list_relative(&self) -> (r: Vec<RelativePosition>)
        requires
            self.top_n >= 1,
        ensures
            r@.no_duplicates(),
            forall|x: RelativePosition|
                r@.contains(x) <==> in_half_ball(R as int, self.ray, x) && closer_than(R as int, self.ray, x).len()
                    < self.top_n,
    {
        let circle = Ball::<R>.list_relative();
        let ray = self.ray;
        // The half ball.
        let mut positive: Vec<RelativePosition> = Vec::new();
        let mut i: usize = 0;
        while i < circle.len()
            invariant
                i <= circle.len(),
                circle@.no_duplicates(),
                forall|p: RelativePosition| circle@.contains(p) <==> in_ball(R as int, p),
                positive@.no_duplicates(),
                forall|p: RelativePosition|
                    positive@.contains(p) <==> circle@.subrange(0, i as int).contains(p) && spec_dot(p, ray) >= 0,
            decreases circle.len() - i,
        {
            let p = circle[i];
            let ghost before = positive@;
            let ghost pre = circle@.subrange(0, i as int);
            proof {
                assert(circle@.subrange(0, i + 1) =~= pre.push(p));
                assert(!pre.contains(p)) by {
                    if pre.contains(p) {
                        let w = choose|w: int| 0 <= w < pre.len() && pre[w] == p;
                        assert(circle@[w] == circle@[i as int]);
                    }
                }
            }
            if wide_dot(p, ray) >= 0 {
                proof {
                    assert(!before.contains(p));
                    lemma_push_no_dup(before, p);
                }
                positive.push(p);
            }
            proof {
                let post = circle@.subrange(0, i + 1);
                assert forall|q: RelativePosition| positive@.contains(q) <==> post.contains(q) && spec_dot(q, ray) >= 0 by {
                    if post.contains(q) {
                        let w = choose|w: int| 0 <= w < post.len() && post[w] == q;
                        if w < pre.len() {
                            assert(pre[w] == q);
                        }
                    }
                    if pre.contains(q) {
                        let w = choose|w: int| 0 <= w < pre.len() && pre[w] == q;
                        assert(post[w] == q);
                    }
                    if positive@.contains(q) {
                        let w = choose|w: int| 0 <= w < positive@.len() && positive@[w] == q;
                        if w < before.len() {
                            assert(before[w] == q);
                        }
                    }
                    if before.contains(q) {
                        let w = choose|w: int| 0 <= w < before.len() && before[w] == q;
                        assert(positive@[w] == q);
                    }
                    if q == p && spec_dot(p, ray) >= 0 {
                        assert(positive@[before.len() as int] == p);
                    }
                    if q == p {
                        assert(post[i as int] == p);
                    }
                }
            }
            i += 1;
        }
        proof {
            assert(circle@.subrange(0, circle.len() as int) =~= circle@);
        }
        // Those with fewer than `top_n` strictly closer.
        let mut out: Vec<RelativePosition> = Vec::new();
        let mut i: usize = 0;
        while i < positive.len()
            invariant
                i <= positive.len(),
                self.ray == ray,
                positive@.no_duplicates(),
                forall|p: RelativePosition| positive@.contains(p) <==> in_half_ball(R as int, ray, p),
                out@.no_duplicates(),
                forall|p: RelativePosition|
                    out@.contains(p) <==> positive@.subrange(0, i as int).contains(p) && closer_than(R as int, ray, p).len()
                        < self.top_n,
            decreases positive.len() - i,
        {
            let x = positive[i];
            proof {
                assert(positive@[i as int] == x);
                assert(positive@.contains(x));
                assert(R <= 255);
            }
            let mut count: usize = 0;
            let mut j: usize = 0;
            while j < positive.len()
                invariant
                    j <= positive.len(),
                    0 <= i < positive.len(),
                    x == positive@[i as int],
                    forall|p: RelativePosition| positive@.contains(p) <==> in_half_ball(R as int, ray, p),
                    count == closer_in(positive@.take(j as int), x, ray).len(),
                    count <= j,
                    x.spec_length() <= 255,
                    R <= 255,
                decreases positive.len() - j,
            {
                let y = positive[j];
                proof {
                    assert(positive@[j as int] == y);
                    assert(positive@.contains(y));
                    assert(positive@.take(j + 1) =~= positive@.take(j as int).push(y));
                    assert(positive@.take(j + 1).drop_last() =~= positive@.take(j as int));
                }
                if closer_exec(y, x, ray) {
                    count += 1;
                }
                j += 1;
            }
            proof {
                assert(positive@.take(positive.len() as int) =~= positive@);
                lemma_closer_in(positive@, x, ray);
                let c = closer_in(positive@, x, ray);
                c.unique_seq_to_set();
                assert(c.to_set() =~= closer_than(R as int, ray, x));
            }
            let ghost before = out@;
            let ghost pre = positive@.subrange(0, i as int);
            proof {
                assert(positive@.subrange(0, i + 1) =~= pre.push(x));
                assert(!pre.contains(x)) by {
                    if pre.contains(x) {
                        let w = choose|w: int| 0 <= w < pre.len() && pre[w] == x;
                        assert(positive@[w] == positive@[i as int]);
                    }
                }
            }
            if count < self.top_n {
                proof {
                    assert(!before.contains(x));
                    lemma_push_no_dup(before, x);
                }
                out.push(x);
            }
            proof {
                let post = positive@.subrange(0, i + 1);
                assert forall|q: RelativePosition|
                    out@.contains(q) <==> post.contains(q) && closer_than(R as int, ray, q).len() < self.top_n by {
                    if post.contains(q) {
                        let w = choose|w: int| 0 <= w < post.len() && post[w] == q;
                        if w < pre.len() {
                            assert(pre[w] == q);
                        }
                    }
                    if pre.contains(q) {
                        let w = choose|w: int| 0 <= w < pre.len() && pre[w] == q;
                        assert(post[w] == q);
                    }
                    if out@.contains(q) {
                        let w = choose|w: int| 0 <= w < out@.len() && out@[w] == q;
                        if w < before.len() {
                            assert(before[w] == q);
                        }
                    }
                    if before.contains(q) {
                        let w = choose|w: int| 0 <= w < before.len() && before[w] == q;
                        assert(out@[w] == q);
                    }
                    if q == x && count < self.top_n {
                        assert(out@[before.len() as int] == x);
                    }
                    if q == x {
                        assert(post[i as int] == x);
                    }
                }
            }
            i += 1;
        }
        proof {
            assert(positive@.subrange(0, positive.len() as int) =~= positive@);
        }
        out
    }

    /// Whether `x` is in the sector.
    pub fn contains_relative(&self, x: RelativePosition) -> (r: bool)
        requires
            self.top_n >= 1,
        ensures
            r == (in_half_ball(R as int, self.ray, x) && closer_than(R as int, self.ray, x).len() < self.top_n),
    {
        let all = self.list_relative();
        let mut i: usize = 0;
        while i < all.len()
            invariant
                i <= all.len(),
                forall|k: int| 0 <= k < i ==> all@[k] != x,
                forall|q: RelativePosition|
                    all@.contains(q) <==> in_half_ball(R as int, self.ray, q) && closer_than(R as int, self.ray, q).len()
                        < self.top_n,
            decreases all.len() - i,
        {
            if all[i] == x {
                proof {
                    assert(all@[i as int] == x);
                    assert(all@.contains(x));
                }
                return true;
            }
            i += 1;
        }
        proof {
            assert(!all@.contains(x));
        }
        false
    }

    /// The smallest ball holding the sector.
    pub fn union_all(&self) -> (r: Ball<R>)
        ensures
            r == Ball::<R>,
            forall|x: RelativePosition| #[trigger] in_half_ball(R as int, self.ray, x) ==> in_ball(R as int, x),
    {
        Ball::<R>
    }
}

} // verus!
