use vstd::prelude::*;

use crate::positional::InsideOctant;
use crate::positional::OctantRelative;
use crate::positional::RelativePosition;
use crate::positional::octant_offset;
use crate::positional::octant_offset_fits;
use crate::positional::octant_relative_of;
use crate::positional::relative_of_octant;
use crate::positional::lemma_octant_roundtrip;

verus! {

/// One step of the segment walk: whether the rise goes up at `run`.
///
/// Before the middle, the rise goes up only when that is strictly more accurate; after
/// the middle, also on a tie. This makes segments symmetric.
pub open spec fn seg_step(run_total: int, rise_total: int, run: int, rise: int) -> int {
    let goes_up = if 2 * run <= run_total {
        run_total * (2 * rise + 1) < rise_total * 2 * run
    } else {
        run_total * (2 * rise + 1) <= rise_total * 2 * run
    };
    if goes_up {
        rise + 1
    } else {
        rise
    }
}

/// The rise of the segment to `(rise_total, run_total)` at `run`.
pub open spec fn seg_rise(run_total: int, rise_total: int, run: nat) -> int
    decreases run,
{
    if run == 0 {
        seg_step(run_total, rise_total, 0, 0)
    } else {
        seg_step(run_total, rise_total, run as int, seg_rise(run_total, rise_total, (run - 1) as nat))
    }
}

/// The tiles of the segment from the origin to `target`, one per run.
pub open spec fn segment_tiles(target: InsideOctant) -> Seq<InsideOctant> {
    Seq::new(
        (target.run + 1) as nat,
        |k: int|
            InsideOctant {
                rise: seg_rise(target.run as int, target.rise as int, k as nat) as u32,
                run: k as u32,
            },
    )
}

/// When the segment passes exactly between two tiles at its middle, the other choice.
pub open spec fn segment_alt(target: InsideOctant) -> Option<Seq<InsideOctant>> {
    if target.rise % 2 != 0 && target.run % 2 == 0 {
        let tiles = segment_tiles(target);
        let mid = tiles.len() / 2;
        Some(tiles.update(mid as int, InsideOctant { rise: (tiles[mid as int].rise + 1) as u32, run: tiles[mid as int].run }))
    } else {
        None
    }
}

/// Where the rise at `run` sits: it is the best rounding of `rise_total * run / run_total`,
/// rounding down on a tie before the middle and up on a tie after it.
pub open spec fn bracket(run_total: int, rise_total: int, run: int, rise: int) -> bool {
    if 2 * run <= run_total {
        run_total * (2 * rise - 1) < 2 * rise_total * run <= run_total * (2 * rise + 1)
    } else {
        run_total * (2 * rise - 1) <= 2 * rise_total * run < run_total * (2 * rise + 1)
    }
}

proof fn lemma_bracket(r: int, s: int, k: nat)
    requires
        0 < r,
        0 <= s <= r,
        k <= r,
    ensures
        bracket(r, s, k as int, seg_rise(r, s, k)),
        0 <= seg_rise(r, s, k) <= s,
        seg_rise(r, s, k) <= k,
    decreases k,
{
    let x = seg_rise(r, s, k);
    if k == 0 {
        assert(r * (2 * 0 + 1) == r) by (nonlinear_arith);
        assert(x == 0);
        assert(r * (2 * 0 - 1) == -r) by (nonlinear_arith);
    } else {
        lemma_bracket(r, s, (k - 1) as nat);
        let p = seg_rise(r, s, (k - 1) as nat);
        let kk = k as int;
        assert(r * (2 * p + 1) + 2 * r == r * (2 * (p + 1) + 1)) by (nonlinear_arith);
        assert(r * (2 * p - 1) + 2 * r == r * (2 * (p + 1) - 1)) by (nonlinear_arith);
        assert(s * 2 * kk == 2 * s * (kk - 1) + 2 * s) by (nonlinear_arith);
        assert(s * 2 * kk == 2 * s * kk) by (nonlinear_arith);
        if s == r && 2 * s * (kk - 1) == r * (2 * p + 1) {
            assert(2 * (kk - 1) == 2 * p + 1) by (nonlinear_arith)
                requires
                    s == r,
                    0 < r,
                    2 * s * (kk - 1) == r * (2 * p + 1),
            ;
        }
    }
    let kk = k as int;
    assert(0 <= x <= s) by (nonlinear_arith)
        requires
            bracket(r, s, kk, x),
            0 < r,
            0 <= s <= r,
            0 <= kk <= r,
    ;
    assert(x <= kk) by (nonlinear_arith)
        requires
            bracket(r, s, kk, x),
            0 < r,
            0 <= s <= r,
            0 <= kk <= r,
    ;
}

proof fn lemma_seg_rise_zero(r: int, s: int)
    requires
        0 <= r,
    ensures
        seg_rise(r, s, 0) == 0,
{
    assert(r * (2 * 0 + 1) >= 0 && s * 2 * 0 == 0) by (nonlinear_arith)
        requires
            0 <= r,
    ;
}

proof fn lemma_bracket_unique(r: int, s: int, k: int, a: int, b: int)
    requires
        0 < r,
        bracket(r, s, k, a),
        bracket(r, s, k, b),
    ensures
        a == b,
{
    assert(a == b) by (nonlinear_arith)
        requires
            0 < r,
            bracket(r, s, k, a),
            bracket(r, s, k, b),
    ;
}

/// The segment to `target` ends at `target`, and each tile is one run further and at
/// most one rise higher than the previous.
pub proof fn lemma_segment_shape(target: InsideOctant)
    requires
        target.rise <= target.run,
    ensures
        segment_tiles(target).len() == target.run + 1,
        segment_tiles(target)[0] == (InsideOctant { rise: 0, run: 0 }),
        segment_tiles(target)[target.run as int] == target,
        forall|k: int|
            0 < k <= target.run ==> #[trigger] segment_tiles(target)[k].rise
                == segment_tiles(target)[k - 1].rise || segment_tiles(target)[k].rise
                == segment_tiles(target)[k - 1].rise + 1,
{
    let r = target.run as int;
    let s = target.rise as int;
    if r == 0 {
        lemma_seg_rise_zero(r, s);
    } else {
        lemma_bracket(r, s, 0);
        lemma_bracket(r, s, target.run as nat);
        let x = seg_rise(r, s, target.run as nat);
        assert(x == s) by (nonlinear_arith)
            requires
                0 < r,
                r * (2 * x - 1) <= 2 * s * r < r * (2 * x + 1),
        ;
        assert forall|k: int| 0 < k <= target.run implies #[trigger] segment_tiles(target)[k].rise
            == segment_tiles(target)[k - 1].rise || segment_tiles(target)[k].rise
            == segment_tiles(target)[k - 1].rise + 1 by {
            lemma_bracket(r, s, k as nat);
            lemma_bracket(r, s, (k - 1) as nat);
        }
    }
}

/// Symmetry: walking the segment backwards from `target` visits the same tiles.
/// Where the middle is a tie, the alternative segment is the backwards one.
pub proof fn lemma_segment_symmetric(target: InsideOctant, k: int)
    requires
        target.rise <= target.run,
        0 <= k <= target.run,
    ensures
        segment_alt(target) is None ==> segment_tiles(target)[k].rise + segment_tiles(
            target,
        )[target.run - k].rise == target.rise,
        segment_alt(target) matches Some(alt) ==> segment_tiles(target)[k].rise + alt[target.run
            - k].rise == target.rise,
{
    let r = target.run as int;
    let s = target.rise as int;
    if r == 0 {
        lemma_seg_rise_zero(r, s);
        return;
    }
    let j = r - k;
    lemma_bracket(r, s, k as nat);
    lemma_bracket(r, s, j as nat);
    let a = seg_rise(r, s, k as nat);
    let b = seg_rise(r, s, j as nat);
    if 2 * k < r {
        assert(bracket(r, s, j, s - a)) by (nonlinear_arith)
            requires
                0 < r,
                j == r - k,
                2 * k < r,
                r * (2 * a - 1) < 2 * s * k <= r * (2 * a + 1),
        ;
        lemma_bracket_unique(r, s, j, b, s - a);
    } else if 2 * k > r {
        assert(bracket(r, s, k, s - b)) by (nonlinear_arith)
            requires
                0 < r,
                j == r - k,
                2 * k > r,
                r * (2 * b - 1) < 2 * s * j <= r * (2 * b + 1),
        ;
        lemma_bracket_unique(r, s, k, a, s - b);
    } else {
        assert(j == k);
        assert(s == 2 * a || s == 2 * a + 1) by (nonlinear_arith)
            requires
                0 < r,
                2 * k == r,
                r * (2 * a - 1) < 2 * s * k <= r * (2 * a + 1),
        ;
    }
}

/// The offset of the tile `t` of a segment, in the octant `octant`.
pub open spec fn tile_in_octant(t: InsideOctant, octant: u8) -> RelativePosition {
    let o = OctantRelative { run: t.run, rise: t.rise, octant };
    RelativePosition { dx: octant_offset(o).0 as i32, dy: octant_offset(o).1 as i32 }
}

/// The tiles of the segment from the origin to `target`, as offsets.
pub open spec fn relative_segment(target: RelativePosition) -> Seq<RelativePosition> {
    let o = octant_relative_of(target);
    segment_tiles(o.inside()).map_values(|t: InsideOctant| tile_in_octant(t, o.octant))
}

/// The alternative segment to `target`, as offsets.
pub open spec fn relative_segment_alt(target: RelativePosition) -> Option<Seq<RelativePosition>> {
    let o = octant_relative_of(target);
    match segment_alt(o.inside()) {
        Some(alt) => Some(alt.map_values(|t: InsideOctant| tile_in_octant(t, o.octant))),
        None => None,
    }
}

/// Whether the segment to `target` can be computed without overflow.
pub open spec fn segment_computable(target: RelativePosition) -> bool {
    let o = octant_relative_of(target);
    &&& o.run * (2 * o.rise + 1) <= u32::MAX
    &&& 2 * o.run <= u32::MAX
}

/// Symmetry of segments between offsets: the tile `k` steps from the start and the tile
/// `k` steps from the end add up to the target.
pub proof fn lemma_relative_segment_symmetric(target: RelativePosition, k: int)
    requires
        segment_computable(target),
        0 <= k < relative_segment(target).len(),
    ensures
        ({
            let n = relative_segment(target).len() - 1;
            let back = match relative_segment_alt(target) {
                Some(alt) => alt[n - k],
                None => relative_segment(target)[n - k],
            };
            relative_segment(target)[k].dx + back.dx == target.dx && relative_segment(target)[k].dy
                + back.dy == target.dy
        }),
{
    let o = octant_relative_of(target);
    lemma_octant_roundtrip(target);
    let inside = o.inside();
    lemma_segment_symmetric(inside, k);
    lemma_segment_shape(inside);
    let n = inside.run as int;
    lemma_bracket_bounds(inside, k);
    lemma_bracket_bounds(inside, n - k);
}

/// Every tile of a segment, and of its alternative, stays in the octant and within the target's run.
pub proof fn lemma_segment_in_octant(target: InsideOctant)
    requires
        target.rise <= target.run,
    ensures
        forall|k: int|
            0 <= k < segment_tiles(target).len() ==> (#[trigger] segment_tiles(target)[k]).run
                <= target.run && segment_tiles(target)[k].rise <= segment_tiles(target)[k].run,
        segment_alt(target) matches Some(alt) ==> forall|k: int|
            0 <= k < alt.len() ==> (#[trigger] alt[k]).run <= target.run && alt[k].rise <= alt[k].run,
{
    let r = target.run as int;
    let s = target.rise as int;
    assert forall|k: int| 0 <= k < segment_tiles(target).len() implies (#[trigger] segment_tiles(target)[k]).run
        <= target.run && segment_tiles(target)[k].rise <= segment_tiles(target)[k].run by {
        if r > 0 {
            lemma_bracket(r, s, k as nat);
        } else {
            lemma_seg_rise_zero(r, s);
        }
    }
    if let Some(alt) = segment_alt(target) {
        let mid = r / 2;
        lemma_bracket(r, s, mid as nat);
        let a = seg_rise(r, s, mid as nat);
        assert(a + 1 <= mid) by (nonlinear_arith)
            requires
                0 < r,
                2 * mid == r,
                s % 2 == 1,
                s <= r,
                r * (2 * a - 1) < 2 * s * mid,
        ;
        assert forall|k: int| 0 <= k < alt.len() implies (#[trigger] alt[k]).run <= target.run && alt[k].rise
            <= alt[k].run by {
            if k != mid {
                lemma_bracket(r, s, k as nat);
            }
        }
    }
}

proof fn lemma_bracket_bounds(target: InsideOctant, k: int)
    requires
        target.rise <= target.run,
        0 <= k <= target.run,
    ensures
        segment_tiles(target)[k].rise <= target.rise,
{
    if target.run > 0 {
        lemma_bracket(target.run as int, target.rise as int, k as nat);
    } else {
        lemma_seg_rise_zero(target.run as int, target.rise as int);
    }
}

/// A symmetric segment.
///
/// The symmetry is a bit pointless, but it looks good.
/// If you at A draw a line to C which passes through B without hitting a wall,
/// Sometimes B cannot draw a line passing through A without hitting a wall.
pub struct Segment {}

impl Segment {
    /// The tiles from the origin to `target`, and when the middle is a tie, the segment
    /// that takes the other tile there.
    pub fn calculate(target: InsideOctant) -> (r: (Vec<InsideOctant>, Option<Vec<InsideOctant>>))
        requires
            target.rise <= target.run,
            target.run * (2 * target.rise + 1) <= u32::MAX,
            2 * target.run <= u32::MAX,
        ensures
            r.0@ == segment_tiles(target),
            r.1 matches Some(alt) ==> segment_alt(target) == Some(alt@),
            r.1 is None ==> segment_alt(target) is None,
    {
        let mut tiles: Vec<InsideOctant> = Vec::new();
        let ghost r_total = target.run as int;
        let ghost s_total = target.rise as int;

        let mut rise: u32 = 0;
        let mut run: u32 = 0;
        while run <= target.run
            invariant
                target.rise <= target.run,
                target.run * (2 * target.rise + 1) <= u32::MAX,
                2 * target.run <= u32::MAX,
                r_total == target.run,
                s_total == target.rise,
                run <= target.run + 1,
                tiles@.len() == run,
                forall|k: int| 0 <= k < run ==> tiles@[k] == #[trigger] segment_tiles(target)[k],
                run == 0 ==> rise == 0,
                run > 0 ==> rise == seg_rise(r_total, s_total, (run - 1) as nat),
                rise <= target.rise,
            decreases target.run + 1 - run,
        {
            proof {
                if r_total > 0 {
                    lemma_bracket(r_total, s_total, run as nat);
                } else {
                    lemma_seg_rise_zero(r_total, s_total);
                }
                assert(target.run * (2 * rise + 1) <= target.run * (2 * target.rise + 1))
                    by (nonlinear_arith)
                    requires
                        rise <= target.rise,
                ;
                assert(target.rise * 2 * run <= target.run * (2 * target.rise + 1))
                    by (nonlinear_arith)
                    requires
                        target.rise <= target.run,
                        run <= target.run,
                ;
            }
            if 2 * run <= target.run {
                if target.run * (2 * rise + 1) < target.rise * 2 * run {
                    rise += 1;
                }
            } else if target.run * (2 * rise + 1) <= target.rise * 2 * run {
                rise += 1;
            }
            tiles.push(InsideOctant::new(rise, run));
            run += 1;
        }

        let mut alt = None;
        if target.rise % 2 != 0 && target.run % 2 == 0 {
            let mut clone = tiles.clone();
            let mid = clone.len() / 2;
            let tile = clone[mid];
            proof {
                lemma_bracket(r_total, s_total, mid as nat);
            }
            clone.set(mid, InsideOctant::new(tile.rise + 1, tile.run));
            proof {
                assert(clone@ =~= segment_tiles(target).update(mid as int, InsideOctant { rise: (tile.rise + 1) as u32, run: tile.run }));
            }
            alt = Some(clone);
        }
        proof {
            assert(tiles@ =~= segment_tiles(target));
        }
        (tiles, alt)
    }

    /// The segment from the origin to `target`, and its alternative, as offsets.
    pub fn calculate_relative(target: RelativePosition) -> (r: (
        Vec<RelativePosition>,
        Option<Vec<RelativePosition>>,
    ))
        requires
            segment_computable(target),
        ensures
            r.0@ == relative_segment(target),
            r.1 matches Some(alt) ==> relative_segment_alt(target) == Some(alt@),
            r.1 is None ==> relative_segment_alt(target) is None,
    {
        let target_octantified = OctantRelative::from(target);
        proof {
            lemma_octant_roundtrip(target);
        }
        let target_in_octant = InsideOctant::new(target_octantified.rise, target_octantified.run);
        let (a, b) = Self::calculate(target_in_octant);
        proof {
            lemma_segment_in_octant(target_in_octant);
        }
        let a_relative = Self::into_octant(&a, target_octantified);
        let b_relative = match b {
            Some(b) => Some(Self::into_octant(&b, target_octantified)),
            None => None,
        };
        (a_relative, b_relative)
    }

    fn into_octant(tiles: &Vec<InsideOctant>, octant: OctantRelative) -> (r: Vec<RelativePosition>)
        requires
            forall|i: int| 0 <= i < tiles.len() ==> (#[trigger] tiles[i]).run <= octant.run && tiles[i].rise <= tiles[i].run,
            octant.run <= i32::MAX,
        ensures
            r@ == tiles@.map_values(|t: InsideOctant| tile_in_octant(t, octant.octant)),
    {
        let mut out: Vec<RelativePosition> = Vec::new();
        let mut i: usize = 0;
        while i < tiles.len()
            invariant
                i <= tiles.len(),
                forall|i: int| 0 <= i < tiles.len() ==> (#[trigger] tiles[i]).run <= octant.run && tiles[i].rise <= tiles[i].run,
                octant.run <= i32::MAX,
                out@.len() == i,
                forall|k: int| 0 <= k < i ==> out@[k] == tile_in_octant(#[trigger] tiles@[k], octant.octant),
            decreases tiles.len() - i,
        {
            let t = tiles[i];
            let p = relative_of_octant(octant.in_same_octant(t.rise, t.run));
            out.push(p);
            i += 1;
        }
        proof {
            assert(out@ =~= tiles@.map_values(|t: InsideOctant| tile_in_octant(t, octant.octant)));
        }
        out
    }
}

/// Every segment starts at the origin.
pub proof fn lemma_relative_segment_start(target: RelativePosition)
    ensures
        relative_segment(target).len() >= 1,
        relative_segment(target)[0] == (RelativePosition { dx: 0, dy: 0 }),
{
    crate::positional::lemma_octant_roundtrip(target);
    let o = crate::positional::octant_relative_of(target);
    lemma_segment_shape(o.inside());
}

/// Short offsets have segments that can be computed.
pub proof fn lemma_short_segment_computable(target: RelativePosition)
    requires
        target.spec_length() <= 46340,
    ensures
        segment_computable(target),
{
    crate::positional::lemma_octant_roundtrip(target);
    let o = crate::positional::octant_relative_of(target);
    let run = o.run as int;
    let rise = o.rise as int;
    assert(run == target.spec_length());
    assert(run * (2 * rise + 1) <= 46340 * (2 * 46340 + 1)) by (nonlinear_arith)
        requires
            0 <= rise <= run <= 46340,
    ;
}

} // verus!
