use vstd::prelude::*;
use vstd::arithmetic::power::lemma_pow_increases;
use vstd::arithmetic::power::lemma_pow_positive;
use vstd::arithmetic::power::pow;

use crate::positional::algorithms::Segment;
use crate::positional::algorithms::lemma_segment_in_octant;
use crate::positional::algorithms::lemma_segment_shape;
use crate::positional::algorithms::lemma_segment_symmetric;
use crate::positional::algorithms::segment_alt;
use crate::positional::algorithms::segment_tiles;
use crate::positional::algorithms::tile_in_octant;
use crate::positional::chebyshev;
use crate::positional::fits_i32;
use crate::positional::octant_offset;
use crate::positional::relative_of_octant;
use crate::positional::AbsolutePosition;
use crate::positional::InsideOctant;
use crate::positional::OctantRelative;
use crate::positional::RelativePosition;

verus! {

#[derive(Debug, Clone, Copy)]
pub struct TrieNodeIndex(pub usize);

#[derive(Debug)]
pub struct TrieNode {
    pub tile: InsideOctant,
    pub generator: InsideOctant,
    pub diag: Option<TrieNodeIndex>,
    pub run: Option<TrieNodeIndex>,
}

impl TrieNode {
    pub fn new(tile: InsideOctant, generator: InsideOctant) -> (r: Self)
        ensures
            r.tile == tile,
            r.generator == generator,
            r.diag is None,
            r.run is None,
    {
        Self { tile, generator, diag: None, run: None }
    }
}

/// Append only storage of the trie's nodes.
#[derive(Debug)]
pub struct NodeArena(pub Vec<TrieNode>);

impl NodeArena {
    // Append/emplace only.
    // Without removal, any TrieNodeIndex created by the arena will always be valid.
    pub fn emplace(&mut self, node: TrieNode) -> (r: TrieNodeIndex)
        ensures
            final(self).0@ == old(self).0@.push(node),
            r.0 == old(self).0@.len(),
    {
        self.0.push(node);
        TrieNodeIndex(self.0.len() - 1)
    }
}

pub open spec fn origin() -> InsideOctant {
    InsideOctant { rise: 0, run: 0 }
}

/// The tile one step further along the run, and one step up.
pub open spec fn run_step(t: InsideOctant) -> InsideOctant {
    InsideOctant { rise: t.rise, run: (t.run + 1) as u32 }
}

pub open spec fn diag_step(t: InsideOctant) -> InsideOctant {
    InsideOctant { rise: (t.rise + 1) as u32, run: (t.run + 1) as u32 }
}

/// Whether `tiles[start..]` continues the path of a segment from `from`: each tile one run
/// further, and at most one rise higher.
pub open spec fn continues(from: InsideOctant, tiles: Seq<InsideOctant>, start: int) -> bool {
    &&& 0 <= start <= tiles.len()
    &&& forall|k: int|
        start <= k < tiles.len() ==> {
            let prev = if k == start { from } else { tiles[k - 1] };
            #[trigger] tiles[k] == run_step(prev) || tiles[k] == diag_step(prev)
        }
}

/// A precomputed trie of all segments from the origin, in one octant.
/// Strict: a tile is seen only along a segment that ends on it.
#[derive(Debug)]
pub struct StrictFOV {
    radius: u32,
    nodes: NodeArena,
}

/// Radii for which every segment can be computed without overflow.
pub open spec fn radius_supported(radius: int) -> bool {
    0 <= radius && radius * (2 * radius + 1) <= u32::MAX
}

/// The conditions on one node of the trie.
pub open spec fn node_ok(nodes: Seq<TrieNode>, i: int, radius: int) -> bool {
    let n = nodes[i];
    &&& n.tile.rise <= n.tile.run <= radius
    &&& n.tile.run <= n.generator.run <= radius
    &&& n.generator.rise <= n.generator.run
    &&& (n.diag matches Some(c) ==> i < c.0 < nodes.len() && nodes[c.0 as int].tile == diag_step(
        n.tile,
    ) && n.generator.run <= nodes[c.0 as int].generator.run)
    &&& (n.run matches Some(c) ==> i < c.0 < nodes.len() && nodes[c.0 as int].tile == run_step(
        n.tile,
    ) && n.generator.run <= nodes[c.0 as int].generator.run)
}

/// Whether node `c` hangs from node `p`.
pub open spec fn child_of(nodes: Seq<TrieNode>, p: int, c: int) -> bool {
    ||| nodes[p].diag matches Some(x) && x.0 == c
    ||| nodes[p].run matches Some(x) && x.0 == c
}

/// No node hangs from two nodes.
pub open spec fn parents_unique(nodes: Seq<TrieNode>) -> bool {
    forall|p: int, q: int, c: int|
        0 <= p < nodes.len() && 0 <= q < nodes.len() && #[trigger] child_of(nodes, p, c) && #[trigger] child_of(
            nodes,
            q,
            c,
        ) ==> p == q
}

/// The trie is rooted at the origin, every child is one step further than its parent,
/// stored after it, and first reached by a segment no shorter than the parent's; no node
/// has two parents.
pub open spec fn nodes_wf(nodes: Seq<TrieNode>, radius: int) -> bool {
    &&& nodes.len() > 0
    &&& nodes[0].tile == origin()
    &&& nodes[0].generator == origin()
    &&& forall|i: int| 0 <= i < nodes.len() ==> #[trigger] node_ok(nodes, i, radius)
    &&& parents_unique(nodes)
}

/// The offset that a tile of the octant stands for, turned into `octant`.
pub open spec fn turned(t: InsideOctant, octant: u8) -> RelativePosition {
    let o = octant_offset(OctantRelative { run: t.run, rise: t.rise, octant });
    RelativePosition { dx: o.0 as i32, dy: o.1 as i32 }
}

/// The node that node `c` hangs from.
pub open spec fn parent_of(nodes: Seq<TrieNode>, c: int) -> int {
    choose|p: int| 0 <= p < nodes.len() && #[trigger] child_of(nodes, p, c)
}

/// Whether the walk of the trie turned into `octant` gets to node `c`: every node above it
/// was made by a segment within `radius`, and `opens` lets vision through its tile.
pub open spec fn reached(
    nodes: Seq<TrieNode>,
    radius: int,
    octant: u8,
    opens: spec_fn(RelativePosition) -> bool,
    c: int,
) -> bool
    decreases c,
{
    if c <= 0 {
        c == 0
    } else {
        let p = parent_of(nodes, c);
        if 0 <= p < c && child_of(nodes, p, c) {
            &&& nodes[p].generator.run <= radius
            &&& opens(turned(nodes[p].tile, octant))
            &&& reached(nodes, radius, octant, opens, p)
        } else {
            false
        }
    }
}

/// Whether the walk turned into `octant` shows the tile of node `i`: it gets there, and the
/// node ends the segment that made it, within `radius`.
pub open spec fn shown(
    nodes: Seq<TrieNode>,
    radius: int,
    octant: u8,
    opens: spec_fn(RelativePosition) -> bool,
    i: int,
) -> bool {
    &&& 0 <= i < nodes.len()
    &&& reached(nodes, radius, octant, opens, i)
    &&& nodes[i].generator.run <= radius
    &&& nodes[i].generator == nodes[i].tile
}

/// Whether the walk in one of the eight octants shows the offset `p`.
pub open spec fn visible(
    nodes: Seq<TrieNode>,
    radius: int,
    opens: spec_fn(RelativePosition) -> bool,
    p: RelativePosition,
) -> bool {
    exists|o: u8, i: int| o < 8 && #[trigger] shown(nodes, radius, o, opens, i) && p == turned(nodes[i].tile, o)
}

/// The offsets for which a call of `f` can answer that they do not block vision.
pub open spec fn clear_by<F: Fn(RelativePosition) -> bool>(f: F) -> spec_fn(RelativePosition) -> bool {
    |q: RelativePosition| f.ensures((q,), false)
}

/// The offsets for which no call of `f` can answer that they block vision.
pub open spec fn not_blocked_by<F: Fn(RelativePosition) -> bool>(f: F) -> spec_fn(RelativePosition) -> bool {
    |q: RelativePosition| !f.ensures((q,), true)
}

/// Whether node `i` ends the segment that made it, within `radius`.
pub open spec fn ends_within(nodes: Seq<TrieNode>, radius: int, i: int) -> bool {
    nodes[i].generator.run <= radius && nodes[i].generator == nodes[i].tile
}

/// The nodes that hang from `node`: the diagonal step first, then the run step.
pub open spec fn children(node: TrieNode) -> Seq<TrieNodeIndex> {
    (match node.diag {
        Some(d) => seq![d],
        None => Seq::empty(),
    }) + (match node.run {
        Some(r) => seq![r],
        None => Seq::empty(),
    })
}

/// The state of a walk of the trie in `octant`: the nodes taken so far and the nodes still to
/// take. Every node taken or to take is reached through offsets that `clear` lets through and
/// hangs from a node taken (but the root); none is both taken and to take, or to take twice; and
/// every node reached through offsets that `open` lets through, whose parent was taken, is
/// taken or to take.
pub open spec fn walk_ok(
    nodes: Seq<TrieNode>,
    radius: int,
    octant: u8,
    clear: spec_fn(RelativePosition) -> bool,
    open: spec_fn(RelativePosition) -> bool,
    done: Set<int>,
    frontier: Seq<TrieNodeIndex>,
) -> bool {
    &&& forall|x: int| #[trigger]
        done.contains(x) ==> 0 <= x < nodes.len() && reached(nodes, radius, octant, clear, x) && (x == 0
            || done.contains(parent_of(nodes, x)))
    &&& forall|k: int|
        0 <= k < frontier.len() ==> {
            let x = (#[trigger] frontier[k]).0 as int;
            &&& x < nodes.len()
            &&& reached(nodes, radius, octant, clear, x)
            &&& !done.contains(x)
            &&& (x == 0 || done.contains(parent_of(nodes, x)))
        }
    &&& forall|a: int, b: int| 0 <= a < b < frontier.len() ==> (#[trigger] frontier[a]).0 != (#[trigger] frontier[b]).0
    &&& forall|x: int|
        0 < x < nodes.len() && #[trigger] reached(nodes, radius, octant, open, x) && done.contains(parent_of(nodes, x))
            && !done.contains(x) ==> exists|k: int| 0 <= k < frontier.len() && #[trigger] frontier[k].0 == x
}

/// Taking the last node to take keeps the walk in shape, whether its children are put to take
/// or not; they are not only where `open` does not let vision through the node or it is beyond
/// `radius`.
proof fn lemma_walk_next(
    nodes: Seq<TrieNode>,
    bound: int,
    radius: int,
    octant: u8,
    clear: spec_fn(RelativePosition) -> bool,
    open: spec_fn(RelativePosition) -> bool,
    done: Set<int>,
    before: Seq<TrieNodeIndex>,
    after: Seq<TrieNodeIndex>,
    pushed: bool,
)
    requires
        nodes_wf(nodes, bound),
        bound <= 46340,
        walk_ok(nodes, radius, octant, clear, open, done, before),
        before.len() > 0,
        pushed ==> after == before.drop_last() + children(nodes[before.last().0 as int]),
        !pushed ==> after == before.drop_last(),
        pushed ==> nodes[before.last().0 as int].generator.run <= radius && clear(
            turned(nodes[before.last().0 as int].tile, octant),
        ),
        !pushed ==> nodes[before.last().0 as int].generator.run > radius || !open(
            turned(nodes[before.last().0 as int].tile, octant),
        ),
    ensures
        walk_ok(nodes, radius, octant, clear, open, done.insert(before.last().0 as int), after),
{
    let cur = before.last().0 as int;
    let node = nodes[cur];
    let rest = before.drop_last();
    let done2 = done.insert(cur);
    assert(before[before.len() - 1] == before.last());
    assert(node_ok(nodes, cur, bound));
    assert(!done.contains(cur));
    assert forall|k: int| 0 <= k < rest.len() implies #[trigger] rest[k] == before[k] by {}
    let kids = children(node);
    assert forall|k: int| 0 <= k < kids.len() implies child_of(nodes, cur, (#[trigger] kids[k]).0 as int) by {
        if node.diag is Some && k == 0 {
        } else if node.diag is Some {
            assert(kids[k] == node.run->0);
        } else {
            assert(kids[k] == node.run->0);
        }
    }
    assert forall|k: int| 0 <= k < kids.len() implies {
        let c = (#[trigger] kids[k]).0 as int;
        &&& parent_of(nodes, c) == cur
        &&& cur < c < nodes.len()
    } by {
        lemma_parent(nodes, bound, cur, kids[k].0 as int);
    }
    assert(kids.len() == 2 ==> kids[0].0 != kids[1].0) by {
        if kids.len() == 2 {
            assert(kids[0] == node.diag->0);
            assert(kids[1] == node.run->0);
            assert(nodes[kids[0].0 as int].tile == diag_step(node.tile));
            assert(nodes[kids[1].0 as int].tile == run_step(node.tile));
        }
    }
    // Taken nodes.
    assert forall|x: int| #[trigger] done2.contains(x) implies 0 <= x < nodes.len() && reached(
        nodes,
        radius,
        octant,
        clear,
        x,
    ) && (x == 0 || done2.contains(parent_of(nodes, x))) by {
        if x == cur {
            assert(before[before.len() - 1].0 == cur);
        }
    }
    // Nodes to take.
    assert forall|k: int| 0 <= k < after.len() implies {
        let x = (#[trigger] after[k]).0 as int;
        &&& x < nodes.len()
        &&& reached(nodes, radius, octant, clear, x)
        &&& !done2.contains(x)
        &&& (x == 0 || done2.contains(parent_of(nodes, x)))
    } by {
        let x = after[k].0 as int;
        if k < rest.len() {
            assert(after[k] == rest[k]);
            assert(before[k].0 != before[before.len() - 1].0);
        } else {
            let j = k - rest.len();
            assert(after[k] == kids[j]);
            assert(parent_of(nodes, x) == cur);
            assert(reached(nodes, radius, octant, clear, x));
            if done.contains(x) {
                assert(done.contains(parent_of(nodes, x)));
            }
        }
    }
    assert forall|a: int, b: int| 0 <= a < b < after.len() implies (#[trigger] after[a]).0 != (#[trigger] after[b]).0 by {
        if b < rest.len() {
            assert(after[a] == before[a] && after[b] == before[b]);
        } else if a < rest.len() {
            let y = after[a].0 as int;
            assert(after[a] == before[a]);
            assert(after[b] == kids[b - rest.len()]);
            if y == after[b].0 as int {
                assert(y != 0);
                assert(done.contains(parent_of(nodes, y)));
            }
        } else {
            assert(after[a] == kids[a - rest.len()]);
            assert(after[b] == kids[b - rest.len()]);
        }
    }
    assert forall|x: int|
        0 < x < nodes.len() && #[trigger] reached(nodes, radius, octant, open, x) && done2.contains(parent_of(nodes, x))
            && !done2.contains(x) implies exists|k: int| 0 <= k < after.len() && #[trigger] after[k].0 == x by {
        let p = parent_of(nodes, x);
        if p == cur {
            assert(child_of(nodes, cur, x));
            assert(pushed);
            if node.diag matches Some(d) && d.0 == x {
                assert(after[rest.len() as int] == kids[0]);
                assert(after[rest.len() as int].0 == x);
            } else {
                let j = kids.len() - 1;
                assert(kids[j] == node.run->0);
                assert(after[rest.len() + j] == kids[j]);
                assert(after[rest.len() + j].0 == x);
            }
        } else {
            let k = choose|k: int| 0 <= k < before.len() && #[trigger] before[k].0 == x;
            assert(k != before.len() - 1);
            assert(after[k] == before[k]);
        }
    }
}

/// Taking a node outputs its tile where it ends its segment within `radius`.
proof fn lemma_walk_output(
    nodes: Seq<TrieNode>,
    radius: int,
    octant: u8,
    done: Set<int>,
    cur: int,
    start_out: Seq<RelativePosition>,
    out0: Seq<RelativePosition>,
    out1: Seq<RelativePosition>,
)
    requires
        forall|p: RelativePosition| #[trigger]
            out0.contains(p) <==> (start_out.contains(p) || exists|i: int| #[trigger]
                done.contains(i) && ends_within(nodes, radius, i) && p == turned(nodes[i].tile, octant)),
        out1 == if ends_within(nodes, radius, cur) {
            out0.push(turned(nodes[cur].tile, octant))
        } else {
            out0
        },
    ensures
        forall|p: RelativePosition| #[trigger]
            out1.contains(p) <==> (start_out.contains(p) || exists|i: int| #[trigger]
                done.insert(cur).contains(i) && ends_within(nodes, radius, i) && p == turned(nodes[i].tile, octant)),
{
    let done2 = done.insert(cur);
    assert forall|p: RelativePosition| #[trigger]
        out1.contains(p) <==> (start_out.contains(p) || exists|i: int| #[trigger]
            done2.contains(i) && ends_within(nodes, radius, i) && p == turned(nodes[i].tile, octant)) by {
        if out1.contains(p) {
            let k = choose|k: int| 0 <= k < out1.len() && out1[k] == p;
            if k < out0.len() {
                assert(out1[k] == out0[k]);
                assert(out0.contains(p));
                if !start_out.contains(p) {
                    let i = choose|i: int| #[trigger]
                        done.contains(i) && ends_within(nodes, radius, i) && p == turned(nodes[i].tile, octant);
                    assert(done2.contains(i));
                }
            } else {
                assert(done2.contains(cur));
            }
        }
        if start_out.contains(p) {
            assert(out0.contains(p));
            let k = choose|k: int| 0 <= k < out0.len() && out0[k] == p;
            assert(out1[k] == out0[k]);
        } else if exists|i: int| #[trigger]
            done2.contains(i) && ends_within(nodes, radius, i) && p == turned(nodes[i].tile, octant) {
            let i = choose|i: int| #[trigger]
                done2.contains(i) && ends_within(nodes, radius, i) && p == turned(nodes[i].tile, octant);
            if i == cur {
                assert(out1[out0.len() as int] == p);
            } else {
                assert(done.contains(i));
                assert(out0.contains(p));
                let k = choose|k: int| 0 <= k < out0.len() && out0[k] == p;
                assert(out1[k] == out0[k]);
            }
        }
    }
}

/// After the walk in `octant`, the tiles output so far are those shown in the octants up
/// to it.
proof fn lemma_next_octant(
    nodes: Seq<TrieNode>,
    radius: int,
    octant: u8,
    clear: spec_fn(RelativePosition) -> bool,
    open: spec_fn(RelativePosition) -> bool,
    done: Set<int>,
    start_out: Seq<RelativePosition>,
    out: Seq<RelativePosition>,
)
    requires
        forall|p: RelativePosition| #[trigger]
            start_out.contains(p) ==> exists|o: u8, i: int|
                o < octant && #[trigger] shown(nodes, radius, o, clear, i) && p == turned(nodes[i].tile, o),
        forall|o: u8, i: int|
            o < octant && #[trigger] shown(nodes, radius, o, open, i) ==> start_out.contains(turned(nodes[i].tile, o)),
        forall|x: int| #[trigger] done.contains(x) ==> 0 <= x < nodes.len() && reached(nodes, radius, octant, clear, x),
        forall|x: int| 0 <= x < nodes.len() && #[trigger] reached(nodes, radius, octant, open, x) ==> done.contains(x),
        forall|p: RelativePosition| #[trigger]
            out.contains(p) <==> (start_out.contains(p) || exists|i: int| #[trigger]
                done.contains(i) && ends_within(nodes, radius, i) && p == turned(nodes[i].tile, octant)),
    ensures
        forall|p: RelativePosition| #[trigger]
            out.contains(p) ==> exists|o: u8, i: int|
                o < octant + 1 && #[trigger] shown(nodes, radius, o, clear, i) && p == turned(nodes[i].tile, o),
        forall|o: u8, i: int|
            o < octant + 1 && #[trigger] shown(nodes, radius, o, open, i) ==> out.contains(turned(nodes[i].tile, o)),
{
    assert forall|p: RelativePosition| #[trigger] out.contains(p) implies exists|o: u8, i: int|
        o < octant + 1 && #[trigger] shown(nodes, radius, o, clear, i) && p == turned(nodes[i].tile, o) by {
        if start_out.contains(p) {
            let (o, i) = choose|o: u8, i: int|
                o < octant && #[trigger] shown(nodes, radius, o, clear, i) && p == turned(nodes[i].tile, o);
            assert(shown(nodes, radius, o, clear, i));
        } else {
            let i = choose|i: int| #[trigger]
                done.contains(i) && ends_within(nodes, radius, i) && p == turned(nodes[i].tile, octant);
            assert(shown(nodes, radius, octant, clear, i));
        }
    }
    assert forall|o: u8, i: int| o < octant + 1 && #[trigger] shown(nodes, radius, o, open, i) implies out.contains(
        turned(nodes[i].tile, o),
    ) by {
        if o < octant {
            assert(start_out.contains(turned(nodes[i].tile, o)));
        } else {
            assert(done.contains(i));
        }
    }
}

/// The offsets from `center` whose tile a call of `f` can answer does not block vision.
pub open spec fn clear_from<F: Fn(AbsolutePosition) -> bool>(f: F, center: AbsolutePosition) -> spec_fn(
    RelativePosition,
) -> bool {
    |q: RelativePosition| shift_fits(center, q) && f.ensures((offset_by(center, q),), false)
}

/// The offsets from `center` whose tile no call of `f` can answer blocks vision.
pub open spec fn open_from<F: Fn(AbsolutePosition) -> bool>(f: F, center: AbsolutePosition) -> spec_fn(
    RelativePosition,
) -> bool {
    |q: RelativePosition| shift_fits(center, q) && !f.ensures((offset_by(center, q),), true)
}

/// Where vision passes wherever it passes for another, everything in sight for the other is
/// in sight.
pub proof fn lemma_in_sight_monotone(
    radius: int,
    narrow: spec_fn(RelativePosition) -> bool,
    wide: spec_fn(RelativePosition) -> bool,
    p: RelativePosition,
)
    requires
        forall|q: RelativePosition| #[trigger] narrow(q) ==> wide(q),
        in_sight(radius, narrow, p),
    ensures
        in_sight(radius, wide, p),
{
    let (o, t, s) = choose|o: u8, t: InsideOctant, s: Seq<InsideOctant>|
        #![trigger is_segment(t, s), turned(t, o)]
        o < 8 && t.rise <= t.run <= radius && is_segment(t, s) && see_along(s, o, narrow) && p == turned(t, o);
    assert forall|k: int| 0 <= k < s.len() - 1 implies #[trigger] wide(turned(s[k], o)) by {
        assert(narrow(turned(s[k], o)));
    }
    assert(see_along(s, o, wide));
}

/// The tiles from the root of the trie down to node `i`.
pub open spec fn path_of(nodes: Seq<TrieNode>, i: int) -> Seq<InsideOctant>
    decreases i,
{
    if i <= 0 {
        seq![nodes[0].tile]
    } else {
        let p = parent_of(nodes, i);
        if 0 <= p < i && child_of(nodes, p, i) {
            path_of(nodes, p).push(nodes[i].tile)
        } else {
            Seq::empty()
        }
    }
}

/// Whether `s` is a segment from the origin to `g`: the one `Segment::calculate` gives, or
/// its alternative.
pub open spec fn is_segment(g: InsideOctant, s: Seq<InsideOctant>) -> bool {
    s == segment_tiles(g) || segment_alt(g) == Some(s)
}

/// Whether `s` is how a segment from the origin to `g` starts.
pub open spec fn starts_segment(g: InsideOctant, s: Seq<InsideOctant>) -> bool {
    ||| s.len() <= segment_tiles(g).len() && s == segment_tiles(g).subrange(0, s.len() as int)
    ||| segment_alt(g) matches Some(alt) && s.len() <= alt.len() && s == alt.subrange(0, s.len() as int)
}

/// Whether node `j` hangs from a node stored before it.
pub open spec fn has_parent(nodes: Seq<TrieNode>, j: int) -> bool {
    exists|p: int| 0 <= p < j && #[trigger] child_of(nodes, p, j)
}

/// What the trie holds: every node but the root hangs from a node, and the tiles down to a
/// node start a segment to the node's generator.
pub open spec fn trie_ok(nodes: Seq<TrieNode>) -> bool {
    &&& forall|j: int| 0 < j < nodes.len() ==> #[trigger] has_parent(nodes, j)
    &&& forall|j: int| 0 <= j < nodes.len() ==> starts_segment(nodes[j].generator, #[trigger] path_of(nodes, j))
}

/// Whether the trie holds every segment to `g`, down to a node that `g` made.
pub open spec fn holds(nodes: Seq<TrieNode>, g: InsideOctant) -> bool {
    forall|s: Seq<InsideOctant>| #[trigger]
        is_segment(g, s) ==> exists|j: int| 0 <= j < nodes.len() && #[trigger] path_of(nodes, j) == s && nodes[j].generator == g
}

/// Whether vision passes, in `octant`, everywhere along `s` before its last tile.
pub open spec fn see_along(s: Seq<InsideOctant>, octant: u8, opens: spec_fn(RelativePosition) -> bool) -> bool {
    forall|k: int| 0 <= k < s.len() - 1 ==> #[trigger] opens(turned(s[k], octant))
}

/// Whether the offset `p` is in sight within `radius`: a segment from the origin to a tile
/// within `radius`, turned into one of the eight octants, ends on `p`, and vision passes
/// everywhere along it before its end.
pub open spec fn in_sight(radius: int, opens: spec_fn(RelativePosition) -> bool, p: RelativePosition) -> bool {
    exists|o: u8, t: InsideOctant, s: Seq<InsideOctant>|
        #![trigger is_segment(t, s), turned(t, o)]
        o < 8 && t.rise <= t.run <= radius && is_segment(t, s) && see_along(s, o, opens) && p == turned(t, o)
}

/// A segment to `g`, and its alternative, run from the origin to `g`, one run per tile.
proof fn lemma_segment_ends(g: InsideOctant, s: Seq<InsideOctant>)
    requires
        g.rise <= g.run,
        is_segment(g, s),
    ensures
        s.len() == g.run + 1,
        s[0] == origin(),
        s[g.run as int] == g,
{
    lemma_segment_shape(g);
    if s != segment_tiles(g) {
        let t = segment_tiles(g);
        let mid = t.len() / 2;
        assert(g.rise % 2 != 0 && g.run % 2 == 0);
        assert(0 < mid < g.run);
        assert(s[0] == t[0]);
        assert(s[g.run as int] == t[g.run as int]);
    }
}

/// The tiles down to a node run from the origin to its tile, one run per tile.
proof fn lemma_path_shape(nodes: Seq<TrieNode>, radius: int, i: int)
    requires
        nodes_wf(nodes, radius),
        trie_ok(nodes),
        0 <= i < nodes.len(),
    ensures
        path_of(nodes, i).len() == nodes[i].tile.run + 1,
        path_of(nodes, i)[0] == origin(),
        path_of(nodes, i).last() == nodes[i].tile,
        i > 0 ==> path_of(nodes, i) == path_of(nodes, parent_of(nodes, i)).push(nodes[i].tile),
        i > 0 ==> 0 <= parent_of(nodes, i) < i && child_of(nodes, parent_of(nodes, i), i),
    decreases i,
{
    if i > 0 {
        assert(has_parent(nodes, i));
        let q = choose|q: int| 0 <= q < i && #[trigger] child_of(nodes, q, i);
        lemma_parent(nodes, radius, q, i);
        let p = parent_of(nodes, i);
        lemma_path_shape(nodes, radius, p);
        assert(node_ok(nodes, p, radius));
        assert(path_of(nodes, i) == path_of(nodes, p).push(nodes[i].tile));
    }
}

/// The walk in `octant` gets to a node within `radius` exactly when vision passes along the
/// tiles down to it.
proof fn lemma_reached_path(
    nodes: Seq<TrieNode>,
    bound: int,
    radius: int,
    octant: u8,
    opens: spec_fn(RelativePosition) -> bool,
    i: int,
)
    requires
        nodes_wf(nodes, bound),
        trie_ok(nodes),
        0 <= i < nodes.len(),
        nodes[i].generator.run <= radius,
    ensures
        reached(nodes, radius, octant, opens, i) <==> see_along(path_of(nodes, i), octant, opens),
    decreases i,
{
    lemma_path_shape(nodes, bound, i);
    if i > 0 {
        let p = parent_of(nodes, i);
        assert(node_ok(nodes, p, bound));
        lemma_path_shape(nodes, bound, p);
        lemma_reached_path(nodes, bound, radius, octant, opens, p);
        let sp = path_of(nodes, p);
        let si = path_of(nodes, i);
        assert(si == sp.push(nodes[i].tile));
        assert(sp.last() == nodes[p].tile);
        if see_along(si, octant, opens) {
            assert forall|k: int| 0 <= k < sp.len() - 1 implies #[trigger] opens(turned(sp[k], octant)) by {
                assert(si[k] == sp[k]);
            }
            assert(si[sp.len() - 1] == sp[sp.len() - 1]);
        }
        if reached(nodes, radius, octant, opens, i) {
            assert forall|k: int| 0 <= k < si.len() - 1 implies #[trigger] opens(turned(si[k], octant)) by {
                if k < sp.len() - 1 {
                    assert(si[k] == sp[k]);
                } else {
                    assert(si[k] == sp.last());
                }
            }
        }
    } else {
        assert(path_of(nodes, 0).len() == 1);
    }
}

/// In a trie that holds every segment within `bound`, a walk shows exactly the offsets in
/// sight.
proof fn lemma_visible_in_sight(
    nodes: Seq<TrieNode>,
    bound: int,
    radius: int,
    opens: spec_fn(RelativePosition) -> bool,
    p: RelativePosition,
)
    requires
        nodes_wf(nodes, bound),
        trie_ok(nodes),
        radius <= bound,
        forall|g: InsideOctant| g.rise <= g.run <= bound ==> #[trigger] holds(nodes, g),
    ensures
        visible(nodes, radius, opens, p) <==> in_sight(radius, opens, p),
{
    if visible(nodes, radius, opens, p) {
        let (o, i) = choose|o: u8, i: int| o < 8 && #[trigger] shown(nodes, radius, o, opens, i) && p == turned(nodes[i].tile, o);
        let t = nodes[i].tile;
        let s = path_of(nodes, i);
        assert(node_ok(nodes, i, bound));
        lemma_path_shape(nodes, bound, i);
        lemma_reached_path(nodes, bound, radius, o, opens, i);
        lemma_segment_shape(t);
        assert(starts_segment(t, s));
        if s.len() <= segment_tiles(t).len() && s == segment_tiles(t).subrange(0, s.len() as int) {
            assert(s =~= segment_tiles(t));
        } else {
            let alt = segment_alt(t)->0;
            assert(s =~= alt);
        }
        assert(is_segment(t, s));
    }
    if in_sight(radius, opens, p) {
        let (o, t, s) = choose|o: u8, t: InsideOctant, s: Seq<InsideOctant>|
            #![trigger is_segment(t, s), turned(t, o)]
            o < 8 && t.rise <= t.run <= radius && is_segment(t, s) && see_along(s, o, opens) && p == turned(t, o);
        assert(holds(nodes, t));
        let j = choose|j: int| 0 <= j < nodes.len() && #[trigger] path_of(nodes, j) == s && nodes[j].generator == t;
        lemma_path_shape(nodes, bound, j);
        lemma_segment_ends(t, s);
        assert(nodes[j].tile == t);
        lemma_reached_path(nodes, bound, radius, o, opens, j);
        assert(shown(nodes, radius, o, opens, j));
    }
}

/// Whether `after` keeps every node of `before`, with its tile, its generator and its
/// children, and only adds nodes or children.
pub open spec fn grows(before: Seq<TrieNode>, after: Seq<TrieNode>) -> bool {
    &&& before.len() <= after.len()
    &&& forall|j: int|
        0 <= j < before.len() ==> {
            &&& (#[trigger] after[j]).tile == before[j].tile
            &&& after[j].generator == before[j].generator
            &&& (before[j].diag is Some ==> after[j].diag == before[j].diag)
            &&& (before[j].run is Some ==> after[j].run == before[j].run)
        }
}

/// Growing the trie keeps the tiles down to every node it had.
proof fn lemma_grows_paths(before: Seq<TrieNode>, after: Seq<TrieNode>, radius: int, j: int)
    requires
        nodes_wf(before, radius),
        trie_ok(before),
        nodes_wf(after, radius),
        grows(before, after),
        0 <= j < before.len(),
    ensures
        path_of(after, j) == path_of(before, j),
    decreases j,
{
    assert(after[j].tile == before[j].tile);
    if j > 0 {
        lemma_path_shape(before, radius, j);
        let p = parent_of(before, j);
        assert(after[p].tile == before[p].tile);
        assert(child_of(after, p, j));
        lemma_parent(after, radius, p, j);
        lemma_grows_paths(before, after, radius, p);
    } else {
        assert(after[0].tile == before[0].tile);
    }
}

/// Growing the trie keeps every segment it held.
proof fn lemma_holds_grows(before: Seq<TrieNode>, after: Seq<TrieNode>, radius: int, g: InsideOctant)
    requires
        nodes_wf(before, radius),
        trie_ok(before),
        nodes_wf(after, radius),
        grows(before, after),
        holds(before, g),
    ensures
        holds(after, g),
{
    assert forall|s: Seq<InsideOctant>| #[trigger] is_segment(g, s) implies exists|j: int|
        0 <= j < after.len() && #[trigger] path_of(after, j) == s && after[j].generator == g by {
        let j = choose|j: int| 0 <= j < before.len() && #[trigger] path_of(before, j) == s && before[j].generator == g;
        lemma_grows_paths(before, after, radius, j);
        assert(after[j].generator == before[j].generator);
    }
}

/// While the trie grows to `radius`, a node down a whole segment to a tile `g` at `radius`
/// was made by `g`: its generator `h`, no further than `radius`, has a segment that starts
/// with it.
proof fn lemma_gen_of_whole(h: InsideOctant, g: InsideOctant, tiles: Seq<InsideOctant>, radius: int)
    requires
        h.rise <= h.run <= radius,
        g.rise <= g.run == radius,
        is_segment(g, tiles),
        starts_segment(h, tiles),
    ensures
        h == g,
{
    lemma_segment_ends(g, tiles);
    let a = segment_tiles(h);
    lemma_segment_ends(h, a);
    if tiles.len() <= a.len() && tiles == a.subrange(0, tiles.len() as int) {
        lemma_whole_prefix(tiles, a, g.run as int);
    } else {
        let alt = segment_alt(h)->0;
        lemma_segment_ends(h, alt);
        lemma_whole_prefix(tiles, alt, g.run as int);
    }
}

/// A prefix of `whole` as long as it ends where `whole` does.
proof fn lemma_whole_prefix(part: Seq<InsideOctant>, whole: Seq<InsideOctant>, last: int)
    requires
        0 <= last,
        part.len() == last + 1,
        part.len() <= whole.len(),
        part == whole.subrange(0, part.len() as int),
    ensures
        part[last] == whole[last],
{
    assert(part[last] == whole.subrange(0, part.len() as int)[last]);
}

/// Hanging a new node made by `g` from node `cur`, down the next tile of a segment to `g`,
/// keeps what the trie holds and grows it.
proof fn lemma_trie_add(
    nodes: Seq<TrieNode>,
    radius: int,
    cur: int,
    node: TrieNode,
    diag: bool,
    g: InsideOctant,
    tiles: Seq<InsideOctant>,
    k: int,
    child: usize,
)
    requires
        nodes_wf(nodes, radius),
        trie_ok(nodes),
        child == nodes.len(),
        0 <= cur < nodes.len(),
        node.diag is None,
        node.run is None,
        node.generator == g,
        is_segment(g, tiles),
        0 < k < tiles.len(),
        node.tile == tiles[k],
        path_of(nodes, cur) == tiles.subrange(0, k),
        diag ==> nodes[cur].diag is None,
        !diag ==> nodes[cur].run is None,
        nodes_wf(
            nodes.push(node).update(
                cur,
                TrieNode {
                    diag: if diag { Some(TrieNodeIndex(child)) } else { nodes[cur].diag },
                    run: if diag { nodes[cur].run } else { Some(TrieNodeIndex(child)) },
                    ..nodes[cur]
                },
            ),
            radius,
        ),
    ensures
        ({
            let after = nodes.push(node).update(
                cur,
                TrieNode {
                    diag: if diag { Some(TrieNodeIndex(child)) } else { nodes[cur].diag },
                    run: if diag { nodes[cur].run } else { Some(TrieNodeIndex(child)) },
                    ..nodes[cur]
                },
            );
            &&& grows(nodes, after)
            &&& trie_ok(after)
            &&& path_of(after, nodes.len() as int) == tiles.subrange(0, k + 1)
        }),
{
    let n = nodes.len() as int;
    let after = nodes.push(node).update(
        cur,
        TrieNode {
            diag: if diag { Some(TrieNodeIndex(child)) } else { nodes[cur].diag },
            run: if diag { nodes[cur].run } else { Some(TrieNodeIndex(child)) },
            ..nodes[cur]
        },
    );
    assert forall|j: int| 0 <= j < n implies (#[trigger] after[j]).tile == nodes[j].tile && after[j].generator
        == nodes[j].generator && (nodes[j].diag is Some ==> after[j].diag == nodes[j].diag) && (nodes[j].run is Some
        ==> after[j].run == nodes[j].run) by {
        if j != cur {
            assert(after[j] == nodes[j]);
        }
    }
    assert(grows(nodes, after));
    assert(child_of(after, cur, n));
    assert forall|j: int| 0 < j < after.len() implies #[trigger] has_parent(after, j) by {
        if j < n {
            assert(has_parent(nodes, j));
            let p = choose|p: int| 0 <= p < j && #[trigger] child_of(nodes, p, j);
            assert(child_of(after, p, j));
        } else {
            assert(child_of(after, cur, j));
        }
    }
    assert forall|j: int| 0 <= j < n implies #[trigger] path_of(after, j) == path_of(nodes, j) by {
        lemma_grows_paths(nodes, after, radius, j);
    }
    lemma_parent(after, radius, cur, n);
    assert(path_of(after, n) == path_of(after, cur).push(node.tile));
    assert(path_of(after, n) =~= tiles.subrange(0, k + 1));
    assert forall|j: int| 0 <= j < after.len() implies starts_segment(after[j].generator, #[trigger] path_of(after, j)) by {
        if j < n {
            assert(path_of(after, j) == path_of(nodes, j));
            assert(starts_segment(nodes[j].generator, path_of(nodes, j)));
        } else {
            let pre = tiles.subrange(0, k + 1);
            assert(after[j].generator == g);
            if tiles == segment_tiles(g) {
                assert(pre =~= segment_tiles(g).subrange(0, pre.len() as int));
            } else {
                let alt = segment_alt(g)->0;
                assert(pre =~= alt.subrange(0, pre.len() as int));
            }
        }
    }
}

/// Growing twice is growing.
proof fn lemma_grows_trans(a: Seq<TrieNode>, b: Seq<TrieNode>, c: Seq<TrieNode>)
    requires
        grows(a, b),
        grows(b, c),
    ensures
        grows(a, c),
{
    assert forall|j: int| 0 <= j < a.len() implies {
        &&& (#[trigger] c[j]).tile == a[j].tile
        &&& c[j].generator == a[j].generator
        &&& (a[j].diag is Some ==> c[j].diag == a[j].diag)
        &&& (a[j].run is Some ==> c[j].run == a[j].run)
    } by {
        assert(b[j].tile == a[j].tile);
        assert(c[j].tile == b[j].tile);
    }
}

/// After both segments to `g` went into the trie, it holds `g` too, and still every tile
/// it held.
proof fn lemma_radius_step(ns0: Seq<TrieNode>, ns1: Seq<TrieNode>, ns2: Seq<TrieNode>, radius: int, g: InsideOctant)
    requires
        nodes_wf(ns0, radius),
        trie_ok(ns0),
        nodes_wf(ns1, radius),
        trie_ok(ns1),
        nodes_wf(ns2, radius),
        grows(ns0, ns1),
        grows(ns1, ns2),
        g.rise <= g.run,
        exists|j: int| 0 <= j < ns1.len() && path_of(ns1, j) == segment_tiles(g) && ns1[j].generator == g,
        segment_alt(g) matches Some(b) ==> exists|j: int|
            0 <= j < ns2.len() && path_of(ns2, j) == b && ns2[j].generator == g,
        forall|h: InsideOctant|
            h.rise <= h.run && (h.run < g.run || (h.run == g.run && h.rise < g.rise)) ==> #[trigger] holds(ns0, h),
    ensures
        forall|h: InsideOctant|
            h.rise <= h.run && (h.run < g.run || (h.run == g.run && h.rise < g.rise + 1)) ==> #[trigger] holds(ns2, h),
{
    let j1 = choose|j: int| 0 <= j < ns1.len() && path_of(ns1, j) == segment_tiles(g) && ns1[j].generator == g;
    lemma_grows_paths(ns1, ns2, radius, j1);
    assert(ns2[j1].generator == ns1[j1].generator);
    assert forall|h: InsideOctant|
        h.rise <= h.run && (h.run < g.run || (h.run == g.run && h.rise < g.rise + 1)) implies #[trigger] holds(ns2, h) by {
        if h.run < g.run || (h.run == g.run && h.rise < g.rise) {
            lemma_holds_grows(ns0, ns1, radius, h);
            lemma_holds_grows(ns1, ns2, radius, h);
        } else {
            assert(h == g);
            assert forall|s: Seq<InsideOctant>| #[trigger] is_segment(h, s) implies exists|j: int|
                0 <= j < ns2.len() && #[trigger] path_of(ns2, j) == s && ns2[j].generator == h by {
                if s == segment_tiles(g) {
                    assert(path_of(ns2, j1) == s);
                } else {
                    let b = segment_alt(g)->0;
                    assert(s == b);
                }
            }
        }
    }
}

/// A node hangs from one node only, stored before it.
proof fn lemma_parent(nodes: Seq<TrieNode>, radius: int, p: int, c: int)
    requires
        nodes_wf(nodes, radius),
        0 <= p < nodes.len(),
        child_of(nodes, p, c),
    ensures
        parent_of(nodes, c) == p,
        p < c < nodes.len(),
{
    assert(node_ok(nodes, p, radius));
    let q = parent_of(nodes, c);
    assert(child_of(nodes, q, c));
}

/// A walk that gets through wherever another does gets everywhere the other gets.
proof fn lemma_reached_monotone(
    nodes: Seq<TrieNode>,
    radius: int,
    octant: u8,
    narrow: spec_fn(RelativePosition) -> bool,
    wide: spec_fn(RelativePosition) -> bool,
    c: int,
)
    requires
        forall|q: RelativePosition| #[trigger] narrow(q) ==> wide(q),
        reached(nodes, radius, octant, narrow, c),
    ensures
        reached(nodes, radius, octant, wide, c),
    decreases c,
{
    if c > 0 {
        lemma_reached_monotone(nodes, radius, octant, narrow, wide, parent_of(nodes, c));
    }
}

/// A walk that took every node whose parent it took, starting at the root, took every node
/// it gets to.
proof fn lemma_walk_complete(
    nodes: Seq<TrieNode>,
    radius: int,
    octant: u8,
    opens: spec_fn(RelativePosition) -> bool,
    done: Set<int>,
    x: int,
)
    requires
        done.contains(0),
        forall|y: int|
            0 < y < nodes.len() && #[trigger] reached(nodes, radius, octant, opens, y) && done.contains(
                parent_of(nodes, y),
            ) ==> done.contains(y),
        0 <= x < nodes.len(),
        reached(nodes, radius, octant, opens, x),
    ensures
        done.contains(x),
    decreases x,
{
    if x > 0 {
        lemma_walk_complete(nodes, radius, octant, opens, done, parent_of(nodes, x));
    }
}

proof fn lemma_radius_small(radius: int)
    requires
        radius_supported(radius),
    ensures
        radius <= 46340,
{
    if radius > 46340 {
        assert(radius * (2 * radius + 1) > u32::MAX) by (nonlinear_arith)
            requires
                radius > 46340,
        ;
    }
}

proof fn lemma_push_node(nodes: Seq<TrieNode>, radius: int, node: TrieNode)
    requires
        nodes_wf(nodes, radius),
        node.tile.rise <= node.tile.run <= node.generator.run <= radius,
        node.generator.rise <= node.generator.run,
        node.diag is None,
        node.run is None,
    ensures
        nodes_wf(nodes.push(node), radius),
        forall|j: int| 0 <= j < nodes.push(node).len() ==> !#[trigger] child_of(nodes.push(node), j, nodes.len() as int),
{
    let after = nodes.push(node);
    assert forall|i: int| 0 <= i < after.len() implies #[trigger] node_ok(after, i, radius) by {
        if i < nodes.len() {
            assert(node_ok(nodes, i, radius));
            assert(after[i] == nodes[i]);
        }
    }
    assert forall|j: int, c: int| 0 <= j < nodes.len() implies #[trigger] child_of(after, j, c) == child_of(nodes, j, c) by {
        assert(after[j] == nodes[j]);
    }
    assert forall|j: int| 0 <= j < after.len() implies !#[trigger] child_of(after, j, nodes.len() as int) by {
        if j < nodes.len() {
            assert(node_ok(nodes, j, radius));
        }
    }
}

proof fn lemma_set_child(nodes: Seq<TrieNode>, radius: int, i: int, child: usize, diag: bool)
    requires
        nodes_wf(nodes, radius),
        0 <= i < child < nodes.len(),
        diag ==> nodes[child as int].tile == diag_step(nodes[i].tile),
        !diag ==> nodes[child as int].tile == run_step(nodes[i].tile),
        nodes[i].generator.run <= nodes[child as int].generator.run,
        forall|j: int| 0 <= j < nodes.len() ==> !#[trigger] child_of(nodes, j, child as int),
    ensures
        nodes_wf(
            nodes.update(
                i,
                TrieNode {
                    diag: if diag { Some(TrieNodeIndex(child)) } else { nodes[i].diag },
                    run: if diag { nodes[i].run } else { Some(TrieNodeIndex(child)) },
                    ..nodes[i]
                },
            ),
            radius,
        ),
{
    let n = nodes[i];
    let new_node = TrieNode {
        diag: if diag { Some(TrieNodeIndex(child)) } else { n.diag },
        run: if diag { n.run } else { Some(TrieNodeIndex(child)) },
        ..n
    };
    let after = nodes.update(i, new_node);
    assert(after[i].tile == nodes[i].tile && after[i].generator == nodes[i].generator);
    assert(after[child as int] == nodes[child as int]);
    assert forall|p: int, q: int, c: int|
        0 <= p < after.len() && 0 <= q < after.len() && #[trigger] child_of(after, p, c) && #[trigger] child_of(
            after,
            q,
            c,
        ) implies p == q by {
        assert(after[p] == if p == i { new_node } else { nodes[p] });
        assert(after[q] == if q == i { new_node } else { nodes[q] });
        if p != i && q != i {
            assert(child_of(nodes, p, c) && child_of(nodes, q, c));
        } else if p == i && q != i {
            assert(child_of(nodes, q, c));
            assert(c != child as int);
            assert(child_of(nodes, i, c));
        } else if q == i && p != i {
            assert(child_of(nodes, p, c));
            assert(c != child as int);
            assert(child_of(nodes, i, c));
        }
    }
    assert forall|j: int| 0 <= j < after.len() implies #[trigger] node_ok(after, j, radius) by {
        assert(node_ok(nodes, j, radius));
        assert(node_ok(nodes, i, radius));
        if j == i {
            assert(after[j] == new_node);
            if let Some(c) = n.diag {
                assert(after[c.0 as int] == nodes[c.0 as int]);
            }
            if let Some(c) = n.run {
                assert(after[c.0 as int] == nodes[c.0 as int]);
            }
        } else {
            assert(after[j] == nodes[j]);
            if let Some(c) = nodes[j].diag {
                if c.0 as int != i {
                    assert(after[c.0 as int] == nodes[c.0 as int]);
                }
            }
            if let Some(c) = nodes[j].run {
                if c.0 as int != i {
                    assert(after[c.0 as int] == nodes[c.0 as int]);
                }
            }
        }
    }
}

impl StrictFOV {
    pub closed spec fn spec_radius(&self) -> int {
        self.radius as int
    }

    pub closed spec fn spec_nodes(&self) -> Seq<TrieNode> {
        self.nodes.0@
    }

    /// The trie is well formed and holds only starts of segments.
    closed spec fn shape_ok(&self) -> bool {
        &&& radius_supported(self.radius as int)
        &&& nodes_wf(self.nodes.0@, self.radius as int)
        &&& trie_ok(self.nodes.0@)
    }

    /// The trie holds every segment to a tile within its radius.
    pub closed spec fn wf(&self) -> bool {
        &&& self.shape_ok()
        &&& forall|g: InsideOctant| g.rise <= g.run <= self.radius ==> #[trigger] holds(self.nodes.0@, g)
    }

    #[must_use]
    pub fn new(radius: u32) -> (r: Self)
        requires
            radius_supported(radius as int),
        ensures
            r.wf(),
            r.spec_radius() == radius,
    {
        let mut partial = StrictFOV {
            radius: 0,
            nodes: NodeArena(
                vec![TrieNode::new(InsideOctant::new(0, 0), InsideOctant::new(0, 0))],
            ),
        };
        proof {
            let ns = partial.nodes.0@;
            assert(node_ok(ns, 0, 0));
            let o = origin();
            lemma_segment_ends(o, segment_tiles(o));
            assert(path_of(ns, 0) =~= segment_tiles(o).subrange(0, 1));
            assert(starts_segment(ns[0].generator, path_of(ns, 0)));
            assert forall|g: InsideOctant| g.rise <= g.run <= 0 implies #[trigger] holds(ns, g) by {
                assert(g == o);
                assert forall|s: Seq<InsideOctant>| #[trigger] is_segment(g, s) implies exists|j: int|
                    0 <= j < ns.len() && #[trigger] path_of(ns, j) == s && ns[j].generator == g by {
                    assert(segment_alt(g) is None);
                    assert(path_of(ns, 0) =~= s);
                }
            }
        }
        let mut i: u32 = 1;
        while i <= radius
            invariant
                1 <= i <= radius + 1,
                radius_supported(radius as int),
                partial.wf(),
                partial.radius == i - 1,
            decreases radius + 1 - i,
        {
            proof {
                assert(radius_supported(i as int)) by (nonlinear_arith)
                    requires
                        i <= radius,
                        radius * (2 * radius + 1) <= u32::MAX,
                        1 <= i,
                ;
            }
            partial.increase_radius();
            proof {
                lemma_radius_small(radius as int);
            }
            i += 1;
        }
        partial
    }

    pub fn increase_radius(&mut self)
        requires
            old(self).wf(),
            radius_supported(old(self).spec_radius() + 1),
        ensures
            final(self).wf(),
            final(self).spec_radius() == old(self).spec_radius() + 1,
    {
        proof {
            let nodes = self.nodes.0@;
            let r = self.radius as int;
            assert forall|i: int| 0 <= i < nodes.len() implies #[trigger] node_ok(nodes, i, r + 1) by {
                assert(node_ok(nodes, i, r));
            }
        }
        proof {
            lemma_radius_small(self.radius + 1);
        }
        self.radius += 1;
        let run = self.radius;
        let mut rise: u32 = 0;
        while rise <= run
            invariant
                self.shape_ok(),
                self.radius == run,
                run >= 1,
                radius_supported(run as int),
                rise <= run + 1,
                forall|g: InsideOctant|
                    g.rise <= g.run && (g.run < run || (g.run == run && g.rise < rise)) ==> #[trigger] holds(
                        self.nodes.0@,
                        g,
                    ),
            decreases run + 1 - rise,
        {
            let ghost ns0 = self.nodes.0@;
            let generator = InsideOctant::new(rise, run);
            proof {
                lemma_radius_small(run as int);
                assert(run * (2 * rise + 1) <= run * (2 * run + 1)) by (nonlinear_arith)
                    requires
                        rise <= run,
                ;
                lemma_segment_shape(generator);
                lemma_segment_in_octant(generator);
                lemma_alt_continues(generator);
            }
            let (a, b) = Segment::calculate(generator);
            proof {
                lemma_segment_ends(generator, a@);
                assert(path_of(self.nodes.0@, 0) =~= a@.subrange(0, 1));
            }
            // The first tile of each segment is the origin, the root of the trie.
            self.extend(TrieNodeIndex(0), generator, &a, 1);
            let ghost ns1 = self.nodes.0@;
            if let Some(b) = b {
                proof {
                    lemma_segment_ends(generator, b@);
                    assert(path_of(self.nodes.0@, 0) =~= b@.subrange(0, 1));
                }
                self.extend(TrieNodeIndex(0), generator, &b, 1);
            } else {
                proof {
                    lemma_grows_trans(ns0, ns1, ns1);
                    assert(grows(ns1, ns1));
                }
            }
            proof {
                lemma_radius_step(ns0, ns1, self.nodes.0@, run as int, generator);
            }
            rise += 1;
        }
    }

    /// Walks the trie from `index` along `tiles[start..]`, adding the nodes that are missing.
    fn extend(&mut self, index: TrieNodeIndex, generator: InsideOctant, tiles: &Vec<InsideOctant>, start: usize)
        requires
            old(self).shape_ok(),
            index.0 < old(self).spec_nodes().len(),
            generator.rise <= generator.run == old(self).spec_radius(),
            continues(old(self).spec_nodes()[index.0 as int].tile, tiles@, start as int),
            forall|k: int| 0 <= k < tiles.len() ==> (#[trigger] tiles@[k]).run <= generator.run,
            is_segment(generator, tiles@),
            path_of(old(self).spec_nodes(), index.0 as int) == tiles@.subrange(0, start as int),
        ensures
            final(self).shape_ok(),
            final(self).spec_radius() == old(self).spec_radius(),
            grows(old(self).spec_nodes(), final(self).spec_nodes()),
            exists|j: int|
                0 <= j < final(self).spec_nodes().len() && path_of(final(self).spec_nodes(), j) == tiles@
                    && final(self).spec_nodes()[j].generator == generator,
    {
        let ghost old_ns = self.nodes.0@;
        let mut cur = index;
        let mut k = start;
        while k < tiles.len()
            invariant
                self.shape_ok(),
                self.radius == generator.run,
                generator.rise <= generator.run,
                cur.0 < self.nodes.0@.len(),
                start <= k <= tiles.len(),
                continues(self.nodes.0@[cur.0 as int].tile, tiles@, k as int),
                forall|j: int| 0 <= j < tiles.len() ==> (#[trigger] tiles@[j]).run <= generator.run,
                is_segment(generator, tiles@),
                grows(old_ns, self.nodes.0@),
                path_of(self.nodes.0@, cur.0 as int) == tiles@.subrange(0, k as int),
            decreases tiles.len() - k,
        {
            let tile = tiles[k];
            let ghost ns = self.nodes.0@;
            proof {
                lemma_radius_small(self.radius as int);
                assert(node_ok(self.nodes.0@, cur.0 as int, self.radius as int));
                assert(tiles@[k as int] == tile);
                lemma_path_shape(ns, self.radius as int, cur.0 as int);
                assert(k > 0);
            }
            let current = self.nodes.0[cur.0].tile;
            let gen_run = self.nodes.0[cur.0].generator.run;
            if tile.run == current.run + 1 && tile.rise == current.rise {
                let subtree = match self.nodes.0[cur.0].run {
                    Some(subtree) => {
                        proof {
                            lemma_parent(ns, self.radius as int, cur.0 as int, subtree.0 as int);
                            lemma_path_shape(ns, self.radius as int, subtree.0 as int);
                            assert(path_of(ns, subtree.0 as int) =~= tiles@.subrange(0, k + 1));
                        }
                        subtree
                    },
                    None => {
                        let node = TrieNode::new(tile, generator);
                        proof {
                            lemma_push_node(self.nodes.0@, self.radius as int, node);
                        }
                        let subtree = self.nodes.emplace(node);
                        proof {
                            lemma_set_child(self.nodes.0@, self.radius as int, cur.0 as int, subtree.0, false);
                        }
                        self.set_child(cur, subtree, false);
                        proof {
                            assert(ns.push(node)[cur.0 as int] == ns[cur.0 as int]);
                            lemma_trie_add(ns, self.radius as int, cur.0 as int, node, false, generator, tiles@, k as int, subtree.0);
                        }
                        subtree
                    },
                };
                proof {
                    assert(node_ok(self.nodes.0@, cur.0 as int, self.radius as int));
                }
                cur = subtree;
            } else if tile.run == current.run + 1 && tile.rise == current.rise + 1 {
                let subtree = match self.nodes.0[cur.0].diag {
                    Some(subtree) => {
                        proof {
                            lemma_parent(ns, self.radius as int, cur.0 as int, subtree.0 as int);
                            lemma_path_shape(ns, self.radius as int, subtree.0 as int);
                            assert(path_of(ns, subtree.0 as int) =~= tiles@.subrange(0, k + 1));
                        }
                        subtree
                    },
                    None => {
                        let node = TrieNode::new(tile, generator);
                        proof {
                            lemma_push_node(self.nodes.0@, self.radius as int, node);
                        }
                        let subtree = self.nodes.emplace(node);
                        proof {
                            lemma_set_child(self.nodes.0@, self.radius as int, cur.0 as int, subtree.0, true);
                        }
                        self.set_child(cur, subtree, true);
                        proof {
                            assert(ns.push(node)[cur.0 as int] == ns[cur.0 as int]);
                            lemma_trie_add(ns, self.radius as int, cur.0 as int, node, true, generator, tiles@, k as int, subtree.0);
                        }
                        subtree
                    },
                };
                proof {
                    assert(node_ok(self.nodes.0@, cur.0 as int, self.radius as int));
                }
                cur = subtree;
            } else {
                // Segments are continuous: each step goes one run further.
                proof {
                    assert(false);
                }
            }
            proof {
                lemma_grows_trans(old_ns, ns, self.nodes.0@);
            }
            k += 1;
        }
        proof {
            let ns = self.nodes.0@;
            assert(tiles@.subrange(0, k as int) =~= tiles@);
            assert(node_ok(ns, cur.0 as int, self.radius as int));
            assert(starts_segment(ns[cur.0 as int].generator, path_of(ns, cur.0 as int)));
            lemma_gen_of_whole(ns[cur.0 as int].generator, generator, tiles@, self.radius as int);
        }
    }

    /// Returns a Vec of all tiles visible. A tile that blocks vision is itself visible, but there's no vision past it.
    /// There is no attempt to dedup tiles!
    pub fn get_field_of_view_tiles<F: Fn(AbsolutePosition) -> bool>(
        &self,
        center: AbsolutePosition,
        radius: u32,
        blocks_vision: F,
    ) -> (r: Vec<AbsolutePosition>)
        requires
            self.wf(),
            radius <= self.spec_radius(),
            fits_i32(center.x - radius) && fits_i32(center.x + radius),
            fits_i32(center.y - radius) && fits_i32(center.y + radius),
            forall|p: AbsolutePosition| #[trigger] blocks_vision.requires((p,)),
        ensures
            forall|i: int|
                0 <= i < r.len() ==> (#[trigger] r[i]).spec_distance(center) <= radius,
            r@.contains(center),
            forall|p: AbsolutePosition| #[trigger]
                r@.contains(p) ==> exists|q: RelativePosition|
                    #[trigger] in_sight(radius as int, clear_from(blocks_vision, center), q) && p == offset_by(center, q),
            forall|q: RelativePosition| #[trigger]
                in_sight(radius as int, open_from(blocks_vision, center), q) ==> r@.contains(offset_by(center, q)),
    {
        let seen_from = |x: RelativePosition| -> (b: bool)
            ensures
                shift_fits(center, x) ==> (&blocks_vision).ensures((offset_by(center, x),), b),
                !shift_fits(center, x) ==> b,
            {
                match offset_checked(center, x) {
                    Some(p) => blocks_vision(p),
                    None => true,
                }
            };
        let relative = self.get_field_of_view_tiles_relative(radius, seen_from);
        proof {
            assert forall|q: RelativePosition| #[trigger] clear_by(seen_from)(q) implies clear_from(blocks_vision, center)(q) by {}
            assert forall|q: RelativePosition| #[trigger] open_from(blocks_vision, center)(q) implies not_blocked_by(seen_from)(q) by {}
        }
        let mut out: Vec<AbsolutePosition> = Vec::new();
        let mut i: usize = 0;
        while i < relative.len()
            invariant
                i <= relative.len(),
                out.len() == i,
                fits_i32(center.x - radius) && fits_i32(center.x + radius),
                fits_i32(center.y - radius) && fits_i32(center.y + radius),
                forall|k: int| 0 <= k < relative.len() ==> (#[trigger] relative[k]).spec_length() <= radius,
                forall|k: int| 0 <= k < i ==> #[trigger] out[k] == offset_by(center, relative[k]),
            decreases relative.len() - i,
        {
            proof {
                assert(relative[i as int].spec_length() <= radius);
            }
            out.push(center + relative[i]);
            i += 1;
        }
        proof {
            assert forall|k: int| 0 <= k < out.len() implies (#[trigger] out[k]).spec_distance(center) <= radius by {
                assert(relative[k].spec_length() <= radius);
            }
            let z = choose|k: int| 0 <= k < relative.len() && relative[k] == (RelativePosition { dx: 0, dy: 0 });
            assert(out[z] == center);
            assert forall|p: AbsolutePosition| #[trigger] out@.contains(p) implies exists|q: RelativePosition|
                #[trigger] in_sight(radius as int, clear_from(blocks_vision, center), q) && p == offset_by(center, q) by {
                let k = choose|k: int| 0 <= k < out.len() && out@[k] == p;
                assert(relative@.contains(relative[k]));
                lemma_in_sight_monotone(radius as int, clear_by(seen_from), clear_from(blocks_vision, center), relative[k]);
            }
            assert forall|q: RelativePosition| #[trigger]
                in_sight(radius as int, open_from(blocks_vision, center), q) implies out@.contains(offset_by(center, q)) by {
                lemma_in_sight_monotone(radius as int, open_from(blocks_vision, center), not_blocked_by(seen_from), q);
                assert(relative@.contains(q));
                let k = choose|k: int| 0 <= k < relative.len() && relative@[k] == q;
                assert(out@[k] == offset_by(center, q));
            }
        }
        out
    }

    /// Every tile of the trie that is the end of its segment, within `radius`, turned into
    /// each of the eight octants, stopping behind tiles that block vision.
    ///
    /// Every offset returned is shown by a walk through offsets on which `blocks_vision_relative`
    /// answered `false`, and every offset shown by a walk through offsets on which it cannot
    /// answer `true` is returned.
    #[verifier::rlimit(60)]
    pub fn get_field_of_view_tiles_relative<F: Fn(RelativePosition) -> bool>(
        &self,
        radius: u32,
        blocks_vision_relative: F,
    ) -> (r: Vec<RelativePosition>)
        requires
            self.wf(),
            radius <= self.spec_radius(),
            forall|p: RelativePosition|
                p.spec_length() <= radius ==> #[trigger] blocks_vision_relative.requires((p,)),
        ensures
            forall|i: int| 0 <= i < r.len() ==> (#[trigger] r[i]).spec_length() <= radius,
            r@.contains(RelativePosition { dx: 0, dy: 0 }),
            forall|p: RelativePosition| #[trigger]
                r@.contains(p) ==> in_sight(radius as int, clear_by(blocks_vision_relative), p),
            forall|p: RelativePosition| #[trigger]
                in_sight(radius as int, not_blocked_by(blocks_vision_relative), p) ==> r@.contains(p),
    {
        let ghost ns = self.nodes.0@;
        let ghost n = ns.len();
        let ghost rad = radius as int;
        let ghost clear = clear_by(blocks_vision_relative);
        let ghost open = not_blocked_by(blocks_vision_relative);
        let ghost zero = RelativePosition { dx: 0, dy: 0 };
        let ghost mut z: int = 0;
        let mut out: Vec<RelativePosition> = Vec::new();
        let mut octant: u8 = 0;
        while octant < 8
            invariant
                self.wf(),
                ns == self.nodes.0@,
                n == ns.len(),
                rad == radius as int,
                clear == clear_by(blocks_vision_relative),
                open == not_blocked_by(blocks_vision_relative),
                zero == (RelativePosition { dx: 0, dy: 0 }),
                radius <= self.radius,
                octant <= 8,
                forall|p: RelativePosition|
                    p.spec_length() <= radius ==> #[trigger] blocks_vision_relative.requires((p,)),
                forall|i: int| 0 <= i < out.len() ==> (#[trigger] out[i]).spec_length() <= radius,
                octant > 0 ==> 0 <= z < out.len() && out@[z] == zero,
                forall|p: RelativePosition| #[trigger]
                    out@.contains(p) ==> exists|o: u8, i: int|
                        o < octant && #[trigger] shown(ns, rad, o, clear, i) && p == turned(ns[i].tile, o),
                forall|o: u8, i: int|
                    o < octant && #[trigger] shown(ns, rad, o, open, i) ==> out@.contains(turned(ns[i].tile, o)),
            decreases 8 - octant,
        {
            // DFS through the trie. BFS would return tiles in order of radius, which is nice.
            let mut frontier: Vec<TrieNodeIndex> = vec![TrieNodeIndex(0)];
            let ghost mut first = true;
            let ghost start_out = out@;
            let ghost mut done: Set<int> = Set::empty();
            loop
                invariant
                    self.wf(),
                    ns == self.nodes.0@,
                    n == ns.len(),
                    rad == radius as int,
                    clear == clear_by(blocks_vision_relative),
                    open == not_blocked_by(blocks_vision_relative),
                    zero == (RelativePosition { dx: 0, dy: 0 }),
                    radius <= self.radius,
                    octant < 8,
                    forall|p: RelativePosition|
                        p.spec_length() <= radius ==> #[trigger] blocks_vision_relative.requires((p,)),
                    forall|i: int| 0 <= i < out.len() ==> (#[trigger] out[i]).spec_length() <= radius,
                    forall|i: int| 0 <= i < frontier.len() ==> (#[trigger] frontier[i]).0 < n,
                    first ==> frontier@ == seq![TrieNodeIndex(0)],
                    !(first && octant == 0) ==> 0 <= z < out.len() && out@[z] == zero,
                    first ==> done == Set::<int>::empty(),
                    !first ==> done.contains(0),
                    walk_ok(ns, rad, octant, clear, open, done, frontier@),
                    forall|p: RelativePosition| #[trigger]
                        out@.contains(p) <==> (start_out.contains(p) || exists|i: int| #[trigger]
                            done.contains(i) && ends_within(ns, rad, i) && p == turned(ns[i].tile, octant)),
                ensures
                    self.wf(),
                    forall|i: int| 0 <= i < out.len() ==> (#[trigger] out[i]).spec_length() <= radius,
                    0 <= z < out.len() && out@[z] == zero,
                    forall|x: int| #[trigger] done.contains(x) ==> 0 <= x < n && reached(ns, rad, octant, clear, x),
                    forall|x: int| 0 <= x < n && #[trigger] reached(ns, rad, octant, open, x) ==> done.contains(x),
                    forall|p: RelativePosition| #[trigger]
                        out@.contains(p) <==> (start_out.contains(p) || exists|i: int| #[trigger]
                            done.contains(i) && ends_within(ns, rad, i) && p == turned(ns[i].tile, octant)),
                decreases frontier_weight(frontier@, n as nat),
            {
                let ghost before = frontier@;
                let current = match frontier.pop() {
                    Some(current) => current,
                    None => {
                        proof {
                            assert forall|x: int| 0 <= x < n && #[trigger] reached(ns, rad, octant, open, x) implies done.contains(
                                x,
                            ) by {
                                lemma_walk_complete(ns, rad, octant, open, done, x);
                            }
                        }
                        break;
                    },
                };
                let ghost popped = frontier@;
                let ghost cur = current.0 as int;
                let ghost done0 = done;
                let ghost was_first = first;
                let ghost out0 = out@;
                proof {
                    lemma_weight_pop(before, n as nat);
                    assert(node_ok(self.nodes.0@, current.0 as int, self.radius as int));
                    assert(before[before.len() - 1] == current);
                    assert(reached(ns, rad, octant, clear, cur));
                    assert(!done0.contains(cur));
                    assert forall|k: int| 0 <= k < popped.len() implies #[trigger] popped[k] == before[k] by {}
                    done = done.insert(cur);
                    first = false;
                }
                let node = &self.nodes.0[current.0];
                if node.generator.run > radius {
                    // In this subtree, we know that every tile we would output
                    // would be outside the radius. Rather than checking radius before outputting,
                    // we can just stop early.
                    proof {
                        lemma_weight_zero_child(frontier@, n as nat, before);
                        lemma_radius_small(self.radius as int);
                        lemma_walk_next(ns, self.radius as int, rad, octant, clear, open, done0, before, frontier@, false);
                        lemma_walk_output(ns, rad, octant, done0, cur, start_out, out0, out@);
                    }
                    continue;
                }

                proof {
                    lemma_radius_small(self.radius as int);
                    lemma_octant_length(node.tile, octant);
                }
                let relative = relative_of_octant(OctantRelative::from_inside(node.tile, octant));
                proof {
                    assert(relative == turned(node.tile, octant));
                }

                // This is what makes StrictFov "strict".
                // This is equivalent to drawing a segment to the tile and checking everything in between.
                // Without this, you are allowed to draw a segment *through* the tile and see it.
                if node.generator == node.tile {
                    out.push(relative);
                    proof {
                        if was_first && octant == 0 {
                            assert(current.0 == 0);
                            assert(node.tile == origin());
                            let o = OctantRelative { run: 0, rise: 0, octant };
                            assert(octant_offset(o).0 == 0 && octant_offset(o).1 == 0);
                            assert(relative.dx == 0 && relative.dy == 0);
                            assert(relative == zero);
                            z = out.len() - 1;
                        }
                        assert(out@[z] == zero);
                        lemma_walk_output(ns, rad, octant, done0, cur, start_out, out0, out@);
                    }
                } else {
                    proof {
                        lemma_walk_output(ns, rad, octant, done0, cur, start_out, out0, out@);
                    }
                }
                proof {
                    if was_first {
                        assert(node.generator == node.tile);
                    }
                }

                let blocked = blocks_vision_relative(relative);
                if !blocked {
                    if let Some(diag) = node.diag {
                        frontier.push(diag);
                    }
                    if let Some(run) = node.run {
                        frontier.push(run);
                    }
                }
                proof {
                    assert(frontier@.subrange(0, popped.len() as int) =~= popped);
                    lemma_weight_children(before, n as nat, frontier@, current.0 as nat);
                    if !blocked {
                        assert(frontier@ =~= popped + children(*node));
                    } else {
                        assert(frontier@ =~= popped);
                    }
                    lemma_walk_next(ns, self.radius as int, rad, octant, clear, open, done0, before, frontier@, !blocked);
                }
            }
            proof {
                lemma_next_octant(ns, rad, octant, clear, open, done, start_out, out@);
            }
            octant += 1;
        }
        proof {
            assert(out@[z] == zero);
            assert forall|p: RelativePosition| #[trigger] out@.contains(p) implies in_sight(
                radius as int,
                clear_by(blocks_vision_relative),
                p,
            ) by {
                let (o, i) = choose|o: u8, i: int|
                    o < octant && #[trigger] shown(ns, rad, o, clear, i) && p == turned(ns[i].tile, o);
                assert(shown(ns, rad, o, clear, i));
                lemma_visible_in_sight(ns, self.radius as int, rad, clear, p);
            }
            assert forall|p: RelativePosition| #[trigger]
                in_sight(radius as int, not_blocked_by(blocks_vision_relative), p) implies out@.contains(p) by {
                lemma_visible_in_sight(ns, self.radius as int, rad, open, p);
                let (o, i) = choose|o: u8, i: int| o < 8 && #[trigger] shown(ns, rad, o, open, i) && p == turned(ns[i].tile, o);
                assert(shown(ns, rad, o, open, i));
            }
        }
        out
    }

    fn set_child(&mut self, index: TrieNodeIndex, child: TrieNodeIndex, diag: bool)
        requires
            index.0 < old(self).nodes.0@.len(),
        ensures
            final(self).radius == old(self).radius,
            final(self).nodes.0@ == old(self).nodes.0@.update(
                index.0 as int,
                TrieNode {
                    diag: if diag { Some(child) } else { old(self).nodes.0@[index.0 as int].diag },
                    run: if diag { old(self).nodes.0@[index.0 as int].run } else { Some(child) },
                    ..old(self).nodes.0@[index.0 as int]
                },
            ),
    {
        let node = &mut self.nodes.0[index.0];
        if diag {
            node.diag = Some(child);
        } else {
            node.run = Some(child);
        }
    }
}

/// Whether `center` moved by `x` stays within `i32`.
pub open spec fn shift_fits(center: AbsolutePosition, x: RelativePosition) -> bool {
    fits_i32(center.x + x.dx) && fits_i32(center.y + x.dy)
}

/// `center` moved by `x`.
pub open spec fn offset_by(center: AbsolutePosition, x: RelativePosition) -> AbsolutePosition {
    AbsolutePosition { x: (center.x + x.dx) as i32, y: (center.y + x.dy) as i32 }
}

/// `center + x`, where it fits in `i32`.
fn offset_checked(center: AbsolutePosition, x: RelativePosition) -> (r: Option<AbsolutePosition>)
    ensures
        shift_fits(center, x) ==> r == Some(offset_by(center, x)),
        !shift_fits(center, x) ==> r is None,
{
    match (center.x.checked_add(x.dx), center.y.checked_add(x.dy)) {
        (Some(px), Some(py)) => Some(AbsolutePosition { x: px, y: py }),
        _ => None,
    }
}

/// The sum, over the indices in `s`, of `3` to the power of how far each is from the end.
/// A node's children are stored after it, so replacing a node by its children lowers it.
pub open spec fn frontier_weight(s: Seq<TrieNodeIndex>, n: nat) -> nat
    decreases s.len(),
{
    if s.len() == 0 {
        0
    } else {
        frontier_weight(s.drop_last(), n) + pow(3, (n - s.last().0) as nat) as nat
    }
}

proof fn lemma_weight_pop(s: Seq<TrieNodeIndex>, n: nat)
    requires
        s.len() > 0,
    ensures
        frontier_weight(s, n) == frontier_weight(s.drop_last(), n) + pow(3, (n - s.last().0) as nat),
        pow(3, (n - s.last().0) as nat) > 0,
{
    lemma_pow_positive(3, (n - s.last().0) as nat);
}

proof fn lemma_weight_zero_child(rest: Seq<TrieNodeIndex>, n: nat, before: Seq<TrieNodeIndex>)
    requires
        before.len() > 0,
        rest == before.drop_last(),
    ensures
        frontier_weight(rest, n) < frontier_weight(before, n),
{
    lemma_weight_pop(before, n);
}

proof fn lemma_weight_children(before: Seq<TrieNodeIndex>, n: nat, after: Seq<TrieNodeIndex>, i: nat)
    requires
        before.len() > 0,
        before.last().0 == i,
        i < n,
        before.len() - 1 <= after.len() <= before.len() + 1,
        after.subrange(0, before.len() - 1) == before.drop_last(),
        forall|k: int| before.len() - 1 <= k < after.len() ==> i < (#[trigger] after[k]).0 < n,
    ensures
        frontier_weight(after, n) < frontier_weight(before, n),
{
    lemma_weight_pop(before, n);
    let base = before.drop_last();
    let e = (n - i) as nat;
    lemma_pow_positive(3, (e - 1) as nat);
    assert(pow(3, e) == 3 * pow(3, (e - 1) as nat)) by {
        reveal(pow);
    }
    if after.len() == base.len() {
        assert(after =~= base);
    } else if after.len() == base.len() + 1 {
        assert(after.drop_last() =~= base);
        let c = after.last().0;
        lemma_pow_increases(3, (n - c) as nat, (e - 1) as nat);
        lemma_pow_positive(3, (n - c) as nat);
        assert(frontier_weight(after, n) == frontier_weight(base, n) + pow(3, (n - c) as nat));
    } else {
        let mid = after.drop_last();
        assert(mid.drop_last() =~= base);
        let c1 = mid.last().0;
        let c2 = after.last().0;
        assert(mid.last() == after[after.len() - 2]);
        lemma_pow_increases(3, (n - c1) as nat, (e - 1) as nat);
        lemma_pow_increases(3, (n - c2) as nat, (e - 1) as nat);
        lemma_pow_positive(3, (n - c1) as nat);
        lemma_pow_positive(3, (n - c2) as nat);
        assert(frontier_weight(mid, n) == frontier_weight(base, n) + pow(3, (n - c1) as nat));
        assert(frontier_weight(after, n) == frontier_weight(mid, n) + pow(3, (n - c2) as nat));
    }
}

/// Turning a tile of the octant into an offset keeps its length, the tile's run.
pub proof fn lemma_octant_length(t: InsideOctant, octant: u8)
    requires
        t.rise <= t.run <= i32::MAX,
    ensures
        crate::positional::octant_offset_fits(OctantRelative { run: t.run, rise: t.rise, octant }),
        chebyshev(
            octant_offset(OctantRelative { run: t.run, rise: t.rise, octant }).0,
            octant_offset(OctantRelative { run: t.run, rise: t.rise, octant }).1,
        ) == t.run,
{
}

/// The alternative segment is continuous too.
#[verifier::rlimit(40)]
proof fn lemma_alt_continues(target: InsideOctant)
    requires
        target.rise <= target.run,
    ensures
        continues(origin(), segment_tiles(target), 1),
        segment_alt(target) matches Some(alt) ==> continues(origin(), alt, 1),
{
    lemma_segment_shape(target);
    let t = segment_tiles(target);
    assert forall|k: int| 1 <= k < t.len() implies {
        let prev = if k == 1 { origin() } else { t[k - 1] };
        #[trigger] t[k] == run_step(prev) || t[k] == diag_step(prev)
    } by {
        assert(t[k].rise == t[k - 1].rise || t[k].rise == t[k - 1].rise + 1);
    }
    if let Some(alt) = segment_alt(target) {
        let mid = (target.run / 2) as int;
        lemma_segment_symmetric(target, mid - 1);
        lemma_segment_symmetric(target, mid + 1);
        lemma_segment_symmetric(target, mid);
        assert(t[mid].rise == t[mid - 1].rise || t[mid].rise == t[mid - 1].rise + 1);
        assert(t[mid + 1].rise == t[mid].rise || t[mid + 1].rise == t[mid].rise + 1);
        assert forall|k: int| 1 <= k < alt.len() implies {
            let prev = if k == 1 { origin() } else { alt[k - 1] };
            #[trigger] alt[k] == run_step(prev) || alt[k] == diag_step(prev)
        } by {
            assert(t[k].rise == t[k - 1].rise || t[k].rise == t[k - 1].rise + 1);
        }
    }
}

} // verus!
