//! A* search over the grid that remembers what it learns between runs.
use vstd::prelude::*;
use vstd::set_lib::lemma_int_range;
use vstd::set_lib::lemma_len_subset;
use vstd::set_lib::lemma_map_size;
use vstd::set_lib::set_int_range;

use crate::positional::AbsolutePosition;
use crate::positional::RelativePosition;

verus! {

/// No search bound exceeds this: a heuristic estimate (a `u32`) plus the slack of five.
pub const COST_CAP: u64 = 4294967300;

/// The order in which the two tiles of a pair are stored: by `x`, then by `y`.
pub open spec fn pos_le(a: AbsolutePosition, b: AbsolutePosition) -> bool {
    a.x < b.x || (a.x == b.x && a.y <= b.y)
}

/// The stored form of the unordered pair of `a` and `b`.
pub open spec fn normalized(a: AbsolutePosition, b: AbsolutePosition) -> (AbsolutePosition, AbsolutePosition) {
    if pos_le(a, b) {
        (a, b)
    } else {
        (b, a)
    }
}

fn normalize_key(a: AbsolutePosition, b: AbsolutePosition) -> (r: (AbsolutePosition, AbsolutePosition))
    ensures
        r == normalized(a, b),
{
    if a.x < b.x || (a.x == b.x && a.y <= b.y) {
        (a, b)
    } else {
        (b, a)
    }
}

/// What is known of the paths between the two tiles of `key`: the length of the shortest
/// path found, how many of its steps are diagonal, and some tile on it.
#[derive(Clone, Copy, Debug)]
pub struct PathEntry {
    pub key: (AbsolutePosition, AbsolutePosition),
    pub distance: u64,
    pub diagonal: u64,
    pub step: AbsolutePosition,
}

pub open spec fn has_key(s: Seq<PathEntry>, k: (AbsolutePosition, AbsolutePosition)) -> bool {
    exists|j: int| 0 <= j < s.len() && #[trigger] s[j].key == k
}

pub open spec fn has_key_before(s: Seq<PathEntry>, k: (AbsolutePosition, AbsolutePosition), i: int) -> bool {
    exists|j: int| 0 <= j < i && #[trigger] s[j].key == k
}

/// Where the entry of `k` stands, if there is one.
pub open spec fn key_index(s: Seq<PathEntry>, k: (AbsolutePosition, AbsolutePosition)) -> int {
    if has_key(s, k) {
        choose|j: int| 0 <= j < s.len() && #[trigger] s[j].key == k
    } else {
        -1
    }
}

/// One entry of the table: its pair is stored in order, its distance is no shorter than the
/// Chebyshev distance, and its step is either an end of the pair (then the pair is one tile,
/// or two neighbors) or a tile whose pairs with both ends were stored before it.
pub open spec fn entry_ok(s: Seq<PathEntry>, i: int) -> bool {
    let e = s[i];
    &&& pos_le(e.key.0, e.key.1)
    &&& e.key.0.spec_distance(e.key.1) <= e.distance <= COST_CAP
    &&& e.diagonal <= e.distance
    &&& (e.step == e.key.0 || e.step == e.key.1) ==> (e.key.0 == e.key.1 || e.key.0.spec_distance(
        e.key.1,
    ) == 1)
    &&& !(e.step == e.key.0 || e.step == e.key.1) ==> {
        &&& has_key_before(s, normalized(e.key.0, e.step), i)
        &&& has_key_before(s, normalized(e.step, e.key.1), i)
    }
}

pub open spec fn entries_wf(s: Seq<PathEntry>) -> bool {
    &&& forall|i: int| 0 <= i < s.len() ==> #[trigger] entry_ok(s, i)
    &&& forall|i: int, j: int| 0 <= i < s.len() && 0 <= j < s.len() && i != j ==> s[i].key != s[j].key
}

/// The tile that `get_step` returns: follow the stored steps from `dest` back towards `start`,
/// at most `fuel` times, until one is an end of its pair.
pub open spec fn step_chain(s: Seq<PathEntry>, start: AbsolutePosition, dest: AbsolutePosition, fuel: nat) -> Option<AbsolutePosition>
    decreases fuel,
{
    if start == dest {
        Some(dest)
    } else if !has_key(s, normalized(start, dest)) {
        None
    } else {
        let m = s[key_index(s, normalized(start, dest))].step;
        if m == start || m == dest {
            Some(dest)
        } else if fuel == 0 {
            None
        } else {
            step_chain(s, start, m, (fuel - 1) as nat)
        }
    }
}

/// How many steps the chain from `dest` back to `start` can take at most.
pub open spec fn chain_rank(s: Seq<PathEntry>, start: AbsolutePosition, dest: AbsolutePosition) -> nat {
    if start != dest && has_key(s, normalized(start, dest)) {
        (key_index(s, normalized(start, dest)) + 1) as nat
    } else {
        0
    }
}

/// `t` is `s` with only the entries of `k` rewritten or added: every entry keeps its pair
/// and its place, entries of other pairs are unchanged, and the new ones are of `k`.
pub open spec fn changes_only(s: Seq<PathEntry>, t: Seq<PathEntry>, k: (AbsolutePosition, AbsolutePosition)) -> bool {
    &&& s.len() <= t.len()
    &&& forall|j: int| 0 <= j < s.len() ==> (#[trigger] t[j]).key == s[j].key && (s[j].key != k ==> t[j] == s[j])
    &&& forall|j: int| s.len() <= j < t.len() ==> (#[trigger] t[j]).key == k
}

/// Every entry of `k` has an end of the pair as its step.
pub open spec fn steps_at_ends(s: Seq<PathEntry>, k: (AbsolutePosition, AbsolutePosition)) -> bool {
    forall|j: int| 0 <= j < s.len() && (#[trigger] s[j]).key == k ==> s[j].step == k.0 || s[j].step == k.1
}

/// Every entry of `k` records a single step.
pub open spec fn one_step(s: Seq<PathEntry>, k: (AbsolutePosition, AbsolutePosition)) -> bool {
    forall|j: int| 0 <= j < s.len() && (#[trigger] s[j]).key == k ==> s[j].distance == 1
}

/// Rewriting the entries of one pair leaves what is known of another.
proof fn lemma_changes_only_keeps(
    s: Seq<PathEntry>,
    t: Seq<PathEntry>,
    k: (AbsolutePosition, AbsolutePosition),
    other: (AbsolutePosition, AbsolutePosition),
)
    requires
        changes_only(s, t, k),
        k != other,
    ensures
        steps_at_ends(s, other) ==> steps_at_ends(t, other),
        one_step(s, other) ==> one_step(t, other),
{
    assert forall|j: int| 0 <= j < t.len() && (#[trigger] t[j]).key == other implies t[j] == s[j] by {
        if j >= s.len() {
            assert(t[j].key == k);
        }
    }
}

proof fn lemma_key_index(s: Seq<PathEntry>, k: (AbsolutePosition, AbsolutePosition), i: int)
    requires
        entries_wf(s),
        0 <= i < s.len(),
        s[i].key == k,
    ensures
        has_key(s, k),
        key_index(s, k) == i,
{
    assert(has_key(s, k));
    let j = key_index(s, k);
    assert(s[j].key == k);
}

proof fn lemma_key_before(s: Seq<PathEntry>, k: (AbsolutePosition, AbsolutePosition), i: int)
    requires
        entries_wf(s),
        0 <= i <= s.len(),
        has_key_before(s, k, i),
    ensures
        has_key(s, k),
        0 <= key_index(s, k) < i,
{
    let j = choose|j: int| 0 <= j < i && #[trigger] s[j].key == k;
    lemma_key_index(s, k, j);
}

proof fn lemma_normalized_symmetric(a: AbsolutePosition, b: AbsolutePosition)
    ensures
        normalized(a, b) == normalized(b, a),
        pos_le(normalized(a, b).0, normalized(a, b).1),
        (normalized(a, b).0 == a && normalized(a, b).1 == b) || (normalized(a, b).0 == b
            && normalized(a, b).1 == a),
{
}

proof fn lemma_distance_symmetric(a: AbsolutePosition, b: AbsolutePosition)
    ensures
        a.spec_distance(b) == b.spec_distance(a),
        a.spec_distance(b) >= 0,
        a.spec_distance(b) == 0 <==> a == b,
{
}

/// The Chebyshev distance obeys the triangle inequality.
pub proof fn lemma_distance_triangle(a: AbsolutePosition, b: AbsolutePosition, c: AbsolutePosition)
    ensures
        a.spec_distance(c) <= a.spec_distance(b) + b.spec_distance(c),
{
}

/// More fuel than the chain can use changes nothing.
proof fn lemma_chain_fuel(s: Seq<PathEntry>, start: AbsolutePosition, dest: AbsolutePosition, f1: nat, f2: nat)
    requires
        entries_wf(s),
        f1 >= chain_rank(s, start, dest),
        f2 >= chain_rank(s, start, dest),
    ensures
        step_chain(s, start, dest, f1) == step_chain(s, start, dest, f2),
    decreases f1,
{
    if start != dest && has_key(s, normalized(start, dest)) {
        let i = key_index(s, normalized(start, dest));
        let e = s[i];
        let m = e.step;
        if !(m == start || m == dest) {
            assert(entry_ok(s, i));
            lemma_normalized_symmetric(start, dest);
            lemma_normalized_symmetric(start, m);
            lemma_normalized_symmetric(m, dest);
            assert(m != e.key.0 && m != e.key.1);
            if e.key.0 == start {
                lemma_key_before(s, normalized(start, m), i);
            } else {
                lemma_key_before(s, normalized(m, start), i);
            }
            assert(chain_rank(s, start, m) <= i);
            lemma_chain_fuel(s, start, m, (f1 - 1) as nat, (f2 - 1) as nat);
        }
    }
}

/// Where the table knows the pair, the chain ends on a tile: the destination itself where
/// it is the start, else a neighbor of the start.
proof fn lemma_chain_adjacent(s: Seq<PathEntry>, start: AbsolutePosition, dest: AbsolutePosition, fuel: nat)
    requires
        entries_wf(s),
        start == dest || has_key(s, normalized(start, dest)),
        fuel >= chain_rank(s, start, dest),
    ensures
        step_chain(s, start, dest, fuel) matches Some(t) && ((t == dest && start == dest)
            || start.spec_distance(t) == 1),
    decreases fuel,
{
    if start != dest {
        let i = key_index(s, normalized(start, dest));
        let e = s[i];
        let m = e.step;
        assert(entry_ok(s, i));
        lemma_normalized_symmetric(start, dest);
        lemma_distance_symmetric(start, dest);
        if m == start || m == dest {
        } else {
            lemma_normalized_symmetric(start, m);
            lemma_normalized_symmetric(m, dest);
            if e.key.0 == start {
                lemma_key_before(s, normalized(start, m), i);
            } else {
                lemma_key_before(s, normalized(m, start), i);
            }
            lemma_chain_adjacent(s, start, m, (fuel - 1) as nat);
        }
    }
}

/// Replacing an entry by one of the same pair, which is fine where it stands, keeps the table
/// well formed.
proof fn lemma_wf_update(s: Seq<PathEntry>, i: int, e: PathEntry)
    requires
        entries_wf(s),
        0 <= i < s.len(),
        e.key == s[i].key,
        entry_ok(s.update(i, e), i),
    ensures
        entries_wf(s.update(i, e)),
{
    let t = s.update(i, e);
    assert forall|j: int| 0 <= j < t.len() implies #[trigger] entry_ok(t, j) by {
        if j != i {
            assert(entry_ok(s, j));
            assert(t[j] == s[j]);
            let f = s[j];
            if !(f.step == f.key.0 || f.step == f.key.1) {
                let k1 = normalized(f.key.0, f.step);
                let k2 = normalized(f.step, f.key.1);
                let w1 = choose|w: int| 0 <= w < j && #[trigger] s[w].key == k1;
                let w2 = choose|w: int| 0 <= w < j && #[trigger] s[w].key == k2;
                assert(t[w1].key == k1);
                assert(t[w2].key == k2);
            }
        }
    }
}

/// Appending the entry of a new pair, which is fine at the end, keeps the table well formed.
proof fn lemma_wf_push(s: Seq<PathEntry>, e: PathEntry)
    requires
        entries_wf(s),
        !has_key(s, e.key),
        entry_ok(s.push(e), s.len() as int),
    ensures
        entries_wf(s.push(e)),
        has_key(s.push(e), e.key),
        forall|k| has_key(s, k) ==> has_key(s.push(e), k),
{
    let t = s.push(e);
    assert(t[s.len() as int].key == e.key);
    assert forall|j: int| 0 <= j < t.len() implies #[trigger] entry_ok(t, j) by {
        if j < s.len() {
            assert(entry_ok(s, j));
            assert(t[j] == s[j]);
            let f = s[j];
            if !(f.step == f.key.0 || f.step == f.key.1) {
                let k1 = normalized(f.key.0, f.step);
                let k2 = normalized(f.step, f.key.1);
                let w1 = choose|w: int| 0 <= w < j && #[trigger] s[w].key == k1;
                let w2 = choose|w: int| 0 <= w < j && #[trigger] s[w].key == k2;
                assert(t[w1].key == k1);
                assert(t[w2].key == k2);
            }
        }
    }
    assert forall|a: int, b: int| 0 <= a < t.len() && 0 <= b < t.len() && a != b implies t[a].key
        != t[b].key by {
        if a == s.len() {
            assert(t[b] == s[b]);
        } else if b == s.len() {
            assert(t[a] == s[a]);
        }
    }
    assert forall|k| has_key(s, k) implies has_key(t, k) by {
        let w = choose|w: int| 0 <= w < s.len() && #[trigger] s[w].key == k;
        assert(t[w].key == k);
    }
}

fn find_entry(entries: &Vec<PathEntry>, key: (AbsolutePosition, AbsolutePosition)) -> (r: Option<usize>)
    requires
        entries_wf(entries@),
    ensures
        match r {
            Some(i) => i < entries.len() && entries@[i as int].key == key && key_index(entries@, key)
                == i,
            None => !has_key(entries@, key),
        },
{
    let mut i: usize = 0;
    while i < entries.len()
        invariant
            entries_wf(entries@),
            i <= entries.len(),
            forall|j: int| 0 <= j < i ==> #[trigger] entries@[j].key != key,
        decreases entries.len() - i,
    {
        let k = entries[i].key;
        if k.0.x == key.0.x && k.0.y == key.0.y && k.1.x == key.1.x && k.1.y == key.1.y {
            proof {
                lemma_key_index(entries@, key, i as int);
            }
            return Some(i);
        }
        i += 1;
    }
    None
}

/// Records the end of a search path from `start` to `tile`: its cost and diagonal count are
/// written, and `previous` becomes the pair's step where the pair is new.
fn record_visit(
    entries: &mut Vec<PathEntry>,
    start: AbsolutePosition,
    tile: AbsolutePosition,
    distance: u64,
    diagonal: u64,
    previous: AbsolutePosition,
)
    requires
        entries_wf(old(entries)@),
        start.spec_distance(tile) <= distance <= COST_CAP,
        diagonal <= distance,
        has_key(old(entries)@, normalized(start, tile)) || {
            &&& (previous == start || previous == tile) ==> start == tile
            &&& !(previous == start || previous == tile) ==> has_key(
                old(entries)@,
                normalized(start, previous),
            ) && has_key(old(entries)@, normalized(previous, tile))
        },
    ensures
        entries_wf(final(entries)@),
        has_key(final(entries)@, normalized(start, tile)),
        forall|k| has_key(old(entries)@, k) ==> has_key(final(entries)@, k),
        forall|k| #[trigger] has_key(final(entries)@, k) ==> has_key(old(entries)@, k) || k == normalized(start, tile),
        changes_only(old(entries)@, final(entries)@, normalized(start, tile)),
        has_key(old(entries)@, normalized(start, tile)) && steps_at_ends(old(entries)@, normalized(start, tile))
            ==> steps_at_ends(final(entries)@, normalized(start, tile)),
        !has_key(old(entries)@, normalized(start, tile)) ==> forall|j: int|
            0 <= j < final(entries)@.len() && #[trigger] final(entries)@[j].key == normalized(start, tile)
                ==> final(entries)@[j].step == previous,
        forall|j: int|
            0 <= j < old(entries)@.len() && #[trigger] old(entries)@[j].key == normalized(start, tile)
                ==> final(entries)@[j].step == old(entries)@[j].step,
        forall|j: int|
            0 <= j < final(entries)@.len() && #[trigger] final(entries)@[j].key == normalized(start, tile)
                ==> final(entries)@[j].distance == distance,
{
    let key = normalize_key(start, tile);
    proof {
        lemma_normalized_symmetric(start, tile);
        lemma_distance_symmetric(start, tile);
    }
    match find_entry(entries, key) {
        Some(i) => {
            let old_entry = entries[i];
            let e = PathEntry { key, distance, diagonal, step: old_entry.step };
            let ghost s = entries@;
            proof {
                assert(entry_ok(s, i as int));
                let t = s.update(i as int, e);
                if !(e.step == e.key.0 || e.step == e.key.1) {
                    let k1 = normalized(e.key.0, e.step);
                    let k2 = normalized(e.step, e.key.1);
                    let w1 = choose|w: int| 0 <= w < i && #[trigger] s[w].key == k1;
                    let w2 = choose|w: int| 0 <= w < i && #[trigger] s[w].key == k2;
                    assert(t[w1].key == k1);
                    assert(t[w2].key == k2);
                }
                assert(entry_ok(t, i as int));
                lemma_wf_update(s, i as int, e);
            }
            entries.set(i, e);
            proof {
                assert forall|k| has_key(s, k) implies has_key(entries@, k) by {
                    let w = choose|w: int| 0 <= w < s.len() && #[trigger] s[w].key == k;
                    assert(entries@[w].key == k);
                }
                assert(entries@[i as int].key == key);
                assert forall|k| #[trigger] has_key(entries@, k) implies has_key(s, k) || k == key by {
                    let w = choose|w: int| 0 <= w < entries@.len() && #[trigger] entries@[w].key == k;
                    if w != i {
                        assert(s[w].key == k);
                    }
                }
                assert forall|j: int| 0 <= j < entries@.len() && (#[trigger] entries@[j]).key == key implies j == i by {
                    if j != i {
                        assert(s[j].key == key);
                        assert(s[i as int].key == key);
                    }
                }
                assert(steps_at_ends(s, key) ==> steps_at_ends(entries@, key)) by {
                    if steps_at_ends(s, key) {
                        assert(s[i as int].key == key);
                    }
                }
            }
        },
        None => {
            let e = PathEntry { key, distance, diagonal, step: previous };
            let ghost s = entries@;
            proof {
                let t = s.push(e);
                if !(e.step == e.key.0 || e.step == e.key.1) {
                    lemma_normalized_symmetric(start, previous);
                    lemma_normalized_symmetric(previous, tile);
                    let k1 = normalized(e.key.0, e.step);
                    let k2 = normalized(e.step, e.key.1);
                    assert(has_key(s, k1));
                    assert(has_key(s, k2));
                    let w1 = choose|w: int| 0 <= w < s.len() && #[trigger] s[w].key == k1;
                    let w2 = choose|w: int| 0 <= w < s.len() && #[trigger] s[w].key == k2;
                    assert(t[w1].key == k1);
                    assert(t[w2].key == k2);
                }
                assert(entry_ok(t, s.len() as int));
                lemma_wf_push(s, e);
            }
            entries.push(e);
            proof {
                assert forall|k| #[trigger] has_key(entries@, k) implies has_key(s, k) || k == key by {
                    let w = choose|w: int| 0 <= w < entries@.len() && #[trigger] entries@[w].key == k;
                    if w < s.len() {
                        assert(s[w].key == k);
                    }
                }
            }
        },
    }
}

/// Whether `p` is an end of some pair the table holds.
pub open spec fn in_table(s: Seq<PathEntry>, p: AbsolutePosition) -> bool {
    exists|k: int| 0 <= k < s.len() && ((#[trigger] s[k]).key.0 == p || s[k].key.1 == p)
}

/// A table that keeps every pair keeps every end.
proof fn lemma_in_table_grow(s: Seq<PathEntry>, t: Seq<PathEntry>, p: AbsolutePosition)
    requires
        forall|k| has_key(s, k) ==> has_key(t, k),
        in_table(s, p),
    ensures
        in_table(t, p),
{
    let w = choose|w: int| 0 <= w < s.len() && ((#[trigger] s[w]).key.0 == p || s[w].key.1 == p);
    assert(has_key(s, s[w].key));
    let v = choose|v: int| 0 <= v < t.len() && #[trigger] t[v].key == s[w].key;
    assert(t[v].key == s[w].key);
}

/// A table that only gained the pair of `a` and `b` only gained them as ends.
proof fn lemma_in_table_add(s: Seq<PathEntry>, t: Seq<PathEntry>, a: AbsolutePosition, b: AbsolutePosition, p: AbsolutePosition)
    requires
        forall|k| #[trigger] has_key(t, k) ==> has_key(s, k) || k == normalized(a, b),
        in_table(t, p),
    ensures
        in_table(s, p) || p == a || p == b,
{
    let w = choose|w: int| 0 <= w < t.len() && ((#[trigger] t[w]).key.0 == p || t[w].key.1 == p);
    assert(has_key(t, t[w].key));
    if has_key(s, t[w].key) {
        let v = choose|v: int| 0 <= v < s.len() && #[trigger] s[v].key == t[w].key;
        assert(s[v].key == t[w].key);
    }
}

/// The tile the chain of steps gives is the destination or an end of a pair of the table.
proof fn lemma_chain_in_table(s: Seq<PathEntry>, start: AbsolutePosition, dest: AbsolutePosition, fuel: nat)
    requires
        entries_wf(s),
    ensures
        step_chain(s, start, dest, fuel) matches Some(t) ==> t == dest || in_table(s, t),
    decreases fuel,
{
    if start != dest && has_key(s, normalized(start, dest)) {
        let i = key_index(s, normalized(start, dest));
        let e = s[i];
        let m = e.step;
        if !(m == start || m == dest) && fuel > 0 {
            assert(entry_ok(s, i));
            if !(m == e.key.0 || m == e.key.1) {
                let w = choose|w: int| 0 <= w < i && #[trigger] s[w].key == normalized(e.key.0, m);
                assert(s[w].key.0 == m || s[w].key.1 == m);
                assert(in_table(s, m));
            } else {
                assert(s[i].key.0 == m || s[i].key.1 == m);
            }
            lemma_chain_in_table(s, start, m, (fuel - 1) as nat);
        }
    }
}

/// Records that `neighbor` is one step from `tile`.
fn record_neighbor(
    entries: &mut Vec<PathEntry>,
    tile: AbsolutePosition,
    neighbor: AbsolutePosition,
    diagonal: u64,
)
    requires
        entries_wf(old(entries)@),
        tile.spec_distance(neighbor) == 1,
        diagonal <= 1,
    ensures
        entries_wf(final(entries)@),
        has_key(final(entries)@, normalized(tile, neighbor)),
        forall|k| has_key(old(entries)@, k) ==> has_key(final(entries)@, k),
        forall|k| #[trigger] has_key(final(entries)@, k) ==> has_key(old(entries)@, k) || k == normalized(tile, neighbor),
        changes_only(old(entries)@, final(entries)@, normalized(tile, neighbor)),
        steps_at_ends(final(entries)@, normalized(tile, neighbor)),
        one_step(final(entries)@, normalized(tile, neighbor)),
{
    let key = normalize_key(tile, neighbor);
    proof {
        lemma_normalized_symmetric(tile, neighbor);
        lemma_distance_symmetric(tile, neighbor);
    }
    let e = PathEntry { key, distance: 1, diagonal, step: tile };
    let ghost s = entries@;
    match find_entry(entries, key) {
        Some(i) => {
            proof {
                assert(entry_ok(s.update(i as int, e), i as int));
                lemma_wf_update(s, i as int, e);
            }
            entries.set(i, e);
            proof {
                assert forall|k| has_key(s, k) implies has_key(entries@, k) by {
                    let w = choose|w: int| 0 <= w < s.len() && #[trigger] s[w].key == k;
                    assert(entries@[w].key == k);
                }
                assert(entries@[i as int].key == key);
                assert forall|k| #[trigger] has_key(entries@, k) implies has_key(s, k) || k == key by {
                    let w = choose|w: int| 0 <= w < entries@.len() && #[trigger] entries@[w].key == k;
                    if w != i {
                        assert(s[w].key == k);
                    }
                }
                assert forall|j: int| 0 <= j < entries@.len() && (#[trigger] entries@[j]).key == key implies j == i by {
                    if j != i {
                        assert(s[j].key == key);
                        assert(s[i as int].key == key);
                    }
                }
            }
        },
        None => {
            proof {
                assert(entry_ok(s.push(e), s.len() as int));
                lemma_wf_push(s, e);
            }
            entries.push(e);
            proof {
                assert forall|k| #[trigger] has_key(entries@, k) implies has_key(s, k) || k == key by {
                    let w = choose|w: int| 0 <= w < entries@.len() && #[trigger] entries@[w].key == k;
                    if w < s.len() {
                        assert(s[w].key == k);
                    }
                }
                assert forall|j: int| 0 <= j < entries@.len() && (#[trigger] entries@[j]).key == key implies j == s.len() by {
                    if j < s.len() {
                        assert(s[j].key == key);
                    }
                }
            }
        },
    }
}

/// `w` is a walk of king moves whose tiles after the first all satisfy `ok`.
pub open spec fn king_walk(w: Seq<AbsolutePosition>, ok: spec_fn(AbsolutePosition) -> bool) -> bool {
    &&& w.len() >= 1
    &&& forall|i: int| 0 <= i < w.len() - 1 ==> #[trigger] w[i].spec_distance(w[i + 1]) == 1
    &&& forall|i: int| 1 <= i < w.len() ==> ok(#[trigger] w[i])
}

/// Some walk of `len` king moves leads from `a` to `b` over tiles that satisfy `ok`.
pub open spec fn walks(ok: spec_fn(AbsolutePosition) -> bool, a: AbsolutePosition, b: AbsolutePosition, len: nat) -> bool {
    exists|w: Seq<AbsolutePosition>|
        #[trigger] king_walk(w, ok) && w.len() == len + 1 && w[0] == a && w[w.len() - 1] == b
}

/// The tiles that the blocker never reports blocked.
pub open spec fn open_tiles<B: Fn(AbsolutePosition) -> bool>(blocked: B) -> spec_fn(AbsolutePosition) -> bool {
    |p: AbsolutePosition| !blocked.ensures((p,), true)
}

/// The tiles that the blocker may report free.
pub open spec fn free_tiles<B: Fn(AbsolutePosition) -> bool>(blocked: B) -> spec_fn(AbsolutePosition) -> bool {
    |p: AbsolutePosition| blocked.ensures((p,), false)
}

/// `len` is the length of a shortest walk from `a` to `b`: one exists over tiles reported
/// free, and none over tiles never reported blocked is shorter.
pub open spec fn shortest<B: Fn(AbsolutePosition) -> bool>(blocked: B, a: AbsolutePosition, b: AbsolutePosition, len: nat) -> bool {
    &&& walks(free_tiles(blocked), a, b, len)
    &&& forall|l: nat| #[trigger] walks(open_tiles(blocked), a, b, l) ==> len <= l
}

/// The blocker answers one way on each tile, and the estimate towards `destination` never
/// exceeds the length of an open walk: neither to the destination, nor to another tile
/// plus that tile's estimate.
pub open spec fn sound_search<B: Fn(AbsolutePosition) -> bool, H: Fn(AbsolutePosition, AbsolutePosition) -> u32>(
    blocked: B,
    heuristic: H,
    destination: AbsolutePosition,
) -> bool {
    &&& blocker_steady(blocked)
    &&& forall|p: AbsolutePosition, hp: u32, len: nat|
        #![trigger heuristic.ensures((p, destination), hp), walks(open_tiles(blocked), p, destination, len)]
        heuristic.ensures((p, destination), hp) && walks(open_tiles(blocked), p, destination, len) ==> hp <= len
    &&& forall|p: AbsolutePosition, q: AbsolutePosition, hp: u32, hq: u32, len: nat|
        #![trigger heuristic.ensures((p, destination), hp), heuristic.ensures((q, destination), hq), walks(open_tiles(blocked), p, q, len)]
        heuristic.ensures((p, destination), hp) && heuristic.ensures((q, destination), hq) && walks(
            open_tiles(blocked),
            p,
            q,
            len,
        ) ==> hp <= len + hq
}

/// Staying put is a walk.
pub proof fn lemma_walk_here(ok: spec_fn(AbsolutePosition) -> bool, a: AbsolutePosition)
    ensures
        walks(ok, a, a, 0),
{
    let w = seq![a];
    assert(king_walk(w, ok));
}

/// A walk goes on by one king move onto a tile that satisfies `ok`.
pub proof fn lemma_walk_step(ok: spec_fn(AbsolutePosition) -> bool, a: AbsolutePosition, b: AbsolutePosition, c: AbsolutePosition, len: nat)
    requires
        walks(ok, a, b, len),
        b.spec_distance(c) == 1,
        ok(c),
    ensures
        walks(ok, a, c, len + 1),
{
    let w = choose|w: Seq<AbsolutePosition>| #[trigger] king_walk(w, ok) && w.len() == len + 1 && w[0] == a && w[w.len() - 1] == b;
    let w2 = w.push(c);
    assert forall|i: int| 0 <= i < w2.len() - 1 implies #[trigger] w2[i].spec_distance(w2[i + 1]) == 1 by {
        if i < w.len() - 1 {
            assert(w[i].spec_distance(w[i + 1]) == 1);
        }
    }
    assert forall|i: int| 1 <= i < w2.len() implies ok(#[trigger] w2[i]) by {
        if i < w.len() {
            assert(ok(w[i]));
        }
    }
    assert(king_walk(w2, ok));
}

/// Both parts of a walk, cut at a tile of it, are walks.
pub proof fn lemma_walk_split(ok: spec_fn(AbsolutePosition) -> bool, w: Seq<AbsolutePosition>, k: int)
    requires
        king_walk(w, ok),
        0 <= k < w.len(),
    ensures
        walks(ok, w[0], w[k], k as nat),
        walks(ok, w[k], w[w.len() - 1], (w.len() - 1 - k) as nat),
{
    let a = w.subrange(0, k + 1);
    assert forall|i: int| 0 <= i < a.len() - 1 implies #[trigger] a[i].spec_distance(a[i + 1]) == 1 by {
        assert(w[i].spec_distance(w[i + 1]) == 1);
    }
    assert forall|i: int| 1 <= i < a.len() implies ok(#[trigger] a[i]) by {
        assert(ok(w[i]));
    }
    assert(king_walk(a, ok));
    let b = w.subrange(k, w.len() as int);
    assert forall|i: int| 0 <= i < b.len() - 1 implies #[trigger] b[i].spec_distance(b[i + 1]) == 1 by {
        assert(w[i + k].spec_distance(w[i + k + 1]) == 1);
    }
    assert forall|i: int| 1 <= i < b.len() implies ok(#[trigger] b[i]) by {
        assert(ok(w[i + k]));
    }
    assert(king_walk(b, ok));
}

/// A walk over tiles of `ok1` is one over tiles of any wider `ok2`.
pub proof fn lemma_walk_weaken(
    ok1: spec_fn(AbsolutePosition) -> bool,
    ok2: spec_fn(AbsolutePosition) -> bool,
    a: AbsolutePosition,
    b: AbsolutePosition,
    len: nat,
)
    requires
        walks(ok1, a, b, len),
        forall|p: AbsolutePosition| #[trigger] ok1(p) ==> ok2(p),
    ensures
        walks(ok2, a, b, len),
{
    let w = choose|w: Seq<AbsolutePosition>| #[trigger] king_walk(w, ok1) && w.len() == len + 1 && w[0] == a && w[w.len() - 1] == b;
    assert forall|i: int| 1 <= i < w.len() implies ok2(#[trigger] w[i]) by {
        assert(ok1(w[i]));
    }
    assert(king_walk(w, ok2));
}

/// A walk of no move stays put; one of `len` moves goes no further than `len`.
pub proof fn lemma_walk_distance(ok: spec_fn(AbsolutePosition) -> bool, a: AbsolutePosition, b: AbsolutePosition, len: nat)
    requires
        walks(ok, a, b, len),
    ensures
        a.spec_distance(b) <= len,
        len == 0 ==> a == b,
    decreases len,
{
    let w = choose|w: Seq<AbsolutePosition>| #[trigger] king_walk(w, ok) && w.len() == len + 1 && w[0] == a && w[w.len() - 1] == b;
    if len > 0 {
        lemma_walk_split(ok, w, len - 1);
        lemma_walk_distance(ok, a, w[len - 1], (len - 1) as nat);
        assert(w[len - 1].spec_distance(w[len as int]) == 1);
        lemma_distance_triangle(a, w[len - 1], b);
    }
}

/// The first tile of a walk that lies outside `d`, where its last does.
proof fn lemma_first_outside(w: Seq<AbsolutePosition>, d: Set<AbsolutePosition>, i: int) -> (k: int)
    requires
        0 <= i < w.len(),
        forall|j: int| 0 <= j < i ==> d.contains(#[trigger] w[j]),
        !d.contains(w[w.len() - 1]),
    ensures
        i <= k < w.len(),
        !d.contains(w[k]),
        forall|j: int| 0 <= j < k ==> d.contains(#[trigger] w[j]),
    decreases w.len() - i,
{
    if !d.contains(w[i]) {
        i
    } else {
        lemma_first_outside(w, d, i + 1)
    }
}

/// The distance recorded for the pair `k`.
pub open spec fn dist_of(s: Seq<PathEntry>, k: (AbsolutePosition, AbsolutePosition)) -> int {
    s[key_index(s, k)].distance as int
}

/// Entry `i` of a table built by searches from free tiles, but for `x`, the start of the
/// search under way: its ends are free (or `x`); its distance is the length of a shortest
/// walk towards each free end; a pair of one tile is at distance zero; a step at an end
/// marks a single move; and any other step splits the distance between the two halves.
pub open spec fn entry_sound<B: Fn(AbsolutePosition) -> bool>(blocked: B, s: Seq<PathEntry>, i: int, x: AbsolutePosition) -> bool {
    let e = s[i];
    &&& blocked.ensures((e.key.0,), false) || e.key.0 == x
    &&& blocked.ensures((e.key.1,), false) || e.key.1 == x
    &&& blocked.ensures((e.key.1,), false) ==> shortest(blocked, e.key.0, e.key.1, e.distance as nat)
    &&& blocked.ensures((e.key.0,), false) ==> shortest(blocked, e.key.1, e.key.0, e.distance as nat)
    &&& e.key.0 == e.key.1 ==> e.distance == 0
    &&& (e.step == e.key.0 || e.step == e.key.1) && e.key.0 != e.key.1 ==> e.distance == 1
    &&& !(e.step == e.key.0 || e.step == e.key.1) ==> dist_of(s, normalized(e.key.0, e.step)) + dist_of(
        s,
        normalized(e.step, e.key.1),
    ) == e.distance
}

pub open spec fn sound_entries<B: Fn(AbsolutePosition) -> bool>(blocked: B, s: Seq<PathEntry>, x: AbsolutePosition) -> bool {
    forall|i: int| 0 <= i < s.len() ==> #[trigger] entry_sound(blocked, s, i, x)
}

/// Every entry of the table is sound, with no exception: all its ends are free.
pub open spec fn sound_table<B: Fn(AbsolutePosition) -> bool>(blocked: B, s: Seq<PathEntry>) -> bool {
    forall|i: int|
        0 <= i < s.len() ==> blocked.ensures(((#[trigger] s[i]).key.0,), false) && blocked.ensures((s[i].key.1,), false)
            && entry_sound(blocked, s, i, s[i].key.0)
}

/// The blocker answers one way on each tile.
pub open spec fn blocker_steady<B: Fn(AbsolutePosition) -> bool>(blocked: B) -> bool {
    forall|p: AbsolutePosition, b1: bool, b2: bool|
        #![trigger blocked.ensures((p,), b1), blocked.ensures((p,), b2)]
        blocked.ensures((p,), b1) && blocked.ensures((p,), b2) ==> b1 == b2
}

/// Two walks in a row are a walk.
pub proof fn lemma_walk_concat(
    ok: spec_fn(AbsolutePosition) -> bool,
    a: AbsolutePosition,
    b: AbsolutePosition,
    c: AbsolutePosition,
    l1: nat,
    l2: nat,
)
    requires
        walks(ok, a, b, l1),
        walks(ok, b, c, l2),
    ensures
        walks(ok, a, c, l1 + l2),
    decreases l2,
{
    if l2 == 0 {
        lemma_walk_distance(ok, b, c, 0);
    } else {
        let w = choose|w: Seq<AbsolutePosition>| #[trigger] king_walk(w, ok) && w.len() == l2 + 1 && w[0] == b && w[w.len() - 1] == c;
        lemma_walk_split(ok, w, l2 - 1);
        lemma_walk_concat(ok, a, b, w[l2 - 1], l1, (l2 - 1) as nat);
        assert(w[l2 - 1].spec_distance(w[l2 as int]) == 1);
        assert(ok(w[l2 as int]));
        lemma_walk_step(ok, a, w[l2 - 1], c, (l1 + l2 - 1) as nat);
    }
}

/// A walk taken backwards, where its first tile satisfies `ok`, is a walk.
pub proof fn lemma_walk_reverse(ok: spec_fn(AbsolutePosition) -> bool, a: AbsolutePosition, b: AbsolutePosition, len: nat)
    requires
        walks(ok, a, b, len),
        ok(a),
    ensures
        walks(ok, b, a, len),
{
    let w = choose|w: Seq<AbsolutePosition>| #[trigger] king_walk(w, ok) && w.len() == len + 1 && w[0] == a && w[w.len() - 1] == b;
    let r = w.reverse();
    let n = w.len() as int;
    assert forall|i: int| 0 <= i < r.len() - 1 implies #[trigger] r[i].spec_distance(r[i + 1]) == 1 by {
        assert(r[i] == w[n - 1 - i]);
        assert(r[i + 1] == w[n - 2 - i]);
        assert(w[n - 2 - i].spec_distance(w[n - 2 - i + 1]) == 1);
    }
    assert forall|i: int| 1 <= i < r.len() implies ok(#[trigger] r[i]) by {
        assert(r[i] == w[n - 1 - i]);
        if n - 1 - i >= 1 {
            assert(ok(w[n - 1 - i]));
        }
    }
    assert(king_walk(r, ok));
    assert(r[0] == b);
    assert(r[r.len() - 1] == a);
}

/// Where the blocker answers one way, a shortest distance is unique.
pub proof fn lemma_shortest_unique<B: Fn(AbsolutePosition) -> bool>(blocked: B, a: AbsolutePosition, b: AbsolutePosition, d1: nat, d2: nat)
    requires
        blocker_steady(blocked),
        shortest(blocked, a, b, d1),
        shortest(blocked, a, b, d2),
    ensures
        d1 == d2,
{
    lemma_steady_free_open(blocked);
    lemma_walk_weaken(free_tiles(blocked), open_tiles(blocked), a, b, d1);
    lemma_walk_weaken(free_tiles(blocked), open_tiles(blocked), a, b, d2);
}

/// Where the blocker answers one way, a free tile is open.
pub proof fn lemma_steady_free_open<B: Fn(AbsolutePosition) -> bool>(blocked: B)
    requires
        blocker_steady(blocked),
    ensures
        forall|p: AbsolutePosition| #[trigger] free_tiles(blocked)(p) ==> open_tiles(blocked)(p),
{
    assert forall|p: AbsolutePosition| #[trigger] free_tiles(blocked)(p) implies open_tiles(blocked)(p) by {
        if blocked.ensures((p,), true) {
            assert(blocked.ensures((p,), false));
        }
    }
}

/// One move onto a free tile is a shortest walk.
pub proof fn lemma_shortest_move<B: Fn(AbsolutePosition) -> bool>(blocked: B, a: AbsolutePosition, b: AbsolutePosition)
    requires
        a.spec_distance(b) == 1,
        blocked.ensures((b,), false),
    ensures
        shortest(blocked, a, b, 1),
{
    lemma_walk_here(free_tiles(blocked), a);
    lemma_walk_step(free_tiles(blocked), a, a, b, 0);
    assert forall|l: nat| #[trigger] walks(open_tiles(blocked), a, b, l) implies 1 <= l by {
        lemma_walk_distance(open_tiles(blocked), a, b, l);
    }
}

/// A shortest walk backwards, where both ends are free and the blocker answers one way.
pub proof fn lemma_shortest_reverse<B: Fn(AbsolutePosition) -> bool>(blocked: B, a: AbsolutePosition, b: AbsolutePosition, d: nat)
    requires
        blocker_steady(blocked),
        shortest(blocked, a, b, d),
        blocked.ensures((a,), false),
        blocked.ensures((b,), false),
    ensures
        shortest(blocked, b, a, d),
{
    lemma_steady_free_open(blocked);
    lemma_walk_reverse(free_tiles(blocked), a, b, d);
    assert forall|l: nat| #[trigger] walks(open_tiles(blocked), b, a, l) implies d <= l by {
        assert(open_tiles(blocked)(b));
        lemma_walk_reverse(open_tiles(blocked), b, a, l);
    }
}

/// Rewriting the entries of one pair with the distance it already had keeps every recorded
/// distance.
proof fn lemma_dist_stable(s0: Seq<PathEntry>, s1: Seq<PathEntry>, k: (AbsolutePosition, AbsolutePosition), d: int)
    requires
        entries_wf(s0),
        entries_wf(s1),
        changes_only(s0, s1, k),
        forall|j: int| 0 <= j < s1.len() && #[trigger] s1[j].key == k ==> s1[j].distance == d,
        has_key(s0, k) ==> dist_of(s0, k) == d,
    ensures
        forall|q: (AbsolutePosition, AbsolutePosition)|
            #[trigger] has_key(s0, q) ==> has_key(s1, q) && dist_of(s1, q) == dist_of(s0, q),
{
    assert forall|q: (AbsolutePosition, AbsolutePosition)| #[trigger] has_key(s0, q) implies has_key(s1, q) && dist_of(s1, q)
        == dist_of(s0, q) by {
        let i = key_index(s0, q);
        assert(s0[i].key == q);
        assert(s1[i].key == q);
        lemma_key_index(s1, q, i);
    }
}

/// Recording a move from `tile` (free, or the start) onto a free `n` keeps a sound table.
proof fn lemma_sound_neighbor<B: Fn(AbsolutePosition) -> bool>(
    blocked: B,
    x: AbsolutePosition,
    s0: Seq<PathEntry>,
    s1: Seq<PathEntry>,
    tile: AbsolutePosition,
    n: AbsolutePosition,
)
    requires
        blocker_steady(blocked),
        sound_entries(blocked, s0, x),
        entries_wf(s0),
        entries_wf(s1),
        changes_only(s0, s1, normalized(tile, n)),
        steps_at_ends(s1, normalized(tile, n)),
        one_step(s1, normalized(tile, n)),
        blocked.ensures((tile,), false) || tile == x,
        blocked.ensures((n,), false),
        tile.spec_distance(n) == 1,
    ensures
        sound_entries(blocked, s1, x),
{
    let k = normalized(tile, n);
    lemma_normalized_symmetric(tile, n);
    lemma_distance_symmetric(tile, n);
    lemma_shortest_move(blocked, tile, n);
    if blocked.ensures((tile,), false) {
        lemma_shortest_move(blocked, n, tile);
    }
    if has_key(s0, k) {
        let i = key_index(s0, k);
        assert(s0[i].key == k);
        assert(entry_sound(blocked, s0, i, x));
        if k.0 == tile {
            lemma_shortest_unique(blocked, tile, n, s0[i].distance as nat, 1);
        } else {
            lemma_shortest_unique(blocked, tile, n, s0[i].distance as nat, 1);
        }
    }
    lemma_dist_stable(s0, s1, k, 1);
    assert forall|j: int| 0 <= j < s1.len() implies #[trigger] entry_sound(blocked, s1, j, x) by {
        if j < s0.len() && s0[j].key != k {
            assert(s1[j] == s0[j]);
            assert(entry_sound(blocked, s0, j, x));
            assert(entry_ok(s0, j));
            let e = s0[j];
            if !(e.step == e.key.0 || e.step == e.key.1) {
                lemma_key_before(s0, normalized(e.key.0, e.step), j);
                lemma_key_before(s0, normalized(e.step, e.key.1), j);
            }
        } else {
            assert(s1[j].key == k);
        }
    }
}

/// After a search from `start` settles `v`, the stored steps lead from `v` back to a free
/// neighbor of the start on a shortest walk.
proof fn lemma_chain_sound<B: Fn(AbsolutePosition) -> bool>(
    blocked: B,
    start: AbsolutePosition,
    s: Seq<PathEntry>,
    v: AbsolutePosition,
    fuel: nat,
)
    requires
        blocker_steady(blocked),
        entries_wf(s),
        sound_entries(blocked, s, start),
        has_key(s, normalized(start, v)),
        v != start,
        blocked.ensures((v,), false),
        fuel >= chain_rank(s, start, v),
    ensures
        shortest(blocked, start, v, dist_of(s, normalized(start, v)) as nat),
        dist_of(s, normalized(start, v)) >= 1,
        step_chain(s, start, v, fuel) matches Some(t) && start.spec_distance(t) == 1 && blocked.ensures((t,), false)
            && walks(free_tiles(blocked), t, v, (dist_of(s, normalized(start, v)) - 1) as nat),
    decreases fuel,
{
    let k = normalized(start, v);
    lemma_normalized_symmetric(start, v);
    let i = key_index(s, k);
    let e = s[i];
    assert(e.key == k);
    assert(entry_sound(blocked, s, i, start));
    let d = e.distance as nat;
    assert(shortest(blocked, start, v, d));
    lemma_walk_distance(free_tiles(blocked), start, v, d);
    let m = e.step;
    if m == start || m == v {
        assert(d == 1);
        lemma_walk_here(free_tiles(blocked), v);
    } else {
        assert(entry_ok(s, i));
        lemma_normalized_symmetric(start, m);
        lemma_normalized_symmetric(m, v);
        let k1 = normalized(start, m);
        let k2 = normalized(m, v);
        if e.key.0 == start {
            lemma_key_before(s, k1, i);
            lemma_key_before(s, k2, i);
        } else {
            lemma_key_before(s, normalized(m, start), i);
            lemma_key_before(s, normalized(v, m), i);
        }
        assert(dist_of(s, k1) + dist_of(s, k2) == d);
        let i1 = key_index(s, k1);
        assert(s[i1].key == k1);
        assert(entry_sound(blocked, s, i1, start));
        assert(blocked.ensures((m,), false));
        lemma_chain_sound(blocked, start, s, m, (fuel - 1) as nat);
        let t = step_chain(s, start, m, (fuel - 1) as nat)->0;
        let i2 = key_index(s, k2);
        assert(s[i2].key == k2);
        assert(entry_sound(blocked, s, i2, start));
        assert(shortest(blocked, m, v, dist_of(s, k2) as nat));
        lemma_walk_concat(free_tiles(blocked), t, m, v, (dist_of(s, k1) - 1) as nat, dist_of(s, k2) as nat);
    }
}

/// A tile is a shortest walk to itself.
pub proof fn lemma_shortest_zero<B: Fn(AbsolutePosition) -> bool>(blocked: B, a: AbsolutePosition)
    ensures
        shortest(blocked, a, a, 0),
{
    lemma_walk_here(free_tiles(blocked), a);
}

/// A table of searches from free tiles is sound for any search under way, and a table that
/// is sound for a search from a free tile has no exception.
pub proof fn lemma_sound_table<B: Fn(AbsolutePosition) -> bool>(blocked: B, s: Seq<PathEntry>, x: AbsolutePosition)
    ensures
        sound_table(blocked, s) ==> sound_entries(blocked, s, x),
        sound_entries(blocked, s, x) && blocked.ensures((x,), false) ==> sound_table(blocked, s),
{
    if sound_table(blocked, s) {
        assert forall|i: int| 0 <= i < s.len() implies #[trigger] entry_sound(blocked, s, i, x) by {
            assert(entry_sound(blocked, s, i, s[i].key.0));
        }
    }
    if sound_entries(blocked, s, x) && blocked.ensures((x,), false) {
        assert forall|i: int| 0 <= i < s.len() implies blocked.ensures(((#[trigger] s[i]).key.0,), false)
            && blocked.ensures((s[i].key.1,), false) && entry_sound(blocked, s, i, s[i].key.0) by {
            assert(entry_sound(blocked, s, i, x));
        }
    }
}

/// Recording the settled `tile` of a search from `start` keeps a sound table.
proof fn lemma_sound_visit<B: Fn(AbsolutePosition) -> bool>(
    blocked: B,
    start: AbsolutePosition,
    s0: Seq<PathEntry>,
    s1: Seq<PathEntry>,
    tile: AbsolutePosition,
    known: nat,
    previous: AbsolutePosition,
)
    requires
        blocker_steady(blocked),
        sound_entries(blocked, s0, start),
        entries_wf(s0),
        entries_wf(s1),
        changes_only(s0, s1, normalized(start, tile)),
        has_key(s1, normalized(start, tile)),
        forall|j: int|
            0 <= j < s0.len() && #[trigger] s0[j].key == normalized(start, tile) ==> s1[j].step == s0[j].step,
        !has_key(s0, normalized(start, tile)) ==> forall|j: int|
            0 <= j < s1.len() && #[trigger] s1[j].key == normalized(start, tile) ==> s1[j].step == previous,
        forall|j: int| 0 <= j < s1.len() && #[trigger] s1[j].key == normalized(start, tile) ==> s1[j].distance == known,
        tile == start ==> known == 0 && previous == start,
        tile != start ==> blocked.ensures((tile,), false) && shortest(blocked, start, tile, known),
        tile != start && !has_key(s0, normalized(start, tile)) ==> previous != start && previous != tile && has_key(
            s0,
            normalized(start, previous),
        ) && has_key(s0, normalized(previous, tile)) && dist_of(s0, normalized(start, previous)) + dist_of(
            s0,
            normalized(previous, tile),
        ) == known,
    ensures
        sound_entries(blocked, s1, start),
{
    let k = normalized(start, tile);
    lemma_normalized_symmetric(start, tile);
    if tile != start && blocked.ensures((start,), false) {
        lemma_shortest_reverse(blocked, start, tile, known);
    }
    if tile == start {
        lemma_shortest_zero(blocked, start);
    }
    if has_key(s0, k) {
        let i = key_index(s0, k);
        assert(s0[i].key == k);
        assert(entry_sound(blocked, s0, i, start));
        if tile != start {
            lemma_shortest_unique(blocked, start, tile, s0[i].distance as nat, known);
        }
    }
    lemma_dist_stable(s0, s1, k, known as int);
    if tile != start && !has_key(s0, k) {
        lemma_normalized_symmetric(start, previous);
        lemma_normalized_symmetric(previous, tile);
    }
    assert forall|j: int| 0 <= j < s1.len() implies #[trigger] entry_sound(blocked, s1, j, start) by {
        if j < s0.len() {
            assert(entry_sound(blocked, s0, j, start));
            assert(entry_ok(s0, j));
            let e = s0[j];
            if !(e.step == e.key.0 || e.step == e.key.1) {
                lemma_key_before(s0, normalized(e.key.0, e.step), j);
                lemma_key_before(s0, normalized(e.step, e.key.1), j);
            }
            if e.key != k {
                assert(s1[j] == e);
            } else {
                assert(s1[j].step == e.step);
                assert(s1[j].key == e.key);
            }
        } else {
            assert(s1[j].key == k);
        }
    }
}

/// A sound table that knows the pair of `start` and `destination` gives a shortest distance
/// for it, and its chain of steps a first step along a shortest walk.
proof fn lemma_known_found<B: Fn(AbsolutePosition) -> bool>(
    blocked: B,
    start: AbsolutePosition,
    destination: AbsolutePosition,
    s: Seq<PathEntry>,
)
    requires
        blocker_steady(blocked),
        entries_wf(s),
        sound_table(blocked, s),
        has_key(s, normalized(start, destination)),
    ensures
        ({
            let d = s[key_index(s, normalized(start, destination))].distance;
            &&& shortest(blocked, start, destination, d as nat)
            &&& step_chain(s, start, destination, s.len()) matches Some(t) && ((start == destination && t == destination)
                || (start.spec_distance(t) == 1 && blocked.ensures((t,), false) && walks(
                free_tiles(blocked),
                t,
                destination,
                (d - 1) as nat,
            )))
        }),
{
    let kk = normalized(start, destination);
    lemma_normalized_symmetric(start, destination);
    let ki = key_index(s, kk);
    assert(s[ki].key == kk);
    lemma_sound_table(blocked, s, start);
    assert(entry_sound(blocked, s, ki, start));
    if start == destination {
        lemma_shortest_zero(blocked, start);
    } else {
        assert(blocked.ensures((s[ki].key.0,), false) && blocked.ensures((s[ki].key.1,), false));
        assert(blocked.ensures((destination,), false));
        lemma_chain_sound(blocked, start, s, destination, s.len());
    }
}

/// The straight (Chebyshev) distance is a sound estimate for any steady blocker and any
/// destination: a walk is never shorter than it, and it obeys the triangle inequality.
pub proof fn lemma_distance_estimate<B: Fn(AbsolutePosition) -> bool, H: Fn(AbsolutePosition, AbsolutePosition) -> u32>(
    blocked: B,
    heuristic: H,
    destination: AbsolutePosition,
)
    requires
        blocker_steady(blocked),
        forall|p: AbsolutePosition, q: AbsolutePosition, h: u32| #[trigger] heuristic.ensures((p, q), h) ==> h == p.spec_distance(q),
    ensures
        sound_search(blocked, heuristic, destination),
{
    assert forall|p: AbsolutePosition, hp: u32, len: nat|
        heuristic.ensures((p, destination), hp) && walks(open_tiles(blocked), p, destination, len) implies hp <= len by {
        lemma_walk_distance(open_tiles(blocked), p, destination, len);
    }
    assert forall|p: AbsolutePosition, q: AbsolutePosition, hp: u32, hq: u32, len: nat|
        heuristic.ensures((p, destination), hp) && heuristic.ensures((q, destination), hq) && walks(
            open_tiles(blocked),
            p,
            q,
            len,
        ) implies hp <= len + hq by {
        lemma_walk_distance(open_tiles(blocked), p, q, len);
        lemma_distance_triangle(p, q, destination);
    }
}

/// A path from the start that the search may extend. `previous` is the tile it came from
/// (the start itself, for the first one).
#[derive(Clone, Copy, Debug)]
struct PartialPath {
    tile: AbsolutePosition,
    previous: AbsolutePosition,
    known_cost_so_far: u64,
    estimated_cost: u64,
    // Stabilize paths.
    known_diagonal: u64,
    estimated_diagonal: u64,
}

/// Whether the search prefers `a` to `b`: a lower estimate, then fewer estimated diagonal
/// steps, then (in an estimate tie) the path that is further along.
spec fn ranks_above(a: PartialPath, b: PartialPath) -> bool {
    a.estimated_cost < b.estimated_cost || (a.estimated_cost == b.estimated_cost && (
    a.estimated_diagonal < b.estimated_diagonal || (a.estimated_diagonal == b.estimated_diagonal
        && a.known_cost_so_far > b.known_cost_so_far)))
}

/// Where the search has settled each tile it visited: exactly the visited tiles, each at the
/// length of a walk to it over free tiles, and no open walk to it is shorter.
spec fn costs_ok<B: Fn(AbsolutePosition) -> bool>(blocked: B, start: AbsolutePosition, visited: Seq<AbsolutePosition>, costs: Map<AbsolutePosition, nat>) -> bool {
    &&& forall|p: AbsolutePosition| #[trigger] costs.contains_key(p) <==> visited.contains(p)
    &&& forall|p: AbsolutePosition| #[trigger] costs.contains_key(p) ==> walks(free_tiles(blocked), start, p, costs[p])
    &&& forall|p: AbsolutePosition, l: nat|
        costs.contains_key(p) && #[trigger] walks(open_tiles(blocked), start, p, l) ==> costs[p] <= l
}

/// A path of the frontier: its estimate is its cost plus an estimate of the heuristic, and
/// it is the start itself or one move from a settled tile onto a free one.
spec fn item_ok<B: Fn(AbsolutePosition) -> bool, H: Fn(AbsolutePosition, AbsolutePosition) -> u32>(
    blocked: B,
    heuristic: H,
    start: AbsolutePosition,
    destination: AbsolutePosition,
    costs: Map<AbsolutePosition, nat>,
    f: PartialPath,
) -> bool {
    &&& f.known_cost_so_far <= f.estimated_cost <= f.known_cost_so_far + u32::MAX
    &&& heuristic.ensures((f.tile, destination), (f.estimated_cost - f.known_cost_so_far) as u32)
    &&& (f.tile == start && f.known_cost_so_far == 0) || (costs.contains_key(f.previous) && costs[f.previous]
        <= f.known_cost_so_far && shortest(blocked, f.previous, f.tile, (f.known_cost_so_far - costs[f.previous]) as nat)
        && blocked.ensures((f.tile,), false))
}

spec fn has_item(frontier: Seq<PartialPath>, w: AbsolutePosition, bound: int) -> bool {
    exists|i: int| 0 <= i < frontier.len() && (#[trigger] frontier[i]).tile == w && frontier[i].known_cost_so_far <= bound
}

/// An open neighbor `w` of the settled tile `u` that is not settled, and that a path through
/// `u` reaches within the limit.
spec fn wanted<B: Fn(AbsolutePosition) -> bool, H: Fn(AbsolutePosition, AbsolutePosition) -> u32>(
    blocked: B,
    heuristic: H,
    destination: AbsolutePosition,
    limit: int,
    costs: Map<AbsolutePosition, nat>,
    u: AbsolutePosition,
    w: AbsolutePosition,
) -> bool {
    &&& costs.contains_key(u)
    &&& !costs.contains_key(w)
    &&& u.spec_distance(w) == 1
    &&& !blocked.ensures((w,), true)
    &&& forall|h: u32| heuristic.ensures((w, destination), h) ==> costs[u] + 1 + h <= limit
}

/// Every wanted neighbor of a settled tile outside `skip` has a path in the frontier that
/// costs no more than going through that tile.
spec fn frontier_complete<B: Fn(AbsolutePosition) -> bool, H: Fn(AbsolutePosition, AbsolutePosition) -> u32>(
    blocked: B,
    heuristic: H,
    destination: AbsolutePosition,
    limit: int,
    costs: Map<AbsolutePosition, nat>,
    frontier: Seq<PartialPath>,
    skip: Set<AbsolutePosition>,
) -> bool {
    forall|u: AbsolutePosition, w: AbsolutePosition|
        #[trigger] wanted(blocked, heuristic, destination, limit, costs, u, w) && !skip.contains(u) ==> has_item(
            frontier,
            w,
            costs[u] + 1int,
        )
}

/// A walk of at least one move ends on a tile of `ok`.
pub proof fn lemma_walk_end(ok: spec_fn(AbsolutePosition) -> bool, a: AbsolutePosition, b: AbsolutePosition, len: nat)
    requires
        walks(ok, a, b, len),
        len >= 1,
    ensures
        ok(b),
{
    let w = choose|w: Seq<AbsolutePosition>| #[trigger] king_walk(w, ok) && w.len() == len + 1 && w[0] == a && w[w.len() - 1] == b;
    assert(ok(w[len as int]));
}

/// The path popped from the frontier costs no more than any open walk to its tile.
proof fn lemma_pop_optimal<B: Fn(AbsolutePosition) -> bool, H: Fn(AbsolutePosition, AbsolutePosition) -> u32>(
    blocked: B,
    heuristic: H,
    start: AbsolutePosition,
    destination: AbsolutePosition,
    limit: int,
    visited: Seq<AbsolutePosition>,
    costs: Map<AbsolutePosition, nat>,
    before: Seq<PartialPath>,
    pi: int,
    len: nat,
)
    requires
        sound_search(blocked, heuristic, destination),
        costs_ok(blocked, start, visited, costs),
        forall|i: int| 0 <= i < before.len() ==> item_ok(blocked, heuristic, start, destination, costs, #[trigger] before[i]),
        forall|i: int| 0 <= i < before.len() ==> (#[trigger] before[i]).estimated_cost <= limit,
        frontier_complete(blocked, heuristic, destination, limit, costs, before, Set::empty()),
        costs.contains_key(start),
        0 <= pi < before.len(),
        !costs.contains_key(before[pi].tile),
        forall|j: int| 0 <= j < before.len() ==> !ranks_above(#[trigger] before[j], before[pi]),
        walks(open_tiles(blocked), start, before[pi].tile, len),
    ensures
        before[pi].known_cost_so_far <= len,
{
    let ok = open_tiles(blocked);
    let v = before[pi].tile;
    let w = choose|w: Seq<AbsolutePosition>| #[trigger] king_walk(w, ok) && w.len() == len + 1 && w[0] == start && w[w.len() - 1] == v;
    let k = lemma_first_outside(w, costs.dom(), 0);
    assert(k >= 1);
    let u = w[k - 1];
    let x = w[k];
    lemma_walk_split(ok, w, k - 1);
    lemma_walk_split(ok, w, k);
    assert(costs.contains_key(u));
    assert(costs[u] <= k - 1);
    assert(ok(x));
    assert(w[k - 1].spec_distance(w[k]) == 1);
    assert(item_ok(blocked, heuristic, start, destination, costs, before[pi]));
    let hp = (before[pi].estimated_cost - before[pi].known_cost_so_far) as u32;
    assert(heuristic.ensures((v, destination), hp));
    if forall|h: u32| heuristic.ensures((x, destination), h) ==> costs[u] + 1 + h <= limit {
        assert(wanted(blocked, heuristic, destination, limit, costs, u, x));
        let f = choose|i: int| 0 <= i < before.len() && (#[trigger] before[i]).tile == x && before[i].known_cost_so_far <= costs[u] + 1int;
        assert(item_ok(blocked, heuristic, start, destination, costs, before[f]));
        let hf = (before[f].estimated_cost - before[f].known_cost_so_far) as u32;
        assert(heuristic.ensures((x, destination), hf));
        assert(walks(ok, x, v, (len - k) as nat));
        assert(hf <= (len - k) + hp);
        assert(!ranks_above(before[f], before[pi]));
    } else {
        let h = choose|h: u32| heuristic.ensures((x, destination), h) && !(costs[u] + 1 + h <= limit);
        assert(walks(ok, x, v, (len - k) as nat));
        assert(h <= (len - k) + hp);
        assert(before[pi].estimated_cost <= limit);
    }
}

/// While the destination is unsettled and an open walk to it fits the limit, the frontier
/// is not empty.
proof fn lemma_frontier_nonempty<B: Fn(AbsolutePosition) -> bool, H: Fn(AbsolutePosition, AbsolutePosition) -> u32>(
    blocked: B,
    heuristic: H,
    start: AbsolutePosition,
    destination: AbsolutePosition,
    limit: int,
    visited: Seq<AbsolutePosition>,
    costs: Map<AbsolutePosition, nat>,
    frontier: Seq<PartialPath>,
    len: nat,
)
    requires
        sound_search(blocked, heuristic, destination),
        costs_ok(blocked, start, visited, costs),
        frontier_complete(blocked, heuristic, destination, limit, costs, frontier, Set::empty()),
        costs.contains_key(start),
        !costs.contains_key(destination),
        walks(open_tiles(blocked), start, destination, len),
        len <= limit,
    ensures
        frontier.len() > 0,
{
    let ok = open_tiles(blocked);
    let w = choose|w: Seq<AbsolutePosition>| #[trigger] king_walk(w, ok) && w.len() == len + 1 && w[0] == start && w[w.len() - 1] == destination;
    let k = lemma_first_outside(w, costs.dom(), 0);
    assert(k >= 1);
    let u = w[k - 1];
    let x = w[k];
    lemma_walk_split(ok, w, k - 1);
    lemma_walk_split(ok, w, k);
    assert(costs.contains_key(u));
    assert(costs[u] <= k - 1);
    assert(ok(x));
    assert(w[k - 1].spec_distance(w[k]) == 1);
    assert forall|h: u32| heuristic.ensures((x, destination), h) implies costs[u] + 1 + h <= limit by {
        assert(walks(ok, x, destination, (len - k) as nat));
    }
    assert(wanted(blocked, heuristic, destination, limit, costs, u, x));
}

/// What a search over a fresh table keeps true between its steps.
#[verifier::opaque]
spec fn search_state<B: Fn(AbsolutePosition) -> bool, H: Fn(AbsolutePosition, AbsolutePosition) -> u32>(
    blocked: B,
    heuristic: H,
    start: AbsolutePosition,
    destination: AbsolutePosition,
    limit: int,
    visited: Seq<AbsolutePosition>,
    costs: Map<AbsolutePosition, nat>,
    frontier: Seq<PartialPath>,
    s: Seq<PathEntry>,
    skip: Set<AbsolutePosition>,
) -> bool {
    &&& sound_search(blocked, heuristic, destination)
    &&& costs_ok(blocked, start, visited, costs)
    &&& forall|i: int| 0 <= i < frontier.len() ==> item_ok(blocked, heuristic, start, destination, costs, #[trigger] frontier[i])
    &&& frontier_complete(blocked, heuristic, destination, limit, costs, frontier, skip)
    &&& sound_entries(blocked, s, start)
    &&& !costs.contains_key(destination)
}

/// `p` moved by `d`, where that is a position.
pub open spec fn moved(p: AbsolutePosition, d: RelativePosition) -> Option<AbsolutePosition> {
    if i32::MIN <= p.x + d.dx <= i32::MAX && i32::MIN <= p.y + d.dy <= i32::MAX {
        Some(AbsolutePosition { x: (p.x + d.dx) as i32, y: (p.y + d.dy) as i32 })
    } else {
        None
    }
}

/// The move `d` from `tile`, where it lands on an open tile, is in the table.
spec fn neighbor_done<B: Fn(AbsolutePosition) -> bool>(blocked: B, s: Seq<PathEntry>, tile: AbsolutePosition, d: RelativePosition) -> bool {
    match moved(tile, d) {
        Some(w) => !blocked.ensures((w,), true) ==> has_key(s, normalized(tile, w)),
        None => true,
    }
}

/// The end of the pair of `e` that is not `tile`.
spec fn other_end(e: PathEntry, tile: AbsolutePosition) -> AbsolutePosition {
    if e.key.0 == tile {
        e.key.1
    } else {
        e.key.0
    }
}

/// The pass of the table in which the row of `tile` meets `e`.
spec fn row_pass(e: PathEntry, tile: AbsolutePosition) -> int {
    if e.key.0 == tile {
        0
    } else {
        1
    }
}

/// Where `e` pairs `tile` with a wanted neighbor, the frontier has a path to it through `tile`.
spec fn row_served<B: Fn(AbsolutePosition) -> bool, H: Fn(AbsolutePosition, AbsolutePosition) -> u32>(
    blocked: B,
    heuristic: H,
    destination: AbsolutePosition,
    limit: int,
    costs: Map<AbsolutePosition, nat>,
    frontier: Seq<PartialPath>,
    tile: AbsolutePosition,
    e: PathEntry,
) -> bool {
    (e.key.0 == tile || e.key.1 == tile) && wanted(blocked, heuristic, destination, limit, costs, tile, other_end(e, tile))
        ==> has_item(frontier, other_end(e, tile), costs[tile] + 1int)
}

proof fn lemma_push_keeps(frontier: Seq<PartialPath>, x: PartialPath)
    ensures
        forall|w: AbsolutePosition, b: int| #[trigger] has_item(frontier, w, b) ==> has_item(frontier.push(x), w, b),
{
    assert forall|w: AbsolutePosition, b: int| #[trigger] has_item(frontier, w, b) implies has_item(frontier.push(x), w, b) by {
        let i = choose|i: int| 0 <= i < frontier.len() && (#[trigger] frontier[i]).tile == w && frontier[i].known_cost_so_far <= b;
        assert(frontier.push(x)[i] == frontier[i]);
    }
}

proof fn lemma_remove_keeps(frontier: Seq<PartialPath>, pi: int)
    requires
        0 <= pi < frontier.len(),
    ensures
        forall|w: AbsolutePosition, b: int| #[trigger] has_item(frontier, w, b) && w != frontier[pi].tile ==> has_item(frontier.remove(pi), w, b),
{
    assert forall|w: AbsolutePosition, b: int| #[trigger] has_item(frontier, w, b) && w != frontier[pi].tile implies has_item(frontier.remove(pi), w, b) by {
        let i = choose|i: int| 0 <= i < frontier.len() && (#[trigger] frontier[i]).tile == w && frontier[i].known_cost_so_far <= b;
        let j = if i < pi { i } else { i - 1 };
        assert(frontier.remove(pi)[j] == frontier[i]);
    }
}

/// Settling the tile of the best path of the frontier at that path's cost keeps the search
/// state, but for the neighbors of the tile, which are yet to be explored.
proof fn lemma_settle<B: Fn(AbsolutePosition) -> bool, H: Fn(AbsolutePosition, AbsolutePosition) -> u32>(
    blocked: B,
    heuristic: H,
    start: AbsolutePosition,
    destination: AbsolutePosition,
    limit: int,
    visited_before: Seq<AbsolutePosition>,
    costs: Map<AbsolutePosition, nat>,
    before: Seq<PartialPath>,
    pi: int,
    s0: Seq<PathEntry>,
    s1: Seq<PathEntry>,
)
    requires
        search_state(blocked, heuristic, start, destination, limit, visited_before, costs, before, s0, Set::empty()),
        entries_wf(s0),
        forall|i: int| 0 <= i < before.len() ==> (#[trigger] before[i]).estimated_cost <= limit,
        0 <= pi < before.len(),
        forall|j: int| 0 <= j < before.len() ==> !ranks_above(#[trigger] before[j], before[pi]),
        !costs.contains_key(before[pi].tile),
        visited_before.len() == 0 ==> before[pi].tile == start && before[pi].known_cost_so_far == 0,
        visited_before.len() > 0 ==> visited_before[0] == start,
        changes_only(s0, s1, normalized(start, before[pi].tile)),
        has_key(s1, normalized(start, before[pi].tile)),
        forall|k| has_key(s0, k) ==> has_key(s1, k),
        entries_wf(s1),
        forall|j: int|
            0 <= j < s0.len() && #[trigger] s0[j].key == normalized(start, before[pi].tile) ==> s1[j].step == s0[j].step,
        !has_key(s0, normalized(start, before[pi].tile)) ==> forall|j: int|
            0 <= j < s1.len() && #[trigger] s1[j].key == normalized(start, before[pi].tile) ==> s1[j].step
                == before[pi].previous,
        forall|j: int|
            0 <= j < s1.len() && #[trigger] s1[j].key == normalized(start, before[pi].tile) ==> s1[j].distance
                == before[pi].known_cost_so_far,
        before[pi].tile != start ==> has_key(s0, normalized(before[pi].previous, before[pi].tile)),
        visited_before.len() == 0 ==> before[pi].previous == start,
        forall|i: int| 0 <= i < visited_before.len() ==> has_key(s0, normalized(start, #[trigger] visited_before[i])),
    ensures
        ({
            let tile = before[pi].tile;
            let c2 = costs.insert(tile, before[pi].known_cost_so_far as nat);
            &&& settled_state(blocked, heuristic, start, destination, visited_before.push(tile), c2, s1)
            &&& c2.contains_key(start)
            &&& c2.contains_key(tile) && c2[tile] == before[pi].known_cost_so_far
            &&& tile == start || blocked.ensures((tile,), false)
            &&& tile != destination ==> search_state(
                blocked,
                heuristic,
                start,
                destination,
                limit,
                visited_before.push(tile),
                c2,
                before.remove(pi),
                s1,
                set![tile],
            )
        }),
{
    reveal(search_state);
    let p = before[pi];
    let tile = p.tile;
    let kc = p.known_cost_so_far as nat;
    let c2 = costs.insert(tile, kc);
    let visited = visited_before.push(tile);
    let f2 = before.remove(pi);
    assert(item_ok(blocked, heuristic, start, destination, costs, p));
    if visited_before.len() > 0 {
        assert(visited_before.contains(visited_before[0]));
        assert(costs.contains_key(start));
    } else {
        assert forall|q: AbsolutePosition| !costs.contains_key(q) by {
            if costs.contains_key(q) {
                assert(visited_before.contains(q));
            }
        }
    }
    // The path to the tile is a walk over free tiles.
    if tile == start {
        assert(kc == 0) by {
            if visited_before.len() > 0 {
                assert(costs.contains_key(start));
            }
        }
        lemma_walk_here(free_tiles(blocked), start);
    } else {
        lemma_walk_concat(
            free_tiles(blocked),
            start,
            p.previous,
            tile,
            costs[p.previous],
            (p.known_cost_so_far - costs[p.previous]) as nat,
        );
    }
    // And no open walk to it is shorter.
    assert forall|l: nat| #[trigger] walks(open_tiles(blocked), start, tile, l) implies kc <= l by {
        if visited_before.len() > 0 {
            lemma_pop_optimal(blocked, heuristic, start, destination, limit, visited_before, costs, before, pi, l);
        }
    }
    assert forall|q: AbsolutePosition| #[trigger] c2.contains_key(q) <==> visited.contains(q) by {
        if visited_before.contains(q) {
            let k = choose|k: int| 0 <= k < visited_before.len() && visited_before[k] == q;
            assert(visited[k] == q);
        }
        if visited.contains(q) && q != tile {
            let k = choose|k: int| 0 <= k < visited.len() && visited[k] == q;
            assert(visited_before[k] == q);
        }
        assert(visited[visited_before.len() as int] == tile);
    }
    assert(costs_ok(blocked, start, visited, c2));
    assert forall|i: int| 0 <= i < f2.len() implies item_ok(blocked, heuristic, start, destination, c2, #[trigger] f2[i]) by {
        let j = if i < pi { i } else { i + 1 };
        assert(f2[i] == before[j]);
        assert(item_ok(blocked, heuristic, start, destination, costs, before[j]));
    }
    lemma_remove_keeps(before, pi);
    assert forall|u: AbsolutePosition, w: AbsolutePosition|
        #[trigger] wanted(blocked, heuristic, destination, limit, c2, u, w) && !set![tile].contains(u) implies has_item(
        f2,
        w,
        c2[u] + 1int,
    ) by {
        assert(wanted(blocked, heuristic, destination, limit, costs, u, w));
        assert(has_item(before, w, costs[u] + 1int));
    }
    // The table stays sound.
    if tile != start && !has_key(s0, normalized(start, tile)) {
        let q = p.previous;
        lemma_normalized_symmetric(start, q);
        lemma_normalized_symmetric(q, tile);
        assert(q != start);
        assert(q != tile);
        assert(visited_before.contains(q));
        let qi = choose|k: int| 0 <= k < visited_before.len() && visited_before[k] == q;
        assert(has_key(s0, normalized(start, visited_before[qi])));
        lemma_walk_distance(free_tiles(blocked), start, q, costs[q]);
        lemma_walk_end(free_tiles(blocked), start, q, costs[q]);
        let i1 = key_index(s0, normalized(start, q));
        assert(s0[i1].key == normalized(start, q));
        assert(entry_sound(blocked, s0, i1, start));
        assert(shortest(blocked, start, q, costs[q]));
        lemma_shortest_unique(blocked, start, q, s0[i1].distance as nat, costs[q]);
        let i2 = key_index(s0, normalized(q, tile));
        assert(s0[i2].key == normalized(q, tile));
        assert(entry_sound(blocked, s0, i2, start));
        lemma_shortest_unique(blocked, q, tile, s0[i2].distance as nat, (p.known_cost_so_far - costs[q]) as nat);
    }
    lemma_sound_visit(blocked, start, s0, s1, tile, kc, p.previous);
    reveal(settled_state);
}

/// Dropping a path to a settled tile keeps the search state.
proof fn lemma_state_remove<B: Fn(AbsolutePosition) -> bool, H: Fn(AbsolutePosition, AbsolutePosition) -> u32>(
    blocked: B,
    heuristic: H,
    start: AbsolutePosition,
    destination: AbsolutePosition,
    limit: int,
    visited: Seq<AbsolutePosition>,
    costs: Map<AbsolutePosition, nat>,
    before: Seq<PartialPath>,
    s: Seq<PathEntry>,
    pi: int,
)
    requires
        search_state(blocked, heuristic, start, destination, limit, visited, costs, before, s, Set::empty()),
        0 <= pi < before.len(),
        visited.contains(before[pi].tile),
    ensures
        search_state(blocked, heuristic, start, destination, limit, visited, costs, before.remove(pi), s, Set::empty()),
{
    reveal(search_state);
    lemma_remove_keeps(before, pi);
    assert forall|u: AbsolutePosition, w: AbsolutePosition|
        #[trigger] wanted(blocked, heuristic, destination, limit, costs, u, w) && !Set::<AbsolutePosition>::empty().contains(u)
        implies has_item(before.remove(pi), w, costs[u] + 1int) by {
        assert(has_item(before, w, costs[u] + 1int));
    }
    assert forall|i: int| 0 <= i < before.remove(pi).len() implies item_ok(
        blocked,
        heuristic,
        start,
        destination,
        costs,
        #[trigger] before.remove(pi)[i],
    ) by {
        assert(before.remove(pi)[i] == before[if i < pi { i } else { i + 1 }]);
    }
}

/// Recording a move from the settled tile onto a free one keeps the search state.
proof fn lemma_state_neighbor<B: Fn(AbsolutePosition) -> bool, H: Fn(AbsolutePosition, AbsolutePosition) -> u32>(
    blocked: B,
    heuristic: H,
    start: AbsolutePosition,
    destination: AbsolutePosition,
    limit: int,
    visited: Seq<AbsolutePosition>,
    costs: Map<AbsolutePosition, nat>,
    frontier: Seq<PartialPath>,
    s0: Seq<PathEntry>,
    s1: Seq<PathEntry>,
    tile: AbsolutePosition,
    n: AbsolutePosition,
)
    requires
        search_state(blocked, heuristic, start, destination, limit, visited, costs, frontier, s0, set![tile]),
        changes_only(s0, s1, normalized(tile, n)),
        steps_at_ends(s1, normalized(tile, n)),
        one_step(s1, normalized(tile, n)),
        forall|k| has_key(s0, k) ==> has_key(s1, k),
        costs.contains_key(tile),
        entries_wf(s0),
        entries_wf(s1),
        blocked.ensures((tile,), false) || tile == start,
        blocked.ensures((n,), false),
        tile.spec_distance(n) == 1,
    ensures
        search_state(blocked, heuristic, start, destination, limit, visited, costs, frontier, s1, set![tile]),
{
    reveal(search_state);
    lemma_sound_neighbor(blocked, start, s0, s1, tile, n);
}

/// An entry of the row of the settled tile whose other end is not settled records one move
/// onto a free tile.
proof fn lemma_row_entry<B: Fn(AbsolutePosition) -> bool, H: Fn(AbsolutePosition, AbsolutePosition) -> u32>(
    blocked: B,
    heuristic: H,
    start: AbsolutePosition,
    destination: AbsolutePosition,
    limit: int,
    visited: Seq<AbsolutePosition>,
    costs: Map<AbsolutePosition, nat>,
    frontier: Seq<PartialPath>,
    s: Seq<PathEntry>,
    tile: AbsolutePosition,
    i: int,
)
    requires
        search_state(blocked, heuristic, start, destination, limit, visited, costs, frontier, s, set![tile]),
        0 <= i < s.len(),
        costs.contains_key(tile),
        s[i].key.0 == tile || s[i].key.1 == tile,
        !visited.contains(other_end(s[i], tile)),
        costs.contains_key(start),
    ensures
        !costs.contains_key(other_end(s[i], tile)),
        blocked.ensures((other_end(s[i], tile),), false),
        shortest(blocked, tile, other_end(s[i], tile), s[i].distance as nat),
        wanted(blocked, heuristic, destination, limit, costs, tile, other_end(s[i], tile)) ==> s[i].distance == 1,
{
    reveal(search_state);
    let o = other_end(s[i], tile);
    assert(entry_sound(blocked, s, i, start));
    assert(o != start) by {
        if o == start {
            assert(visited.contains(start));
        }
    }
    if wanted(blocked, heuristic, destination, limit, costs, tile, o) {
        lemma_walk_here(open_tiles(blocked), tile);
        lemma_walk_step(open_tiles(blocked), tile, tile, o, 0);
        lemma_walk_distance(free_tiles(blocked), tile, o, s[i].distance as nat);
    }
}

/// Pushing a path one move from the settled tile onto a free unsettled tile keeps the
/// search state, and every path the frontier had.
proof fn lemma_state_push<B: Fn(AbsolutePosition) -> bool, H: Fn(AbsolutePosition, AbsolutePosition) -> u32>(
    blocked: B,
    heuristic: H,
    start: AbsolutePosition,
    destination: AbsolutePosition,
    limit: int,
    visited: Seq<AbsolutePosition>,
    costs: Map<AbsolutePosition, nat>,
    frontier: Seq<PartialPath>,
    s: Seq<PathEntry>,
    tile: AbsolutePosition,
    x: PartialPath,
)
    requires
        search_state(blocked, heuristic, start, destination, limit, visited, costs, frontier, s, set![tile]),
        item_ok(blocked, heuristic, start, destination, costs, x),
    ensures
        search_state(blocked, heuristic, start, destination, limit, visited, costs, frontier.push(x), s, set![tile]),
        forall|w: AbsolutePosition, b: int| #[trigger] has_item(frontier, w, b) ==> has_item(frontier.push(x), w, b),
        has_item(frontier.push(x), x.tile, x.known_cost_so_far as int),
{
    reveal(search_state);
    lemma_push_keeps(frontier, x);
    assert(frontier.push(x)[frontier.len() as int] == x);
    assert forall|i: int| 0 <= i < frontier.push(x).len() implies item_ok(
        blocked,
        heuristic,
        start,
        destination,
        costs,
        #[trigger] frontier.push(x)[i],
    ) by {
        if i < frontier.len() {
            assert(frontier.push(x)[i] == frontier[i]);
        }
    }
}

/// Once the row of the settled tile has been served, the state holds for every settled tile.
proof fn lemma_state_close<B: Fn(AbsolutePosition) -> bool, H: Fn(AbsolutePosition, AbsolutePosition) -> u32>(
    blocked: B,
    heuristic: H,
    start: AbsolutePosition,
    destination: AbsolutePosition,
    limit: int,
    visited: Seq<AbsolutePosition>,
    costs: Map<AbsolutePosition, nat>,
    frontier: Seq<PartialPath>,
    s: Seq<PathEntry>,
    tile: AbsolutePosition,
)
    requires
        search_state(blocked, heuristic, start, destination, limit, visited, costs, frontier, s, set![tile]),
        costs.contains_key(tile),
        forall|w: AbsolutePosition|
            tile.spec_distance(w) == 1 && !blocked.ensures((w,), true) ==> #[trigger] has_key(s, normalized(tile, w)),
        forall|j: int|
            0 <= j < s.len() ==> row_served(blocked, heuristic, destination, limit, costs, frontier, tile, #[trigger] s[j]),
    ensures
        search_state(blocked, heuristic, start, destination, limit, visited, costs, frontier, s, Set::empty()),
{
    reveal(search_state);
    assert forall|u: AbsolutePosition, w: AbsolutePosition|
        #[trigger] wanted(blocked, heuristic, destination, limit, costs, u, w) && !Set::<AbsolutePosition>::empty().contains(u)
        implies has_item(frontier, w, costs[u] + 1int) by {
        if u == tile {
            assert(has_key(s, normalized(tile, w)));
            let j = key_index(s, normalized(tile, w));
            assert(s[j].key == normalized(tile, w));
            lemma_normalized_symmetric(tile, w);
            assert(row_served(blocked, heuristic, destination, limit, costs, frontier, tile, s[j]));
            assert(other_end(s[j], tile) == w);
        }
    }
}

/// The parts of the search state that the lemmas on walks use.
proof fn lemma_state_parts<B: Fn(AbsolutePosition) -> bool, H: Fn(AbsolutePosition, AbsolutePosition) -> u32>(
    blocked: B,
    heuristic: H,
    start: AbsolutePosition,
    destination: AbsolutePosition,
    limit: int,
    visited: Seq<AbsolutePosition>,
    costs: Map<AbsolutePosition, nat>,
    frontier: Seq<PartialPath>,
    s: Seq<PathEntry>,
    skip: Set<AbsolutePosition>,
)
    requires
        search_state(blocked, heuristic, start, destination, limit, visited, costs, frontier, s, skip),
    ensures
        sound_search(blocked, heuristic, destination),
        costs_ok(blocked, start, visited, costs),
        frontier_complete(blocked, heuristic, destination, limit, costs, frontier, skip),
        sound_entries(blocked, s, start),
        !costs.contains_key(destination),
{
    reveal(search_state);
}

/// Once the destination is settled, the table gives its cost as a shortest distance, and
/// its chain of steps a first step along a shortest walk.
proof fn lemma_found<B: Fn(AbsolutePosition) -> bool, H: Fn(AbsolutePosition, AbsolutePosition) -> u32>(
    blocked: B,
    heuristic: H,
    start: AbsolutePosition,
    destination: AbsolutePosition,
    visited: Seq<AbsolutePosition>,
    costs: Map<AbsolutePosition, nat>,
    s: Seq<PathEntry>,
)
    requires
        settled_state(blocked, heuristic, start, destination, visited, costs, s),
        entries_wf(s),
        costs.contains_key(destination),
        has_key(s, normalized(start, destination)),
        forall|j: int|
            0 <= j < s.len() && #[trigger] s[j].key == normalized(start, destination) ==> s[j].distance == costs[destination],
    ensures
        ({
            let d = s[key_index(s, normalized(start, destination))].distance;
            &&& shortest(blocked, start, destination, d as nat)
            &&& step_chain(s, start, destination, s.len()) matches Some(t) && ((start == destination && t == destination)
                || (start.spec_distance(t) == 1 && blocked.ensures((t,), false) && walks(
                free_tiles(blocked),
                t,
                destination,
                (d - 1) as nat,
            )))
        }),
        blocked.ensures((start,), false) ==> sound_table(blocked, s),
{
    reveal(settled_state);
    lemma_sound_table(blocked, s, start);
    let kk = normalized(start, destination);
    let ki = key_index(s, kk);
    assert(s[ki].key == kk);
    if start != destination {
        assert(walks(free_tiles(blocked), start, destination, costs[destination]));
        lemma_walk_distance(free_tiles(blocked), start, destination, costs[destination]);
        lemma_walk_end(free_tiles(blocked), start, destination, costs[destination]);
        lemma_chain_sound(blocked, start, s, destination, s.len());
    }
}

/// A visited tile is settled.
proof fn lemma_state_visited<B: Fn(AbsolutePosition) -> bool, H: Fn(AbsolutePosition, AbsolutePosition) -> u32>(
    blocked: B,
    heuristic: H,
    start: AbsolutePosition,
    destination: AbsolutePosition,
    limit: int,
    visited: Seq<AbsolutePosition>,
    costs: Map<AbsolutePosition, nat>,
    frontier: Seq<PartialPath>,
    s: Seq<PathEntry>,
    skip: Set<AbsolutePosition>,
    p: AbsolutePosition,
)
    requires
        search_state(blocked, heuristic, start, destination, limit, visited, costs, frontier, s, skip),
        visited.contains(p),
    ensures
        costs.contains_key(p),
{
    reveal(search_state);
}

/// What a search knows once it has settled a tile.
#[verifier::opaque]
spec fn settled_state<B: Fn(AbsolutePosition) -> bool, H: Fn(AbsolutePosition, AbsolutePosition) -> u32>(
    blocked: B,
    heuristic: H,
    start: AbsolutePosition,
    destination: AbsolutePosition,
    visited: Seq<AbsolutePosition>,
    costs: Map<AbsolutePosition, nat>,
    s: Seq<PathEntry>,
) -> bool {
    &&& sound_search(blocked, heuristic, destination)
    &&& costs_ok(blocked, start, visited, costs)
    &&& sound_entries(blocked, s, start)
}

/// Removes and returns a path that no other path in the frontier ranks above.
fn pop_best(frontier: &mut Vec<PartialPath>) -> (r: Option<PartialPath>)
    ensures
        old(frontier).len() == 0 ==> r is None && final(frontier)@ == old(frontier)@,
        old(frontier).len() > 0 ==> exists|i: int|
            0 <= i < old(frontier).len() && r == Some(old(frontier)@[i]) && final(frontier)@ == old(
                frontier,
            )@.remove(i) && forall|j: int|
                0 <= j < old(frontier).len() ==> !ranks_above(#[trigger] old(frontier)@[j], old(frontier)@[i]),
{
    if frontier.len() == 0 {
        return None;
    }
    let mut best: usize = 0;
    let mut j: usize = 1;
    while j < frontier.len()
        invariant
            0 <= best < j <= frontier.len(),
            forall|k: int| 0 <= k < j ==> !ranks_above(#[trigger] frontier@[k], frontier@[best as int]),
        decreases frontier.len() - j,
    {
        let a = frontier[j];
        let b = frontier[best];
        if a.estimated_cost < b.estimated_cost || (a.estimated_cost == b.estimated_cost && (
        a.estimated_diagonal < b.estimated_diagonal || (a.estimated_diagonal
            == b.estimated_diagonal && a.known_cost_so_far > b.known_cost_so_far))) {
            best = j;
        }
        j += 1;
    }
    let ghost before = frontier@;
    let p = frontier.remove(best);
    proof {
        assert(before[best as int] == p);
    }
    Some(p)
}

fn contains_position(v: &Vec<AbsolutePosition>, p: AbsolutePosition) -> (r: bool)
    ensures
        r == v@.contains(p),
{
    let mut i: usize = 0;
    while i < v.len()
        invariant
            i <= v.len(),
            forall|j: int| 0 <= j < i ==> #[trigger] v@[j] != p,
        decreases v.len() - i,
    {
        if v[i].x == p.x && v[i].y == p.y {
            return true;
        }
        i += 1;
    }
    false
}

/// The number of tiles within Chebyshev distance `l` of a tile.
pub open spec fn box_size(l: int) -> int {
    (2 * l + 1) * (2 * l + 1)
}

/// Where a tile sits in the box of half-width `l` around `c`, row by row.
spec fn box_index(c: AbsolutePosition, l: int, p: AbsolutePosition) -> int {
    (p.x - c.x + l) * (2 * l + 1) + (p.y - c.y + l)
}

proof fn lemma_box_index(c: AbsolutePosition, l: int, p: AbsolutePosition, q: AbsolutePosition)
    requires
        l >= 0,
        c.spec_distance(p) <= l,
        c.spec_distance(q) <= l,
    ensures
        0 <= box_index(c, l, p) < box_size(l),
        box_index(c, l, p) == box_index(c, l, q) ==> p == q,
{
    let w = 2 * l + 1;
    let a = p.x - c.x + l;
    let b = p.y - c.y + l;
    let a2 = q.x - c.x + l;
    let b2 = q.y - c.y + l;
    assert(0 <= a < w && 0 <= b < w && 0 <= a2 < w && 0 <= b2 < w);
    assert(0 <= a * w + b < w * w) by (nonlinear_arith)
        requires
            0 <= a < w,
            0 <= b < w,
    ;
    assert(a * w + b == a2 * w + b2 ==> a == a2 && b == b2) by (nonlinear_arith)
        requires
            0 <= a < w,
            0 <= b < w,
            0 <= a2 < w,
            0 <= b2 < w,
    ;
}

/// Distinct tiles within Chebyshev distance `l` of `c` are no more than the box holds.
pub proof fn lemma_box_bound(v: Seq<AbsolutePosition>, c: AbsolutePosition, l: int)
    requires
        l >= 0,
        v.no_duplicates(),
        forall|i: int| 0 <= i < v.len() ==> c.spec_distance(#[trigger] v[i]) <= l,
    ensures
        v.len() <= box_size(l),
{
    let s = v.to_set();
    v.unique_seq_to_set();
    let f = |p: AbsolutePosition| box_index(c, l, p);
    assert forall|p: AbsolutePosition| s.contains(p) implies c.spec_distance(p) <= l by {
        let i = choose|i: int| 0 <= i < v.len() && v[i] == p;
        assert(c.spec_distance(v[i]) <= l);
    }
    assert(vstd::relations::injective_on(f, s)) by {
        assert forall|p: AbsolutePosition, q: AbsolutePosition|
            s.contains(p) && s.contains(q) && #[trigger] f(p) == #[trigger] f(q) implies p == q by {
            lemma_box_index(c, l, p, q);
        }
    }
    lemma_map_size(s, s.map(f), f);
    let range = set_int_range(0, box_size(l));
    assert(box_size(l) >= 0) by (nonlinear_arith)
        requires
            l >= 0,
    ;
    lemma_int_range(0, box_size(l));
    assert forall|i: int| s.map(f).contains(i) implies range.contains(i) by {
        let p = choose|p: AbsolutePosition| s.contains(p) && f(p) == i;
        lemma_box_index(c, l, p, p);
    }
    lemma_len_subset(s.map(f), range);
}

/// Incremental pathfinding: each search records what it proved in a table of pairs, which
/// later searches start from.
pub struct PathfindingContext<B, H> {
    // Config stuff. Don't mess with this after construction.
    blocked: B,
    heuristic: H,
    // Partial information that gets filled out over calls.
    // Imagine the Floyd-Warshall algorithm's matrix.
    entries: Vec<PathEntry>,
}

impl<B, H> PathfindingContext<B, H> where
    B: Fn(AbsolutePosition) -> bool,
    H: Fn(AbsolutePosition, AbsolutePosition) -> u32,
 {
    /// The table of pairs, in the order they were first recorded.
    pub closed spec fn table(&self) -> Seq<PathEntry> {
        self.entries@
    }

    pub closed spec fn blocker(&self) -> B {
        self.blocked
    }

    pub closed spec fn estimator(&self) -> H {
        self.heuristic
    }

    pub closed spec fn wf(&self) -> bool {
        &&& entries_wf(self.entries@)
        &&& forall|p: AbsolutePosition| #[trigger] self.blocked.requires((p,))
        &&& forall|a: AbsolutePosition, b: AbsolutePosition| #[trigger] self.heuristic.requires((a, b))
    }

    /// Whether the context knows a path between the two tiles.
    pub open spec fn knows(&self, start: AbsolutePosition, destination: AbsolutePosition) -> bool {
        has_key(self.table(), normalized(start, destination))
    }

    /// A fresh context, asked for a path to a neighbor that is not blocked, with an estimate
    /// of at most four from the destination to itself.
    pub open spec fn clear_adjacent(&self, start: AbsolutePosition, destination: AbsolutePosition) -> bool {
        &&& self.table().len() == 0
        &&& start.spec_distance(destination) == 1
        &&& forall|b: bool| self.blocker().ensures((destination,), b) ==> !b
        &&& forall|h: u32| self.estimator().ensures((destination, destination), h) ==> h <= 4
    }

    /// The table holds only what searches from free tiles found: every pair's ends are free,
    /// its distance is a shortest one, and its step splits a shortest walk.
    pub open spec fn sound(&self) -> bool {
        sound_table(self.blocker(), self.table())
    }

    /// A search that the contracts speak of: a sound table, a blocker that answers one way, an
    /// estimate towards `destination` that never overshoots, and a table that is fresh or a
    /// start that is free.
    pub open spec fn sound_search_from(&self, start: AbsolutePosition, destination: AbsolutePosition) -> bool {
        &&& self.sound()
        &&& sound_search(self.blocker(), self.estimator(), destination)
        &&& self.table().len() == 0 || self.blocker().ensures((start,), false)
    }

    /// Some open walk from `start` to `destination` is no longer than the search allows: five
    /// more than the estimate.
    pub open spec fn within_reach(&self, start: AbsolutePosition, destination: AbsolutePosition) -> bool {
        exists|len: nat|
            #[trigger] walks(open_tiles(self.blocker()), start, destination, len) && forall|h: u32|
                self.estimator().ensures((start, destination), h) ==> len <= h + 5
    }

    /// The table knows the pair, its distance is a shortest one, and the first step it gives
    /// starts a shortest walk.
    pub open spec fn found_shortest(&self, start: AbsolutePosition, destination: AbsolutePosition) -> bool {
        let s = self.table();
        let d = s[key_index(s, normalized(start, destination))].distance;
        &&& self.knows(start, destination)
        &&& shortest(self.blocker(), start, destination, d as nat)
        &&& step_chain(s, start, destination, s.len()) matches Some(t) && ((start == destination && t == destination)
            || (start.spec_distance(t) == 1 && self.blocker().ensures((t,), false) && walks(
            free_tiles(self.blocker()),
            t,
            destination,
            (d - 1) as nat,
        )))
    }

    #[must_use]
    pub fn new(blocked: B, heuristic: H) -> (r: Self)
        requires
            forall|p: AbsolutePosition| #[trigger] blocked.requires((p,)),
            forall|a: AbsolutePosition, b: AbsolutePosition| #[trigger] heuristic.requires((a, b)),
        ensures
            r.wf(),
            r.table() == Seq::<PathEntry>::empty(),
            r.sound(),
            r.blocker() == blocked,
            r.estimator() == heuristic,
    {
        Self { blocked, heuristic, entries: Vec::new() }
    }

    /// The length of the shortest path found between the two tiles, if one was found.
    pub fn known_distance(&self, start: AbsolutePosition, destination: AbsolutePosition) -> (r: Option<u64>)
        requires
            self.wf(),
        ensures
            r is Some <==> self.knows(start, destination),
            r matches Some(d) ==> d == self.table()[key_index(
                self.table(),
                normalized(start, destination),
            )].distance && d >= start.spec_distance(destination),
    {
        let key = normalize_key(start, destination);
        match find_entry(&self.entries, key) {
            Some(i) => {
                proof {
                    assert(entry_ok(self.entries@, i as int));
                    lemma_normalized_symmetric(start, destination);
                    lemma_distance_symmetric(start, destination);
                }
                Some(self.entries[i].distance)
            },
            None => None,
        }
    }

    /// Searches for a path from `start` to `destination`; true where one is known afterwards.
    /// With a blocker that answers one way and an estimate that never overshoots, on a table
    /// that is fresh or that earlier searches from free tiles filled (a sound table), and from
    /// a free start where the table is not fresh, it succeeds whenever an open walk is at most
    /// five moves longer than the estimate, what it records is a shortest distance, and the
    /// table stays sound where the start is free. Which of several shortest walks it records
    /// (its preference for fewer diagonal moves) is left unsaid.
    #[must_use]
    #[verifier::rlimit(100)]
    #[verifier::spinoff_prover]
    pub fn find_path(&mut self, start: AbsolutePosition, destination: AbsolutePosition) -> (r: bool)
        requires
            old(self).wf(),
        ensures
            final(self).wf(),
            final(self).blocker() == old(self).blocker(),
            final(self).estimator() == old(self).estimator(),
            r ==> final(self).knows(start, destination),
            old(self).knows(start, destination) ==> r && final(self).table() == old(self).table(),
            start == destination ==> r,
            forall|k| has_key(old(self).table(), k) ==> has_key(final(self).table(), k),
            forall|p: AbsolutePosition| #[trigger]
                in_table(final(self).table(), p) ==> in_table(old(self).table(), p) || p == start || final(self).blocker().ensures(
                    (p,),
                    false,
                ),
            old(self).sound_search_from(start, destination) && r ==> final(self).found_shortest(start, destination),
            old(self).sound_search_from(start, destination) && old(self).within_reach(start, destination) ==> r,
            old(self).sound_search_from(start, destination) && old(self).blocker().ensures((start,), false)
                ==> final(self).sound(),
            old(self).clear_adjacent(start, destination) ==> r && steps_at_ends(
                final(self).table(),
                normalized(start, destination),
            ),
    {
        if find_entry(&self.entries, normalize_key(start, destination)).is_some() {
            proof {
                if self.sound_search_from(start, destination) {
                    lemma_known_found(self.blocked, start, destination, self.entries@);
                }
            }
            return true;
        }
        let ghost old_table = self.entries@;
        let ghost key = normalized(start, destination);
        let ghost adj = self.clear_adjacent(start, destination);

        let h0: u32 = (self.heuristic)(start, destination);
        let optimistic_estimate: u64 = h0 as u64;
        let ghost good = self.sound_search_from(start, destination);
        let ghost hyp = self.within_reach(start, destination);
        let ghost mut costs: Map<AbsolutePosition, nat> = Map::empty();
        // Keep the frontier small.
        let limit: u64 = 5 + optimistic_estimate;
        let ghost bound = box_size(limit as int);

        // Note to programmer: don't be clever and try to reuse the table.
        let mut visited: Vec<AbsolutePosition> = Vec::new();

        let mut frontier: Vec<PartialPath> = Vec::new();
        frontier.push(
            PartialPath {
                tile: start,
                previous: start,
                known_cost_so_far: 0,
                known_diagonal: 0,
                estimated_cost: optimistic_estimate,
                estimated_diagonal: 0,
            },
        );
        proof {
            lemma_distance_symmetric(start, start);
        }

        proof {
            if good {
                assert(search_state(
                    self.blocked,
                    self.heuristic,
                    start,
                    destination,
                    limit as int,
                    visited@,
                    costs,
                    frontier@,
                    self.entries@,
                    Set::empty(),
                )) by {
                    reveal(search_state);
                    lemma_sound_table(self.blocked, self.entries@, start);
                    assert(frontier@[0].tile == start);
                }
            }
        }
        loop
            invariant
                self.wf(),
                self.blocked == old(self).blocked,
                self.heuristic == old(self).heuristic,
                forall|k| has_key(old_table, k) ==> has_key(self.entries@, k),
                has_key(old(self).entries@, normalized(start, destination)) == false,
                old_table == old(self).entries@,
                limit <= COST_CAP,
                bound == box_size(limit as int),
                visited@.no_duplicates(),
                start == destination ==> visited.len() == 0 && frontier.len() == 1 && frontier@[0].tile == start,
                key == normalized(start, destination),
                adj == old(self).clear_adjacent(start, destination),
                good == old(self).sound_search_from(start, destination),
                hyp == old(self).within_reach(start, destination),
                self.heuristic.ensures((start, destination), h0),
                limit == 5 + h0,
                forall|i: int| 0 <= i < frontier.len() ==> (#[trigger] frontier@[i]).estimated_cost <= limit,
                good ==> search_state(
                    self.blocked,
                    self.heuristic,
                    start,
                    destination,
                    limit as int,
                    visited@,
                    costs,
                    frontier@,
                    self.entries@,
                    Set::empty(),
                ),
                5 <= limit,
                visited.len() == 0 ==> frontier.len() == 1 && frontier@[0].tile == start && frontier@[0].previous == start
                    && frontier@[0].known_cost_so_far == 0 && frontier@[0].known_diagonal == 0
                    && frontier@[0].estimated_cost <= limit && self.entries@ == old_table,
                visited.len() > 0 ==> visited@[0] == start,
                adj && visited.len() > 0 ==> has_key(self.entries@, key) && steps_at_ends(self.entries@, key)
                    && !visited@.contains(destination) && exists|w: int|
                    0 <= w < frontier.len() && (#[trigger] frontier@[w]).tile == destination
                        && frontier@[w].estimated_cost <= limit,
                forall|p: AbsolutePosition| #[trigger] in_table(self.entries@, p) ==> in_table(old_table, p) || p == start || self.blocked.ensures((p,), false),
                forall|i: int| 0 <= i < frontier.len() ==> (#[trigger] frontier@[i]).tile == start || in_table(self.entries@, frontier@[i].tile),
                forall|i: int| 0 <= i < visited.len() ==> start.spec_distance(#[trigger] visited@[i]) <= limit,
                forall|i: int|
                    0 <= i < visited.len() ==> has_key(self.entries@, normalized(start, #[trigger] visited@[i])),
                forall|i: int|
                    0 <= i < frontier.len() ==> {
                        let f = #[trigger] frontier@[i];
                        &&& start.spec_distance(f.tile) <= f.known_cost_so_far <= limit
                        &&& f.known_diagonal <= f.known_cost_so_far
                        &&& (f.tile == start && f.previous == start) || (visited@.contains(f.previous)
                            && f.previous != f.tile && has_key(self.entries@, normalized(f.previous, f.tile)))
                    },
            ensures
                self.wf(),
                self.blocked == old(self).blocked,
                self.heuristic == old(self).heuristic,
                forall|k| has_key(old_table, k) ==> has_key(self.entries@, k),
                start != destination,
                forall|p: AbsolutePosition| #[trigger] in_table(self.entries@, p) ==> in_table(old_table, p) || p == start || self.blocked.ensures((p,), false),
                !adj,
                !(good && hyp),
                good ==> sound_entries(self.blocked, self.entries@, start),
            decreases bound - visited.len(), frontier.len(),
        {
            proof {
                lemma_box_bound(visited@, start, limit as int);
            }
            let ghost before = frontier@;
            let partial_path = match pop_best(&mut frontier) {
                Some(p) => p,
                None => {
                    proof {
                        if good {
                            lemma_state_parts(
                                self.blocked,
                                self.heuristic,
                                start,
                                destination,
                                limit as int,
                                visited@,
                                costs,
                                before,
                                self.entries@,
                                Set::empty(),
                            );
                        }
                        if good && hyp && visited.len() > 0 {
                            let len = choose|len: nat|
                                #[trigger] walks(open_tiles(self.blocked), start, destination, len) && forall|h: u32|
                                    self.heuristic.ensures((start, destination), h) ==> len <= h + 5;
                            assert(visited@.contains(visited@[0]));
                            lemma_state_parts(
                                self.blocked,
                                self.heuristic,
                                start,
                                destination,
                                limit as int,
                                visited@,
                                costs,
                                before,
                                self.entries@,
                                Set::empty(),
                            );
                            lemma_frontier_nonempty(
                                self.blocked,
                                self.heuristic,
                                start,
                                destination,
                                limit as int,
                                visited@,
                                costs,
                                before,
                                len,
                            );
                        }
                    }
                    break;
                },
            };
            proof {
                let i = choose|i: int| 0 <= i < before.len() && Some(partial_path) == Some(before[i])
                    && frontier@ == before.remove(i) && forall|j: int|
                    0 <= j < before.len() ==> !ranks_above(#[trigger] before[j], before[i]);
                assert(before[i] == partial_path);
                assert forall|j: int| 0 <= j < frontier.len() implies #[trigger] frontier@[j] == before[if j < i { j } else { j + 1 }] by {}
            }
            let tile = partial_path.tile;
            proof {
                assert(before[before.len() - 1] == before.last());
                let j = choose|j: int| 0 <= j < before.len() && Some(partial_path) == Some(before[j]) && frontier@
                    == before.remove(j) && forall|l: int|
                    0 <= l < before.len() ==> !ranks_above(#[trigger] before[l], before[j]);
                assert(before[j].tile == tile);
            }
            let ghost tile_ok = in_table(old_table, tile) || tile == start || self.blocked.ensures((tile,), false);
            assert(tile_ok);
            let ghost first = visited.len() == 0;
            let ghost pi = choose|i: int| 0 <= i < before.len() && Some(partial_path) == Some(before[i])
                && frontier@ == before.remove(i) && forall|j: int|
                0 <= j < before.len() ==> !ranks_above(#[trigger] before[j], before[i]);
            proof {
                assert(before[pi] == partial_path);
                lemma_remove_keeps(before, pi);
            }
            proof {
                let i = choose|i: int| 0 <= i < before.len() && Some(partial_path) == Some(before[i])
                    && frontier@ == before.remove(i) && forall|j: int|
                    0 <= j < before.len() ==> !ranks_above(#[trigger] before[j], before[i]);
                if first {
                    assert(partial_path == before[0]);
                }
                if adj && !first {
                    let w = choose|w: int|
                        0 <= w < before.len() && (#[trigger] before[w]).tile == destination
                            && before[w].estimated_cost <= limit;
                    assert(!ranks_above(before[w], before[i]));
                    if tile != destination {
                        let w2 = if w < i { w } else { w - 1 };
                        assert(frontier@[w2] == before[w]);
                        assert(exists|w: int|
                            0 <= w < frontier.len() && (#[trigger] frontier@[w]).tile == destination
                                && frontier@[w].estimated_cost <= limit);
                    }
                }
            }
            assert(first ==> tile == start && partial_path.known_cost_so_far == 0 && partial_path.known_diagonal == 0
                && partial_path.previous == start && frontier.len() == 0);
            assert(adj ==> partial_path.estimated_cost <= limit);
            assert(adj && !first && tile != destination ==> exists|w: int|
                0 <= w < frontier.len() && (#[trigger] frontier@[w]).tile == destination
                    && frontier@[w].estimated_cost <= limit);
            if contains_position(&visited, tile) {
                proof {
                    if good {
                        lemma_state_remove(
                            self.blocked,
                            self.heuristic,
                            start,
                            destination,
                            limit as int,
                            visited@,
                            costs,
                            before,
                            self.entries@,
                            pi,
                        );
                    }
                }
                continue;
            }
            proof {
                lemma_normalized_symmetric(start, tile);
                lemma_normalized_symmetric(partial_path.previous, tile);
                lemma_normalized_symmetric(start, partial_path.previous);
                if partial_path.tile != start || partial_path.previous != start {
                    let k = choose|k: int| 0 <= k < visited.len() && visited@[k] == partial_path.previous;
                    assert(has_key(self.entries@, normalized(start, visited@[k])));
                }
            }
            let ghost before_visit = self.entries@;
            record_visit(
                &mut self.entries,
                start,
                tile,
                partial_path.known_cost_so_far,
                partial_path.known_diagonal,
                partial_path.previous,
            );
            proof {
                assert forall|p: AbsolutePosition| #[trigger] in_table(self.entries@, p) implies in_table(old_table, p)
                    || p == start || self.blocked.ensures((p,), false) by {
                    lemma_in_table_add(before_visit, self.entries@, start, tile, p);
                }
                assert forall|i: int| 0 <= i < frontier.len() implies (#[trigger] frontier@[i]).tile == start || in_table(
                    self.entries@,
                    frontier@[i].tile,
                ) by {
                    if frontier@[i].tile != start {
                        lemma_in_table_grow(before_visit, self.entries@, frontier@[i].tile);
                    }
                }
                if adj {
                    lemma_normalized_symmetric(start, destination);
                    lemma_normalized_symmetric(start, tile);
                    lemma_distance_symmetric(start, destination);
                    if !first {
                        assert(visited@[0] == start);
                        assert(tile != start);
                    }
                    if tile != destination {
                        assert(normalized(start, tile) != key);
                        lemma_changes_only_keeps(before_visit, self.entries@, normalized(start, tile), key);
                    }
                }
            }
            let ghost visited_before = visited@;
            visited.push(tile);
            proof {
                assert(visited@[0] == start);
                if adj && tile != destination {
                    assert forall|k: int| 0 <= k < visited.len() implies #[trigger] visited@[k] != destination by {
                        if k < visited_before.len() {
                            assert(visited@[k] == visited_before[k]);
                            assert(visited_before.contains(visited_before[k]));
                        }
                    }
                }
                assert forall|k: int| 0 <= k < visited.len() implies has_key(
                    self.entries@,
                    normalized(start, #[trigger] visited@[k]),
                ) by {
                    if k < visited_before.len() {
                        assert(visited@[k] == visited_before[k]);
                    }
                }
                assert forall|k: int| 0 <= k < visited.len() implies start.spec_distance(
                    #[trigger] visited@[k],
                ) <= limit by {
                    if k < visited_before.len() {
                        assert(visited@[k] == visited_before[k]);
                    }
                }
                assert(visited@.no_duplicates()) by {
                    assert forall|a: int, b: int| 0 <= a < b < visited.len() implies visited@[a]
                        != visited@[b] by {
                        if b == visited_before.len() {
                            assert(visited@[a] == visited_before[a]);
                            assert(visited_before.contains(visited_before[a]));
                        } else {
                            assert(visited@[a] == visited_before[a]);
                            assert(visited@[b] == visited_before[b]);
                        }
                    }
                }
                assert forall|p: AbsolutePosition| visited_before.contains(p) implies visited@.contains(p) by {
                    let k = choose|k: int| 0 <= k < visited_before.len() && visited_before[k] == p;
                    assert(visited@[k] == p);
                }
                assert(visited@[visited_before.len() as int] == tile);
                lemma_box_bound(visited@, start, limit as int);
            }
            proof {
                if good {
                    assert(visited@ == visited_before.push(tile));
                    assert(before[pi].tile == start && before[pi].previous == start || has_key(
                        before_visit,
                        normalized(before[pi].previous, before[pi].tile),
                    ));
                    lemma_state_parts(
                        self.blocked,
                        self.heuristic,
                        start,
                        destination,
                        limit as int,
                        visited_before,
                        costs,
                        before,
                        before_visit,
                        Set::empty(),
                    );
                    assert(!visited_before.contains(tile));
                    lemma_settle(
                        self.blocked,
                        self.heuristic,
                        start,
                        destination,
                        limit as int,
                        visited_before,
                        costs,
                        before,
                        pi,
                        before_visit,
                        self.entries@,
                    );
                    costs = costs.insert(tile, partial_path.known_cost_so_far as nat);
                }
            }

            // Equivalently since we just inserted, the table knows the pair.
            if tile.x == destination.x && tile.y == destination.y {
                proof {
                    assert(tile == destination);
                    if good {
                        lemma_found(self.blocked, self.heuristic, start, destination, visited@, costs, self.entries@);
                    }
                }
                return true;
            }

            if !(partial_path.estimated_cost <= limit) {
                // Ideally this should never run, since everything in the frontier is within the limit.
                // The frontier should run out of elements instead.
                // If this does run, everything else in the frontier is known to be worse.
                return false;
            }

            // Direct neighbors have a known cost.
            // This also lets us path backwards later.
            let deltas = RelativePosition::list_all_length(1);
            let ghost d = RelativePosition { dx: (destination.x - start.x) as i32, dy: (destination.y - start.y) as i32 };
            proof {
                if adj {
                    assert(d.spec_length() == 1);
                }
            }
            let mut n: usize = 0;
            proof {
                if good {
                    assert(tile != destination);
                    assert(search_state(
                        self.blocked,
                        self.heuristic,
                        start,
                        destination,
                        limit as int,
                        visited@,
                        costs,
                        frontier@,
                        self.entries@,
                        set![tile],
                    ));
                }
            }
            while n < deltas.len()
                invariant
                    good ==> search_state(
                        self.blocked,
                        self.heuristic,
                        start,
                        destination,
                        limit as int,
                        visited@,
                        costs,
                        frontier@,
                        self.entries@,
                        set![tile],
                    ),
                    good ==> costs.contains_key(tile) && costs[tile] == partial_path.known_cost_so_far
                        && costs.contains_key(start),
                    good ==> tile == start || self.blocked.ensures((tile,), false),
                    good ==> forall|m: int| 0 <= m < n ==> neighbor_done(self.blocked, self.entries@, tile, #[trigger] deltas@[m]),
                    forall|i: int| 0 <= i < frontier.len() ==> (#[trigger] frontier@[i]).estimated_cost <= limit,
                    key == normalized(start, destination),
                    adj == old(self).clear_adjacent(start, destination),
                    adj ==> start != destination && tile != destination && !visited@.contains(destination),
                    5 <= limit,
                    first ==> tile == start && partial_path.known_cost_so_far == 0 && partial_path.known_diagonal == 0,
                    !first ==> tile != start,
                    d == (RelativePosition { dx: (destination.x - start.x) as i32, dy: (destination.y - start.y) as i32 }),
                    adj && first ==> steps_at_ends(self.entries@, key) && one_step(self.entries@, key),
                    adj && first ==> forall|m: int| 0 <= m < n && #[trigger] deltas@[m] == d ==> has_key(self.entries@, key),
                    adj && !first ==> has_key(self.entries@, key) && steps_at_ends(self.entries@, key),
                    adj && !first ==> exists|w: int|
                        0 <= w < frontier.len() && (#[trigger] frontier@[w]).tile == destination
                            && frontier@[w].estimated_cost <= limit,
                    self.wf(),
                    self.blocked == old(self).blocked,
                    self.heuristic == old(self).heuristic,
                    n <= deltas.len(),
                    forall|i: int| 0 <= i < deltas.len() ==> (#[trigger] deltas@[i]).spec_length() == 1,
                    forall|k| has_key(old_table, k) ==> has_key(self.entries@, k),
                    forall|i: int|
                        0 <= i < visited.len() ==> has_key(self.entries@, normalized(start, #[trigger] visited@[i])),
                    forall|i: int|
                        0 <= i < frontier.len() ==> {
                            let f = #[trigger] frontier@[i];
                            (f.tile == start && f.previous == start) || (visited@.contains(f.previous)
                                && f.previous != f.tile && has_key(self.entries@, normalized(f.previous, f.tile)))
                        },
                    old_table == old(self).entries@,
                    in_table(old_table, tile) || tile == start || self.blocked.ensures((tile,), false),
                    forall|p: AbsolutePosition| #[trigger] in_table(self.entries@, p) ==> in_table(old_table, p) || p == start || self.blocked.ensures((p,), false),
                    forall|i: int| 0 <= i < frontier.len() ==> (#[trigger] frontier@[i]).tile == start || in_table(self.entries@, frontier@[i].tile),
                decreases deltas.len() - n,
            {
                let delta = deltas[n];
                proof {
                    assert(deltas@[n as int].spec_length() == 1);
                }
                match (tile.x.checked_add(delta.dx), tile.y.checked_add(delta.dy)) {
                    (Some(nx), Some(ny)) => {
                        let neighbor = AbsolutePosition { x: nx, y: ny };
                        let is_blocked = (self.blocked)(neighbor);
                        proof {
                            assert(moved(tile, delta) == Some(neighbor));
                            if adj && neighbor == destination {
                                assert(old(self).blocker().ensures((destination,), is_blocked));
                            }
                        }
                        if !is_blocked {
                            let diagonal: u64 = if delta.dx != 0 && delta.dy != 0 { 1 } else { 0 };
                            let ghost s0 = self.entries@;
                            record_neighbor(&mut self.entries, tile, neighbor, diagonal);
                            proof {
                                if good {
                                    lemma_state_neighbor(
                                        self.blocked,
                                        self.heuristic,
                                        start,
                                        destination,
                                        limit as int,
                                        visited@,
                                        costs,
                                        frontier@,
                                        s0,
                                        self.entries@,
                                        tile,
                                        neighbor,
                                    );
                                    assert forall|m: int| 0 <= m < n implies neighbor_done(
                                        self.blocked,
                                        self.entries@,
                                        tile,
                                        #[trigger] deltas@[m],
                                    ) by {
                                        assert(neighbor_done(self.blocked, s0, tile, deltas@[m]));
                                        match moved(tile, deltas@[m]) {
                                            Some(w) => {
                                                if !self.blocked.ensures((w,), true) {
                                                    assert(has_key(s0, normalized(tile, w)));
                                                }
                                            },
                                            None => {},
                                        }
                                    }
                                }
                                if adj {
                                    lemma_normalized_symmetric(tile, neighbor);
                                    lemma_normalized_symmetric(start, destination);
                                    if normalized(tile, neighbor) != key {
                                        lemma_changes_only_keeps(s0, self.entries@, normalized(tile, neighbor), key);
                                    }
                                }
                                assert forall|p: AbsolutePosition| #[trigger] in_table(self.entries@, p) implies in_table(
                                    old_table,
                                    p,
                                ) || p == start || self.blocked.ensures((p,), false) by {
                                    lemma_in_table_add(s0, self.entries@, tile, neighbor, p);
                                }
                                assert forall|i: int| 0 <= i < frontier.len() implies (#[trigger] frontier@[i]).tile == start
                                    || in_table(self.entries@, frontier@[i].tile) by {
                                    if frontier@[i].tile != start {
                                        lemma_in_table_grow(s0, self.entries@, frontier@[i].tile);
                                    }
                                }
                                assert forall|i: int| 0 <= i < frontier.len() implies {
                                    let f = #[trigger] frontier@[i];
                                    (f.tile == start && f.previous == start) || (visited@.contains(f.previous)
                                        && f.previous != f.tile && has_key(self.entries@, normalized(f.previous, f.tile)))
                                } by {
                                    let f = frontier@[i];
                                    if !(f.tile == start && f.previous == start) {
                                        assert(has_key(s0, normalized(f.previous, f.tile)));
                                    }
                                }
                                assert forall|i: int| 0 <= i < visited.len() implies has_key(
                                    self.entries@,
                                    normalized(start, #[trigger] visited@[i]),
                                ) by {
                                    assert(has_key(s0, normalized(start, visited@[i])));
                                }
                            }
                        }
                    },
                    _ => {},
                }
                proof {
                    if good {
                        assert(neighbor_done(self.blocked, self.entries@, tile, deltas@[n as int]));
                    }
                }
                n += 1;
            }
            proof {
                if good {
                    assert forall|w: AbsolutePosition|
                        tile.spec_distance(w) == 1 && !self.blocked.ensures((w,), true) implies #[trigger] has_key(
                        self.entries@,
                        normalized(tile, w),
                    ) by {
                        let dd = RelativePosition { dx: (w.x - tile.x) as i32, dy: (w.y - tile.y) as i32 };
                        assert(dd.spec_length() == 1);
                        assert(deltas@.contains(dd));
                        let m = choose|m: int| 0 <= m < deltas.len() && deltas@[m] == dd;
                        assert(neighbor_done(self.blocked, self.entries@, tile, deltas@[m]));
                        assert(moved(tile, dd) == Some(w));
                    }
                }
            }

            proof {
                if adj && first {
                    assert(deltas@.contains(d));
                    let m = choose|m: int| 0 <= m < deltas.len() && deltas@[m] == d;
                    assert(deltas@[m] == d);
                }
            }
            let ghost pass_table = self.entries@;
            let ghost pk: int = if pos_le(start, destination) { 0int } else { 1int };
            let ghost ki: int = key_index(pass_table, key);
            // Add known paths: first the pairs that start here, then those that end here.
            let mut pass: u8 = 0;
            while pass < 2
                invariant
                    good ==> search_state(
                        self.blocked,
                        self.heuristic,
                        start,
                        destination,
                        limit as int,
                        visited@,
                        costs,
                        frontier@,
                        pass_table,
                        set![tile],
                    ),
                    good ==> costs.contains_key(tile) && costs[tile] == partial_path.known_cost_so_far
                        && costs.contains_key(start),
                    good ==> forall|w: AbsolutePosition|
                        tile.spec_distance(w) == 1 && !self.blocked.ensures((w,), true) ==> #[trigger] has_key(
                            pass_table,
                            normalized(tile, w),
                        ),
                    forall|i: int| 0 <= i < frontier.len() ==> (#[trigger] frontier@[i]).estimated_cost <= limit,
                    self.blocked == old(self).blocked,
                    good ==> forall|j: int|
                        0 <= j < pass_table.len() && pass > row_pass(#[trigger] pass_table[j], tile) ==> row_served(
                            self.blocked,
                            self.heuristic,
                            destination,
                            limit as int,
                            costs,
                            frontier@,
                            tile,
                            pass_table[j],
                        ),
                    self.entries@ == pass_table,
                    self.heuristic == old(self).heuristic,
                    key == normalized(start, destination),
                    adj == old(self).clear_adjacent(start, destination),
                    adj ==> start != destination && tile != destination && !visited@.contains(destination)
                        && has_key(pass_table, key) && steps_at_ends(pass_table, key),
                    5 <= limit,
                    first ==> tile == start && partial_path.known_cost_so_far == 0 && partial_path.known_diagonal == 0,
                    adj && first ==> one_step(pass_table, key) && pk == (if pos_le(start, destination) { 0int } else { 1int })
                        && ki == key_index(pass_table, key),
                    adj && !first ==> exists|w: int|
                        0 <= w < frontier.len() && (#[trigger] frontier@[w]).tile == destination
                            && frontier@[w].estimated_cost <= limit,
                    adj && first && pass > pk ==> exists|w: int|
                        0 <= w < frontier.len() && (#[trigger] frontier@[w]).tile == destination
                            && frontier@[w].estimated_cost <= limit,
                    self.wf(),
                    pass <= 2,
                    limit <= COST_CAP,
                    visited@.contains(tile),
                    start.spec_distance(tile) <= partial_path.known_cost_so_far <= limit,
                    partial_path.known_diagonal <= partial_path.known_cost_so_far,
                    forall|i: int|
                        0 <= i < frontier.len() ==> {
                            let f = #[trigger] frontier@[i];
                            &&& start.spec_distance(f.tile) <= f.known_cost_so_far <= limit
                            &&& f.known_diagonal <= f.known_cost_so_far
                            &&& (f.tile == start && f.previous == start) || (visited@.contains(f.previous)
                                && f.previous != f.tile && has_key(self.entries@, normalized(f.previous, f.tile)))
                        },
                    forall|i: int| 0 <= i < frontier.len() ==> (#[trigger] frontier@[i]).tile == start || in_table(self.entries@, frontier@[i].tile),
                decreases 2 - pass,
            {
                let mut i: usize = 0;
                while i < self.entries.len()
                    invariant
                    good ==> search_state(
                        self.blocked,
                        self.heuristic,
                        start,
                        destination,
                        limit as int,
                        visited@,
                        costs,
                        frontier@,
                        pass_table,
                        set![tile],
                    ),
                    good ==> costs.contains_key(tile) && costs[tile] == partial_path.known_cost_so_far
                        && costs.contains_key(start),
                    good ==> forall|w: AbsolutePosition|
                        tile.spec_distance(w) == 1 && !self.blocked.ensures((w,), true) ==> #[trigger] has_key(
                            pass_table,
                            normalized(tile, w),
                        ),
                    forall|i: int| 0 <= i < frontier.len() ==> (#[trigger] frontier@[i]).estimated_cost <= limit,
                    self.blocked == old(self).blocked,
                    good ==> forall|j: int|
                        0 <= j < pass_table.len() && (pass > row_pass(#[trigger] pass_table[j], tile) || (pass
                            == row_pass(pass_table[j], tile) && j < i)) ==> row_served(
                            self.blocked,
                            self.heuristic,
                            destination,
                            limit as int,
                            costs,
                            frontier@,
                            tile,
                            pass_table[j],
                        ),
                    self.entries@ == pass_table,
                    self.heuristic == old(self).heuristic,
                    key == normalized(start, destination),
                    adj == old(self).clear_adjacent(start, destination),
                    adj ==> start != destination && tile != destination && !visited@.contains(destination)
                        && has_key(pass_table, key) && steps_at_ends(pass_table, key),
                    5 <= limit,
                    first ==> tile == start && partial_path.known_cost_so_far == 0 && partial_path.known_diagonal == 0,
                    adj && first ==> one_step(pass_table, key) && pk == (if pos_le(start, destination) { 0int } else { 1int })
                        && ki == key_index(pass_table, key),
                    adj && !first ==> exists|w: int|
                        0 <= w < frontier.len() && (#[trigger] frontier@[w]).tile == destination
                            && frontier@[w].estimated_cost <= limit,
                        adj && first && (pass > pk || (pass == pk && i > ki)) ==> exists|w: int|
                            0 <= w < frontier.len() && (#[trigger] frontier@[w]).tile == destination
                                && frontier@[w].estimated_cost <= limit,
                        self.wf(),
                        i <= self.entries.len(),
                        pass < 2,
                        limit <= COST_CAP,
                        visited@.contains(tile),
                        start.spec_distance(tile) <= partial_path.known_cost_so_far <= limit,
                        partial_path.known_diagonal <= partial_path.known_cost_so_far,
                        forall|i: int|
                            0 <= i < frontier.len() ==> {
                                let f = #[trigger] frontier@[i];
                                &&& start.spec_distance(f.tile) <= f.known_cost_so_far <= limit
                                &&& f.known_diagonal <= f.known_cost_so_far
                                &&& (f.tile == start && f.previous == start) || (visited@.contains(f.previous)
                                    && f.previous != f.tile && has_key(self.entries@, normalized(f.previous, f.tile)))
                            },
                        forall|i: int| 0 <= i < frontier.len() ==> (#[trigger] frontier@[i]).tile == start || in_table(self.entries@, frontier@[i].tile),
                    decreases self.entries.len() - i,
                {
                    let e = self.entries[i];
                    proof {
                        assert(entry_ok(self.entries@, i as int));
                    }
                    let on_row = if pass == 0 {
                        e.key.0.x == tile.x && e.key.0.y == tile.y
                    } else {
                        e.key.1.x == tile.x && e.key.1.y == tile.y && !(e.key.0.x == e.key.1.x
                            && e.key.0.y == e.key.1.y)
                    };
                    proof {
                        if adj && first && pass == pk && i == ki {
                            lemma_normalized_symmetric(start, destination);
                            assert(self.entries@[i as int].key == key);
                            assert(self.entries@[i as int].distance == 1);
                        }
                    }
                    proof {
                        if good {
                            if (e.key.0 == tile || e.key.1 == tile) && pass == row_pass(e, tile) {
                                assert(on_row);
                            }
                        }
                    }
                    if on_row {
                        let other = if pass == 0 {
                            e.key.1
                        } else {
                            e.key.0
                        };
                        proof {
                            if good {
                                assert(other == other_end(e, tile));
                                assert(e.key.0 == tile || e.key.1 == tile);
                            }
                        }
                        if !contains_position(&visited, other) {
                            let cost = e.distance;
                            let known_cost_so_far = partial_path.known_cost_so_far + cost;
                            let known_diagonal = partial_path.known_diagonal + e.diagonal;
                            let hv: u32 = (self.heuristic)(other, destination);
                            proof {
                                if adj && other == destination {
                                    assert(old(self).estimator().ensures((destination, destination), hv));
                                }
                            }
                            let h: u64 = hv as u64;
                            proof {
                                if good {
                                    lemma_row_entry(
                                        self.blocked,
                                        self.heuristic,
                                        start,
                                        destination,
                                        limit as int,
                                        visited@,
                                        costs,
                                        frontier@,
                                        pass_table,
                                        tile,
                                        i as int,
                                    );
                                    if wanted(self.blocked, self.heuristic, destination, limit as int, costs, tile, other) {
                                        assert(self.heuristic.ensures((other, destination), hv));
                                    }
                                }
                            }
                            let estimated_cost = known_cost_so_far + h;
                            let dx: i64 = destination.x as i64 - other.x as i64;
                            let dy: i64 = destination.y as i64 - other.y as i64;
                            let ax: u64 = if dx < 0 { (-dx) as u64 } else { dx as u64 };
                            let ay: u64 = if dy < 0 { (-dy) as u64 } else { dy as u64 };
                            let estimated_diagonal = known_diagonal + ax + ay;
                            if estimated_cost <= limit {
                                proof {
                                    lemma_normalized_symmetric(tile, other);
                                    lemma_distance_symmetric(tile, other);
                                    lemma_distance_triangle(start, tile, other);
                                    assert(self.entries@[i as int].key == normalized(tile, other));
                                    assert(other != tile);
                                }
                                let ghost fb = frontier@;
                                frontier.push(
                                    PartialPath {
                                        tile: other,
                                        // `tile` is betweeen start and `other`.
                                        previous: tile,
                                        known_cost_so_far,
                                        estimated_cost,
                                        known_diagonal,
                                        estimated_diagonal,
                                    },
                                );
                                proof {
                                    assert forall|k: int| 0 <= k < fb.len() implies #[trigger] frontier@[k] == fb[k] by {}
                                    assert(frontier@[fb.len() as int].tile == other);
                                    if adj && exists|w: int|
                                        0 <= w < fb.len() && (#[trigger] fb[w]).tile == destination && fb[w].estimated_cost <= limit {
                                        let w = choose|w: int|
                                            0 <= w < fb.len() && (#[trigger] fb[w]).tile == destination && fb[w].estimated_cost <= limit;
                                        assert(frontier@[w] == fb[w]);
                                    }
                                    assert(in_table(self.entries@, other)) by {
                                        assert(self.entries@[i as int].key.0 == other || self.entries@[i as int].key.1 == other);
                                    }
                                    if good {
                                        assert(frontier@ == fb.push(frontier@[fb.len() as int]));
                                        assert(item_ok(
                                            self.blocked,
                                            self.heuristic,
                                            start,
                                            destination,
                                            costs,
                                            frontier@[fb.len() as int],
                                        ));
                                        lemma_state_push(
                                            self.blocked,
                                            self.heuristic,
                                            start,
                                            destination,
                                            limit as int,
                                            visited@,
                                            costs,
                                            fb,
                                            pass_table,
                                            tile,
                                            frontier@[fb.len() as int],
                                        );
                                    }
                                }
                            }
                        } else {
                            proof {
                                if good {
                                    lemma_state_visited(
                                        self.blocked,
                                        self.heuristic,
                                        start,
                                        destination,
                                        limit as int,
                                        visited@,
                                        costs,
                                        frontier@,
                                        pass_table,
                                        set![tile],
                                        other,
                                    );
                                }
                            }
                        }
                    }
                    i += 1;
                }
                pass += 1;
            }
            proof {
                if good {
                    lemma_state_close(
                        self.blocked,
                        self.heuristic,
                        start,
                        destination,
                        limit as int,
                        visited@,
                        costs,
                        frontier@,
                        pass_table,
                        tile,
                    );
                }
            }
        }
        proof {
            if good && self.blocked.ensures((start,), false) {
                lemma_sound_table(self.blocked, self.entries@, start);
            }
        }
        false
    }

    /// The first tile to step onto, on the way from `start` to `destination`.
    #[must_use]
    pub fn get_step(&self, start: AbsolutePosition, destination: AbsolutePosition) -> (r: Option<AbsolutePosition>)
        requires
            self.wf(),
        ensures
            r == step_chain(self.table(), start, destination, self.table().len()),
            r is Some <==> (start == destination || self.knows(start, destination)),
            r matches Some(t) ==> t == destination || in_table(self.table(), t),
            r matches Some(t) ==> (t == destination && start == destination) || start.spec_distance(t) == 1,
        decreases chain_rank(self.table(), start, destination),
    {
        proof {
            lemma_chain_in_table(self.entries@, start, destination, self.entries@.len());
            if start != destination && self.knows(start, destination) {
                lemma_key_index(self.entries@, normalized(start, destination), key_index(self.entries@, normalized(start, destination)));
            }
            if start == destination || self.knows(start, destination) {
                lemma_chain_adjacent(self.entries@, start, destination, self.entries@.len());
            }
        }
        if start.x == destination.x && start.y == destination.y {
            Some(destination)
        } else {
            match find_entry(&self.entries, normalize_key(start, destination)) {
                Some(i) => {
                    let intermediate = self.entries[i].step;
                    if (intermediate.x == start.x && intermediate.y == start.y) || (intermediate.x
                        == destination.x && intermediate.y == destination.y) {
                        Some(destination)
                    } else {
                        proof {
                            let s = self.entries@;
                            let e = s[i as int];
                            assert(entry_ok(s, i as int));
                            lemma_normalized_symmetric(start, destination);
                            lemma_normalized_symmetric(start, intermediate);
                            if e.key.0 == start {
                                lemma_key_before(s, normalized(start, intermediate), i as int);
                            } else {
                                lemma_key_before(s, normalized(intermediate, start), i as int);
                            }
                            lemma_chain_fuel(s, start, intermediate, (s.len() - 1) as nat, s.len());
                        }
                        self.get_step(start, intermediate)
                    }
                },
                None => None,
            }
        }
    }
}


/// Once a search has found a path, the context gives its first step: a neighbor of the
/// start, or the destination itself where the two are the same; and the length it knows is
/// at least the straight-line distance.
pub proof fn lemma_found_path_gives_step<B, H>(ctx: PathfindingContext<B, H>, start: AbsolutePosition, destination: AbsolutePosition)
    where
        B: Fn(AbsolutePosition) -> bool,
        H: Fn(AbsolutePosition, AbsolutePosition) -> u32,
    requires
        ctx.wf(),
        ctx.knows(start, destination),
    ensures
        step_chain(ctx.table(), start, destination, ctx.table().len()) matches Some(t) && ((t == destination
            && start == destination) || start.spec_distance(t) == 1),
{
    let s = ctx.table();
    if start != destination {
        lemma_key_index(s, normalized(start, destination), key_index(s, normalized(start, destination)));
    }
    lemma_chain_adjacent(s, start, destination, s.len());
}

} // verus!
