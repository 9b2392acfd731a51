//! A small map keyed by positions on the grid.
use vstd::prelude::*;

use crate::positional::AbsolutePosition;

verus! {

/// Whether no position occurs twice among the pairs.
pub open spec fn unique_keys<V>(s: Seq<(AbsolutePosition, V)>) -> bool {
    forall|i: int, j: int| 0 <= i < s.len() && 0 <= j < s.len() && i != j ==> s[i].0 != s[j].0
}

/// The pairs as a map.
pub open spec fn pairs_to_map<V>(s: Seq<(AbsolutePosition, V)>) -> Map<AbsolutePosition, V> {
    Map::new(
        |p: AbsolutePosition| exists|i: int| 0 <= i < s.len() && #[trigger] s[i].0 == p,
        |p: AbsolutePosition| s[choose|i: int| 0 <= i < s.len() && #[trigger] s[i].0 == p].1,
    )
}

proof fn lemma_map_at<V>(s: Seq<(AbsolutePosition, V)>, i: int)
    requires
        unique_keys(s),
        0 <= i < s.len(),
    ensures
        pairs_to_map(s).contains_key(s[i].0),
        pairs_to_map(s)[s[i].0] == s[i].1,
{
    let p = s[i].0;
    assert(s[i].0 == p);
    let j = choose|j: int| 0 <= j < s.len() && #[trigger] s[j].0 == p;
    assert(j == i);
}

proof fn lemma_map_update<V>(s: Seq<(AbsolutePosition, V)>, j: int, v: V)
    requires
        unique_keys(s),
        0 <= j < s.len(),
    ensures
        unique_keys(s.update(j, (s[j].0, v))),
        pairs_to_map(s.update(j, (s[j].0, v))) == pairs_to_map(s).insert(s[j].0, v),
{
    let p = s[j].0;
    let u = s.update(j, (p, v));
    assert(unique_keys(u)) by {
        assert forall|a: int, b: int| 0 <= a < u.len() && 0 <= b < u.len() && a != b implies u[a].0 != u[b].0 by {
            assert(s[a].0 == u[a].0);
            assert(s[b].0 == u[b].0);
        }
    }
    let m = pairs_to_map(u);
    let e = pairs_to_map(s).insert(p, v);
    assert forall|q: AbsolutePosition| m.contains_key(q) <==> e.contains_key(q) by {
        if m.contains_key(q) {
            let i = choose|i: int| 0 <= i < u.len() && #[trigger] u[i].0 == q;
            assert(s[i].0 == q);
        }
        if e.contains_key(q) && q != p {
            let i = choose|i: int| 0 <= i < s.len() && #[trigger] s[i].0 == q;
            assert(u[i].0 == q);
        }
        if q == p {
            assert(u[j].0 == q);
        }
    }
    assert forall|q: AbsolutePosition| m.contains_key(q) implies m[q] == e[q] by {
        let i = choose|i: int| 0 <= i < u.len() && #[trigger] u[i].0 == q;
        lemma_map_at(u, i);
        if i != j {
            lemma_map_at(s, i);
        }
    }
    assert(m =~= e);
}

proof fn lemma_map_push<V>(s: Seq<(AbsolutePosition, V)>, p: AbsolutePosition, v: V)
    requires
        unique_keys(s),
        !pairs_to_map(s).contains_key(p),
    ensures
        unique_keys(s.push((p, v))),
        pairs_to_map(s.push((p, v))) == pairs_to_map(s).insert(p, v),
{
    let u = s.push((p, v));
    assert forall|i: int| 0 <= i < s.len() implies #[trigger] s[i].0 != p by {
        if s[i].0 == p {
            assert(pairs_to_map(s).contains_key(p));
        }
    }
    assert(unique_keys(u)) by {
        assert forall|a: int, b: int| 0 <= a < u.len() && 0 <= b < u.len() && a != b implies u[a].0 != u[b].0 by {
            if a < s.len() && b < s.len() {
                assert(u[a] == s[a] && u[b] == s[b]);
            } else if a < s.len() {
                assert(u[a] == s[a]);
            } else {
                assert(u[b] == s[b]);
            }
        }
    }
    let m = pairs_to_map(u);
    let e = pairs_to_map(s).insert(p, v);
    assert forall|q: AbsolutePosition| m.contains_key(q) <==> e.contains_key(q) by {
        if m.contains_key(q) && q != p {
            let i = choose|i: int| 0 <= i < u.len() && #[trigger] u[i].0 == q;
            assert(i < s.len());
            assert(s[i].0 == q);
        }
        if e.contains_key(q) && q != p {
            let i = choose|i: int| 0 <= i < s.len() && #[trigger] s[i].0 == q;
            assert(u[i].0 == q);
        }
        if q == p {
            assert(u[s.len() as int].0 == q);
        }
    }
    assert forall|q: AbsolutePosition| m.contains_key(q) implies m[q] == e[q] by {
        let i = choose|i: int| 0 <= i < u.len() && #[trigger] u[i].0 == q;
        lemma_map_at(u, i);
        if i < s.len() {
            assert(u[i] == s[i]);
            lemma_map_at(s, i);
        }
    }
    assert(m =~= e);
}

proof fn lemma_map_remove<V>(s: Seq<(AbsolutePosition, V)>, j: int)
    requires
        unique_keys(s),
        0 <= j < s.len(),
    ensures
        unique_keys(s.remove(j)),
        pairs_to_map(s.remove(j)) == pairs_to_map(s).remove(s[j].0),
{
    let p = s[j].0;
    let u = s.remove(j);
    assert forall|i: int| 0 <= i < u.len() implies #[trigger] u[i] == s[if i < j { i } else { i + 1 }] by {}
    assert(unique_keys(u)) by {
        assert forall|a: int, b: int| 0 <= a < u.len() && 0 <= b < u.len() && a != b implies u[a].0 != u[b].0 by {
            assert(u[a] == s[if a < j { a } else { a + 1 }]);
            assert(u[b] == s[if b < j { b } else { b + 1 }]);
        }
    }
    let m = pairs_to_map(u);
    let e = pairs_to_map(s).remove(p);
    assert forall|q: AbsolutePosition| m.contains_key(q) <==> e.contains_key(q) by {
        if m.contains_key(q) {
            let i = choose|i: int| 0 <= i < u.len() && #[trigger] u[i].0 == q;
            let k = if i < j { i } else { i + 1 };
            assert(u[i] == s[k]);
            assert(s[k].0 == q);
            assert(k != j);
        }
        if e.contains_key(q) {
            let k = choose|k: int| 0 <= k < s.len() && #[trigger] s[k].0 == q;
            assert(k != j);
            let i = if k < j { k } else { k - 1 };
            assert(u[i] == s[k]);
            assert(u[i].0 == q);
        }
    }
    assert forall|q: AbsolutePosition| m.contains_key(q) implies m[q] == e[q] by {
        let i = choose|i: int| 0 <= i < u.len() && #[trigger] u[i].0 == q;
        let k = if i < j { i } else { i + 1 };
        assert(u[i] == s[k]);
        lemma_map_at(u, i);
        lemma_map_at(s, k);
    }
    assert(m =~= e);
}

/// A map from positions to small values, as a list of pairs.
#[derive(Debug)]
pub struct PosMap<V> {
    pairs: Vec<(AbsolutePosition, V)>,
}

impl<V: Copy> View for PosMap<V> {
    type V = Map<AbsolutePosition, V>;

    closed spec fn view(&self) -> Map<AbsolutePosition, V> {
        pairs_to_map(self.pairs@)
    }
}

impl<V: Copy> Clone for PosMap<V> {
    fn clone(&self) -> (r: Self)
        ensures
            r.pairs() == self.pairs(),
            r@ == self@,
            r.wf() == self.wf(),
    {
        let mut pairs: Vec<(AbsolutePosition, V)> = Vec::new();
        let mut i: usize = 0;
        while i < self.pairs.len()
            invariant
                i <= self.pairs.len(),
                pairs@ == self.pairs@.subrange(0, i as int),
            decreases self.pairs.len() - i,
        {
            pairs.push(self.pairs[i]);
            i += 1;
            proof {
                assert(pairs@ =~= self.pairs@.subrange(0, i as int));
            }
        }
        proof {
            assert(pairs@ =~= self.pairs@);
        }
        PosMap { pairs }
    }
}

impl<V: Copy> PosMap<V> {
    pub closed spec fn wf(&self) -> bool {
        unique_keys(self.pairs@)
    }

    /// The pairs, in the order they were first inserted.
    pub closed spec fn pairs(&self) -> Seq<(AbsolutePosition, V)> {
        self.pairs@
    }

    pub fn new() -> (r: Self)
        ensures
            r.wf(),
            r@ == Map::<AbsolutePosition, V>::empty(),
    {
        let r = PosMap { pairs: Vec::new() };
        proof {
            assert(r@ =~= Map::<AbsolutePosition, V>::empty());
        }
        r
    }

    fn find(&self, p: AbsolutePosition) -> (r: Option<usize>)
        requires
            self.wf(),
        ensures
            match r {
                Some(i) => i < self.pairs.len() && self.pairs@[i as int].0 == p,
                None => !self@.contains_key(p),
            },
    {
        let mut i: usize = 0;
        while i < self.pairs.len()
            invariant
                i <= self.pairs.len(),
                forall|k: int| 0 <= k < i ==> (#[trigger] self.pairs@[k]).0 != p,
            decreases self.pairs.len() - i,
        {
            if self.pairs[i].0.x == p.x && self.pairs[i].0.y == p.y {
                return Some(i);
            }
            i += 1;
        }
        None
    }

    pub fn get(&self, p: AbsolutePosition) -> (r: Option<V>)
        requires
            self.wf(),
        ensures
            r == if self@.contains_key(p) { Some(self@[p]) } else { None::<V> },
    {
        match self.find(p) {
            Some(i) => {
                proof {
                    lemma_map_at(self.pairs@, i as int);
                }
                Some(self.pairs[i].1)
            },
            None => None,
        }
    }

    pub fn insert(&mut self, p: AbsolutePosition, v: V)
        requires
            old(self).wf(),
        ensures
            final(self).wf(),
            final(self)@ == old(self)@.insert(p, v),
    {
        match self.find(p) {
            Some(i) => {
                proof {
                    lemma_map_update(self.pairs@, i as int, v);
                }
                self.pairs.set(i, (p, v));
            },
            None => {
                proof {
                    lemma_map_push(self.pairs@, p, v);
                }
                self.pairs.push((p, v));
            },
        }
    }

    /// Removes `p`, returning what it held.
    pub fn remove(&mut self, p: AbsolutePosition) -> (r: Option<V>)
        requires
            old(self).wf(),
        ensures
            final(self).wf(),
            final(self)@ == old(self)@.remove(p),
            r == if old(self)@.contains_key(p) { Some(old(self)@[p]) } else { None::<V> },
    {
        match self.find(p) {
            Some(i) => {
                proof {
                    lemma_map_at(self.pairs@, i as int);
                    lemma_map_remove(self.pairs@, i as int);
                }
                let (_, v) = self.pairs.remove(i);
                Some(v)
            },
            None => {
                proof {
                    assert(self@ =~= self@.remove(p));
                }
                None
            },
        }
    }
}

} // verus!
