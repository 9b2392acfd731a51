use vstd::prelude::*;

use crate::geom::coords::dir_offset;
use crate::geom::coords::Coords;
use crate::geom::coords::PlanarProjection;
use crate::geom::grid::spec_inverse;
use crate::geom::grid::Direction;
use crate::geom::grid::Grid;
use crate::geom::grid::TileEq;

verus! {

/// The longest word a `FreeGroup` element holds. Longer walks leave the space.
pub const MAX_WORD_LEN: u8 = 32;

/// An example of a space with layers: the free group on "up" and "right".
///
/// An element is a reduced word of steps; walking never returns to an element unless
/// the walk is undone step by step. The word is stored in base 4, last step lowest.
#[derive(Debug, Clone, Copy, PartialEq, Eq, Structural, Hash)]
pub struct FreeGroup {
    len: u8,
    word: u64,
}

pub open spec fn digit_dir(d: int) -> Direction {
    if d == 0 {
        Direction::Up
    } else if d == 1 {
        Direction::Down
    } else if d == 2 {
        Direction::Left
    } else {
        Direction::Right
    }
}

pub open spec fn dir_digit(d: Direction) -> int {
    match d {
        Direction::Up => 0,
        Direction::Down => 1,
        Direction::Left => 2,
        Direction::Right => 3,
    }
}

pub open spec fn pow4(n: nat) -> nat
    decreases n,
{
    if n == 0 {
        1
    } else {
        4 * pow4((n - 1) as nat)
    }
}

/// The steps of the word, first step first.
pub open spec fn word_steps(len: nat, word: nat) -> Seq<Direction>
    decreases len,
{
    if len == 0 {
        Seq::empty()
    } else {
        word_steps((len - 1) as nat, word / 4).push(digit_dir((word % 4) as int))
    }
}

/// No step is directly undone by the next one.
pub open spec fn reduced(len: nat, word: nat) -> bool
    decreases len,
{
    if len <= 1 {
        true
    } else {
        &&& digit_dir(((word / 4) % 4) as int) != spec_inverse(digit_dir((word % 4) as int))
        &&& reduced((len - 1) as nat, word / 4)
    }
}

/// The sum of the unit steps of the word.
pub open spec fn word_projection(len: nat, word: nat) -> (int, int)
    decreases len,
{
    if len == 0 {
        (0, 0)
    } else {
        let rest = word_projection((len - 1) as nat, word / 4);
        let step = dir_offset(digit_dir((word % 4) as int));
        (rest.0 + step.0, rest.1 + step.1)
    }
}

pub proof fn lemma_projection_bounded(len: nat, word: nat)
    ensures
        -(len as int) <= word_projection(len, word).0 <= len,
        -(len as int) <= word_projection(len, word).1 <= len,
    decreases len,
{
    if len > 0 {
        lemma_projection_bounded((len - 1) as nat, word / 4);
    }
}

impl FreeGroup {
    pub closed spec fn wf(&self) -> bool {
        &&& self.len <= MAX_WORD_LEN
        &&& self.word < pow4(self.len as nat)
        &&& reduced(self.len as nat, self.word as nat)
    }

    pub closed spec fn spec_len(&self) -> nat {
        self.len as nat
    }

    pub closed spec fn spec_word(&self) -> nat {
        self.word as nat
    }

    /// The reduced word of steps that reaches this element.
    pub open spec fn steps(&self) -> Seq<Direction> {
        word_steps(self.spec_len(), self.spec_word())
    }

    pub closed spec fn spec_go_free(&self, dir: Direction) -> Option<FreeGroup> {
        if self.len > 0 && digit_dir((self.word % 4) as int) == spec_inverse(dir) {
            Some(FreeGroup { len: (self.len - 1) as u8, word: self.word / 4 })
        } else if self.len < MAX_WORD_LEN && self.word * 4 + dir_digit(dir) <= u64::MAX {
            Some(FreeGroup { len: (self.len + 1) as u8, word: (self.word * 4 + dir_digit(dir)) as u64 })
        } else {
            None
        }
    }

    /// The identity: the empty word.
    pub fn new_empty() -> (r: Self)
        ensures
            r.wf(),
            r.steps() == Seq::<Direction>::empty(),
    {
        FreeGroup { len: 0, word: 0 }
    }
}

impl Grid for FreeGroup {
    type Neighbor = FreeGroup;

    open spec fn spec_go(&self, dir: Direction) -> Option<FreeGroup> {
        self.spec_go_free(dir)
    }

    fn go(&self, dir: Direction) -> (r: Option<FreeGroup>) {
        let top = self.word % 4;
        let inverse_digit: u64 = match dir {
            Direction::Up => 1,
            Direction::Down => 0,
            Direction::Left => 3,
            Direction::Right => 2,
        };
        if self.len > 0 && top == inverse_digit {
            return Some(FreeGroup { len: self.len - 1, word: self.word / 4 });
        }
        let digit: u64 = match dir {
            Direction::Up => 0,
            Direction::Down => 1,
            Direction::Left => 2,
            Direction::Right => 3,
        };
        if self.len >= MAX_WORD_LEN {
            return None;
        }
        match self.word.checked_mul(4) {
            Some(shifted) => match shifted.checked_add(digit) {
                Some(word) => Some(FreeGroup { len: self.len + 1, word }),
                None => None,
            },
            None => None,
        }
    }
}

impl PlanarProjection for FreeGroup {
    open spec fn projectable(&self) -> bool {
        true
    }

    closed spec fn spec_project(&self) -> Coords {
        let p = word_projection(self.len as nat, self.word as nat);
        Coords { x: p.0 as i32, y: p.1 as i32 }
    }

    fn project_coords(&self) -> (r: Coords) {
        let mut x: i32 = 0;
        let mut y: i32 = 0;
        let mut remaining: u8 = self.len;
        let mut word: u64 = self.word;
        let ghost len = self.len as nat;
        assert(pow4(0) == 1) by {
            reveal_with_fuel(pow4, 1);
        }
        assert((len - remaining) as nat == 0);
        assert((self.word as nat) / 1 == self.word as nat);
        while remaining > 0
            invariant
                remaining <= len,
                len == self.len,
                word as nat == (self.word as nat) / pow4((len - remaining) as nat),
                x + word_projection(remaining as nat, word as nat).0 == word_projection(
                    len,
                    self.word as nat,
                ).0,
                y + word_projection(remaining as nat, word as nat).1 == word_projection(
                    len,
                    self.word as nat,
                ).1,
                -(len - remaining) <= x <= len - remaining,
                -(len - remaining) <= y <= len - remaining,
            decreases remaining,
        {
            proof {
                lemma_projection_bounded((remaining - 1) as nat, (word / 4) as nat);
                lemma_div_pow4_step(self.word as nat, (len - remaining) as nat);
            }
            match word % 4 {
                0 => { y = y + 1; },
                1 => { y = y - 1; },
                2 => { x = x - 1; },
                _ => { x = x + 1; },
            }
            word = word / 4;
            remaining = remaining - 1;
        }
        proof {
            lemma_projection_bounded(len, self.word as nat);
        }
        Coords { x, y }
    }
}

proof fn lemma_div_pow4_step(w: nat, k: nat)
    ensures
        (w / pow4(k)) / 4 == w / pow4(k + 1),
{
    assert(pow4(k + 1) == 4 * pow4(k));
    lemma_pow4_positive(k);
    vstd::arithmetic::div_mod::lemma_div_denominator(w as int, pow4(k) as int, 4);
    assert(pow4(k) * 4 == 4 * pow4(k)) by (nonlinear_arith);
}

proof fn lemma_pow4_positive(k: nat)
    ensures
        pow4(k) > 0,
    decreases k,
{
    if k > 0 {
        lemma_pow4_positive((k - 1) as nat);
    }
}

impl TileEq for FreeGroup {
    open spec fn same_tile(&self, other: &Self) -> bool {
        *self == *other
    }

    fn tile_eq(&self, other: &Self) -> (r: bool) {
        self.len == other.len && self.word == other.word
    }

    fn duplicate(&self) -> (r: Self) {
        *self
    }

    proof fn lemma_same_tile_equivalence(a: Self, b: Self, c: Self) {
    }
}

/// Walking one step and then back returns to the same element.
pub proof fn lemma_free_group_go_inverse(g: FreeGroup, dir: Direction)
    requires
        g.wf(),
    ensures
        g.spec_go(dir) matches Some(n) ==> n.wf() && n.spec_go(spec_inverse(dir)) == Some(g),
{
    reveal_with_fuel(reduced, 2);
    reveal_with_fuel(pow4, 2);
    if let Some(n) = g.spec_go(dir) {
        let w = g.word as nat;
        if g.len > 0 && digit_dir((g.word % 4) as int) == spec_inverse(dir) {
            // popped
            assert(n.word == w / 4);
            assert(pow4(g.len as nat) == 4 * pow4((g.len - 1) as nat));
            assert(n.word < pow4(n.len as nat));
            assert(n.wf());
            let d = (w % 4) as int;
            assert(w == (w / 4) * 4 + w % 4);
            if n.len > 0 {
                assert(digit_dir(((w / 4) % 4) as int) != spec_inverse(digit_dir(d)));
            } else {
                assert(pow4(0) == 1);
                assert(w / 4 == 0);
            }
            assert(n.spec_go(spec_inverse(dir)) == Some(g));
        } else {
            // pushed
            let nw = w * 4 + dir_digit(dir);
            assert(n.word == nw);
            assert(nw % 4 == dir_digit(dir));
            assert(nw / 4 == w);
            assert(pow4(n.len as nat) == 4 * pow4(g.len as nat));
            assert(n.word < pow4(n.len as nat));
            if g.len > 0 {
                assert(digit_dir(((nw / 4) % 4) as int) != spec_inverse(digit_dir((nw % 4) as int)));
            }
            assert(n.wf());
            assert(n.spec_go(spec_inverse(dir)) == Some(g));
        }
    }
}

/// Walking one step moves the projection by exactly the offset of the step.
pub proof fn lemma_free_group_projection_follows_steps(g: FreeGroup, dir: Direction)
    requires
        g.wf(),
    ensures
        g.spec_go(dir) matches Some(n) ==> n.spec_project().x == g.spec_project().x + dir_offset(dir).0
            && n.spec_project().y == g.spec_project().y + dir_offset(dir).1,
{
    if let Some(n) = g.spec_go(dir) {
        lemma_free_group_go_inverse(g, dir);
        let w = g.word as nat;
        lemma_projection_bounded(g.len as nat, w);
        lemma_projection_bounded(n.len as nat, n.word as nat);
        if g.len > 0 && digit_dir((g.word % 4) as int) == spec_inverse(dir) {
            let d = (w % 4) as int;
            assert(word_projection(g.len as nat, w) == {
                let rest = word_projection((g.len - 1) as nat, w / 4);
                let step = dir_offset(digit_dir(d));
                (rest.0 + step.0, rest.1 + step.1)
            });
            assert(n.word == w / 4);
        } else {
            let nw = w * 4 + dir_digit(dir);
            assert(n.word == nw);
            assert(nw % 4 == dir_digit(dir));
            assert(nw / 4 == w);
            assert(digit_dir(dir_digit(dir)) == dir);
        }
    }
}

} // verus!
