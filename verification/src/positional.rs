//! Integer math and algorithms on a grid.
use vstd::prelude::*;

pub mod algorithms;
pub mod fov;



verus! {

/// An offset.
/// A Vector2i, like AbsolutePosition.
#[derive(Clone, Copy, Default, Debug, PartialEq, Eq, Structural, Hash, PartialOrd, Ord)]
pub struct RelativePosition {
    pub dx: i32,
    pub dy: i32,
}

pub open spec fn fits_i32(v: int) -> bool {
    i32::MIN <= v <= i32::MAX
}

pub open spec fn abs(v: int) -> int {
    if v < 0 {
        -v
    } else {
        v
    }
}

/// The Chebyshev length of `(dx, dy)`.
pub open spec fn chebyshev(dx: int, dy: int) -> int {
    if abs(dx) < abs(dy) {
        abs(dy)
    } else {
        abs(dx)
    }
}

impl vstd::std_specs::ops::AddSpecImpl for RelativePosition {
    open spec fn obeys_add_spec() -> bool {
        true
    }

    open spec fn add_req(self, rhs: Self) -> bool {
        fits_i32(self.dx + rhs.dx) && fits_i32(self.dy + rhs.dy)
    }

    open spec fn add_spec(self, rhs: Self) -> Self {
        RelativePosition { dx: (self.dx + rhs.dx) as i32, dy: (self.dy + rhs.dy) as i32 }
    }
}

impl std::ops::Add for RelativePosition {
    type Output = RelativePosition;

    fn add(self, rhs: Self) -> (r: Self::Output) {
        RelativePosition { dx: self.dx + rhs.dx, dy: self.dy + rhs.dy }
    }
}

impl vstd::std_specs::ops::MulSpecImpl<RelativePosition> for i32 {
    open spec fn obeys_mul_spec() -> bool {
        true
    }

    open spec fn mul_req(self, rhs: RelativePosition) -> bool {
        fits_i32(rhs.dx * self) && fits_i32(rhs.dy * self)
    }

    open spec fn mul_spec(self, rhs: RelativePosition) -> RelativePosition {
        RelativePosition { dx: (rhs.dx * self) as i32, dy: (rhs.dy * self) as i32 }
    }
}

impl std::ops::Mul<RelativePosition> for i32 {
    type Output = RelativePosition;

    fn mul(self, rhs: RelativePosition) -> (r: Self::Output) {
        RelativePosition { dx: rhs.dx * self, dy: rhs.dy * self }
    }
}

impl vstd::std_specs::ops::NegSpecImpl for RelativePosition {
    open spec fn obeys_neg_spec() -> bool {
        true
    }

    open spec fn neg_req(self) -> bool {
        self.dx > i32::MIN && self.dy > i32::MIN
    }

    open spec fn neg_spec(self) -> Self {
        RelativePosition { dx: -self.dx as i32, dy: -self.dy as i32 }
    }
}

impl std::ops::Neg for RelativePosition {
    type Output = RelativePosition;

    fn neg(self) -> (r: Self::Output) {
        RelativePosition { dx: -self.dx, dy: -self.dy }
    }
}

impl RelativePosition {
    pub fn new(dx: i32, dy: i32) -> (r: Self)
        ensures
            r == (RelativePosition { dx, dy }),
    {
        Self { dx, dy }
    }

    pub open spec fn spec_length(self) -> int {
        chebyshev(self.dx as int, self.dy as int)
    }

    /// The Chebyshev length: the larger of the two absolute components.
    pub fn length(self) -> (r: u32)
        ensures
            r == self.spec_length(),
    {
        let ax = unsigned_abs(self.dx);
        let ay = unsigned_abs(self.dy);
        if ax < ay {
            ay
        } else {
            ax
        }
    }

    /// All offsets of length exactly `len`, row by row.
    pub fn list_all_length(len: u16) -> (r: Vec<RelativePosition>)
        requires
            len > 0,
        ensures
            forall|i: int| 0 <= i < r.len() ==> (#[trigger] r[i]).spec_length() == len,
            forall|p: RelativePosition|
                p.spec_length() == len ==> #[trigger] r@.contains(p),
            r@.no_duplicates(),
    {
        let l: i32 = len as i32;
        let mut out: Vec<RelativePosition> = Vec::new();
        let mut dx: i32 = -l;
        while dx <= l
            invariant
                l == len,
                -l <= dx <= l + 1,
                forall|i: int| 0 <= i < out.len() ==> (#[trigger] out[i]).spec_length() == len && out[i].dx < dx,
                forall|p: RelativePosition|
                    p.spec_length() == len && p.dx < dx ==> #[trigger] out@.contains(p),
                out@.no_duplicates(),
            decreases l + 1 - dx,
        {
            let mut dy: i32 = -l;
            while dy <= l
                invariant
                    l == len,
                    -l <= dx <= l,
                    -l <= dy <= l + 1,
                    forall|i: int|
                        0 <= i < out.len() ==> (#[trigger] out[i]).spec_length() == len && (out[i].dx < dx || (
                        out[i].dx == dx && out[i].dy < dy)),
                    forall|p: RelativePosition|
                        p.spec_length() == len && (p.dx < dx || (p.dx == dx && p.dy < dy))
                            ==> #[trigger] out@.contains(p),
                    out@.no_duplicates(),
                decreases l + 1 - dy,
            {
                let p = RelativePosition { dx, dy };
                if p.length() == len as u32 {
                    proof {
                        assert(!out@.contains(p)) by {
                            if out@.contains(p) {
                                let k = choose|k: int| 0 <= k < out.len() && out@[k] == p;
                                assert(out[k].dx < dx || (out[k].dx == dx && out[k].dy < dy));
                            }
                        }
                    }
                    let ghost before = out@;
                    out.push(p);
                    proof {
                        assert forall|q: RelativePosition|
                            q.spec_length() == len && (q.dx < dx || (q.dx == dx && q.dy < dy + 1)) implies
                            #[trigger] out@.contains(q) by {
                            if q == p {
                                assert(out@[out.len() - 1] == p);
                            } else {
                                assert(before.contains(q));
                                let k = choose|k: int| 0 <= k < before.len() && before[k] == q;
                                assert(out@[k] == q);
                            }
                        }
                    }
                }
                dy = dy + 1;
            }
            dx = dx + 1;
        }
        out
    }
}

/// `|v|` as an unsigned number.
pub fn unsigned_abs(v: i32) -> (r: u32)
    ensures
        r == abs(v as int),
{
    if v < 0 {
        if v == i32::MIN {
            2147483648u32
        } else {
            (-v) as u32
        }
    } else {
        v as u32
    }
}

/// A Vector2i.
///
/// The distance function is the L-infinity norm, aka Chebyshev distance.
#[derive(Clone, Copy, Debug, PartialEq, Eq, Structural, Hash, PartialOrd, Ord)]
pub struct AbsolutePosition {
    pub x: i32,
    pub y: i32,
}

impl AbsolutePosition {
    pub fn new(x: i32, y: i32) -> (r: Self)
        ensures
            r == (AbsolutePosition { x, y }),
    {
        Self { x, y }
    }

    pub open spec fn spec_distance(self, other: AbsolutePosition) -> int {
        chebyshev(self.x - other.x, self.y - other.y)
    }

    pub fn distance(self, other: AbsolutePosition) -> (r: u32)
        ensures
            r == self.spec_distance(other),
    {
        let dx: i64 = self.x as i64 - other.x as i64;
        let dy: i64 = self.y as i64 - other.y as i64;
        let ax: i64 = if dx < 0 { -dx } else { dx };
        let ay: i64 = if dy < 0 { -dy } else { dy };
        let m: i64 = if ax < ay { ay } else { ax };
        m as u32
    }
}

impl vstd::std_specs::ops::AddSpecImpl<RelativePosition> for AbsolutePosition {
    open spec fn obeys_add_spec() -> bool {
        true
    }

    open spec fn add_req(self, rhs: RelativePosition) -> bool {
        fits_i32(self.x + rhs.dx) && fits_i32(self.y + rhs.dy)
    }

    open spec fn add_spec(self, rhs: RelativePosition) -> Self {
        AbsolutePosition { x: (self.x + rhs.dx) as i32, y: (self.y + rhs.dy) as i32 }
    }
}

// Only right addition is defined intentionally.
impl std::ops::Add<RelativePosition> for AbsolutePosition {
    type Output = AbsolutePosition;

    fn add(self, rhs: RelativePosition) -> (r: Self::Output) {
        AbsolutePosition { x: self.x + rhs.dx, y: self.y + rhs.dy }
    }
}

impl vstd::std_specs::ops::SubSpecImpl for AbsolutePosition {
    open spec fn obeys_sub_spec() -> bool {
        true
    }

    open spec fn sub_req(self, rhs: Self) -> bool {
        fits_i32(self.x - rhs.x) && fits_i32(self.y - rhs.y)
    }

    open spec fn sub_spec(self, rhs: Self) -> RelativePosition {
        RelativePosition { dx: (self.x - rhs.x) as i32, dy: (self.y - rhs.y) as i32 }
    }
}

impl std::ops::Sub for AbsolutePosition {
    type Output = RelativePosition;

    fn sub(self, rhs: Self) -> (r: Self::Output) {
        RelativePosition { dx: self.x - rhs.x, dy: self.y - rhs.y }
    }
}

/// A position inside the first octant, `0 <= rise <= run`.
#[derive(Clone, Copy, Debug, PartialEq, Eq, Structural, Hash, PartialOrd, Ord)]
pub struct InsideOctant {
    pub rise: u32,
    pub run: u32,
}

impl InsideOctant {
    pub fn new(rise: u32, run: u32) -> (r: Self)
        ensures
            r == (InsideOctant { rise, run }),
    {
        Self { rise, run }
    }
}

/// An alternate representation of a RelativePosition that hides direction.
/// `rise <= run`; the octant says how to turn the pair back into an offset.
#[derive(Clone, Copy, Default, Debug, PartialEq, Eq, Structural, Hash)]
pub struct OctantRelative {
    pub run: u32,
    pub rise: u32,
    pub octant: u8,  // Treat as a black box.
}

impl OctantRelative {
    pub fn ignore_octant(rise: u32, run: u32) -> (r: Self)
        ensures
            r == (OctantRelative { run, rise, octant: 0 }),
    {
        Self { run, rise, octant: 0 }
    }

    // If you are working in an octant, you are not likely to exit the octant.
    pub fn in_same_octant(&self, rise: u32, run: u32) -> (r: Self)
        ensures
            r == (OctantRelative { run, rise, octant: self.octant }),
    {
        Self { rise, run, octant: self.octant }
    }

    pub fn from_inside(inside: InsideOctant, octant: u8) -> (r: Self)
        ensures
            r == (OctantRelative { run: inside.run, rise: inside.rise, octant }),
    {
        Self { run: inside.run, rise: inside.rise, octant }
    }

    pub open spec fn inside(self) -> InsideOctant {
        InsideOctant { rise: self.rise, run: self.run }
    }
}

/// The octant of `(dx, dy)`: bit 2 for `dy < 0`, bit 1 for `dx < 0`, bit 0 for steep.
pub open spec fn octant_of(dx: int, dy: int) -> u8 {
    ((if dy < 0 { 4int } else { 0 }) + (if dx < 0 { 2int } else { 0 }) + (if abs(dy) > abs(dx) {
        1int
    } else {
        0
    })) as u8
}

pub open spec fn octant_relative_of(p: RelativePosition) -> OctantRelative {
    OctantRelative {
        run: chebyshev(p.dx as int, p.dy as int) as u32,
        rise: (if abs(p.dx as int) < abs(p.dy as int) {
            abs(p.dx as int)
        } else {
            abs(p.dy as int)
        }) as u32,
        octant: octant_of(p.dx as int, p.dy as int),
    }
}

/// The offset of an octant-relative position, as unbounded integers.
pub open spec fn octant_offset(o: OctantRelative) -> (int, int) {
    let (a, b) = if o.octant % 2 == 1 {
        (o.rise as int, o.run as int)
    } else {
        (o.run as int, o.rise as int)
    };
    (
        if (o.octant / 2) % 2 == 1 { -a } else { a },
        if (o.octant / 4) % 2 == 1 { -b } else { b },
    )
}

impl vstd::std_specs::convert::FromSpecImpl<RelativePosition> for OctantRelative {
    open spec fn obeys_from_spec() -> bool {
        true
    }

    open spec fn from_spec(v: RelativePosition) -> Self {
        octant_relative_of(v)
    }
}

impl From<RelativePosition> for OctantRelative {
    fn from(value: RelativePosition) -> (r: Self) {
        let ax = unsigned_abs(value.dx);
        let ay = unsigned_abs(value.dy);
        let run = if ax < ay { ay } else { ax };
        let rise = if ax < ay { ax } else { ay };
        let octant: u8 = (if value.dy < 0 { 4u8 } else { 0u8 }) + (if value.dx < 0 { 2u8 } else { 0u8 })
            + (if ay > ax { 1u8 } else { 0u8 });
        Self { run, rise, octant }
    }
}

/// Whether turning `o` back into an offset stays inside `i32`.
pub open spec fn octant_offset_fits(o: OctantRelative) -> bool {
    fits_i32(octant_offset(o).0) && fits_i32(octant_offset(o).1)
}

/// Turns an octant-relative position back into an offset.
pub fn relative_of_octant(value: OctantRelative) -> (r: RelativePosition)
    requires
        octant_offset_fits(value),
    ensures
        r.dx == octant_offset(value).0,
        r.dy == octant_offset(value).1,
{
    let steep = value.octant % 2 == 1;
    let (a, b) = if steep {
        (value.rise, value.run)
    } else {
        (value.run, value.rise)
    };
    let flip_x = (value.octant / 2) % 2 == 1;
    let flip_y = (value.octant / 4) % 2 == 1;
    let dx: i32 = if flip_x {
        if a == 2147483648u32 {
            i32::MIN
        } else {
            -(a as i32)
        }
    } else {
        a as i32
    };
    let dy: i32 = if flip_y {
        if b == 2147483648u32 {
            i32::MIN
        } else {
            -(b as i32)
        }
    } else {
        b as i32
    };
    RelativePosition { dx, dy }
}

/// Hiding the direction of an offset and restoring it gives the same offset.
pub proof fn lemma_octant_roundtrip(p: RelativePosition)
    ensures
        octant_offset_fits(octant_relative_of(p)),
        octant_offset(octant_relative_of(p)) == (p.dx as int, p.dy as int),
        octant_relative_of(p).rise <= octant_relative_of(p).run,
{
}

} // verus!
