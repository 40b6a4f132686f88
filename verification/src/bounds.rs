//! An axis-aligned box, as its two corners.

use crate::double::{Real, INFINITY, NEG_INFINITY};
use vstd::prelude::*;

verus! {

/// A box. Its corners are carried as they were read.
#[derive(Debug, Clone, Copy)]
pub struct Bounds {
    pub min: [Real; 3],
    pub max: [Real; 3],
}

impl Bounds {
    pub fn new(min: [Real; 3], max: [Real; 3]) -> (b: Self)
        ensures
            b == (Bounds { min, max }),
    {
        Bounds { min, max }
    }

    /// The box that holds nothing: its least corner is above every number, its
    /// greatest below.
    pub open spec fn nothing() -> Self {
        Bounds {
            min: [
                Real { bits: INFINITY },
                Real { bits: INFINITY },
                Real { bits: INFINITY },
            ],
            max: [
                Real { bits: NEG_INFINITY },
                Real { bits: NEG_INFINITY },
                Real { bits: NEG_INFINITY },
            ],
        }
    }

    /// The box that holds nothing.
    pub fn empty() -> (b: Self)
        ensures
            b == Bounds::nothing(),
    {
        let top = Real { bits: INFINITY };
        let bottom = Real { bits: NEG_INFINITY };
        Bounds { min: [top, top, top], max: [bottom, bottom, bottom] }
    }

    /// Whether an axis is inverted, as every axis of the empty box is.
    pub open spec fn inverted(self) -> bool {
        exists|i: int| 0 <= i < 3 && (#[trigger] self.max@[i]).below(self.min@[i])
    }

    /// True when no point has been added, or when an axis is inverted.
    pub fn is_empty(&self) -> (r: bool)
        ensures
            r == self.inverted(),
    {
        let mut i: usize = 0;
        while i < 3
            invariant
                i <= 3,
                forall|k: int| 0 <= k < i ==> !(#[trigger] self.max@[k]).below(self.min@[k]),
            decreases 3 - i,
        {
            if self.max[i].is_below(self.min[i]) {
                return true;
            }
            i = i + 1;
        }
        false
    }

    /// The box grown to hold a point.
    pub open spec fn grown(self, p: Seq<Real>) -> Bounds {
        Bounds {
            min: [
                lesser(self.min@[0], p[0]),
                lesser(self.min@[1], p[1]),
                lesser(self.min@[2], p[2]),
            ],
            max: [
                greater(self.max@[0], p[0]),
                greater(self.max@[1], p[1]),
                greater(self.max@[2], p[2]),
            ],
        }
    }

    /// Grows the box to hold a point.
    pub fn grow(&mut self, p: [Real; 3])
        ensures
            *final(self) == old(self).grown(p@),
    {
        let mut i: usize = 0;
        while i < 3
            invariant
                i <= 3,
                forall|k: int|
                    0 <= k < 3 ==> #[trigger] self.min@[k] == if k < i {
                        lesser(old(self).min@[k], p@[k])
                    } else {
                        old(self).min@[k]
                    },
                forall|k: int|
                    0 <= k < 3 ==> #[trigger] self.max@[k] == if k < i {
                        greater(old(self).max@[k], p@[k])
                    } else {
                        old(self).max@[k]
                    },
            decreases 3 - i,
        {
            let value = p[i];
            if value.is_below(self.min[i]) {
                self.min[i] = value;
            }
            if self.max[i].is_below(value) {
                self.max[i] = value;
            }
            i = i + 1;
        }
        let ghost g = old(self).grown(p@);
        assert(self.min =~= g.min) by {
            assert(self.min@[0] == g.min@[0]);
            assert(self.min@[1] == g.min@[1]);
            assert(self.min@[2] == g.min@[2]);
        }
        assert(self.max =~= g.max) by {
            assert(self.max@[0] == g.max@[0]);
            assert(self.max@[1] == g.max@[1]);
            assert(self.max@[2] == g.max@[2]);
        }
    }

    /// The box that holds both.
    pub open spec fn joined(self, other: Bounds) -> Bounds {
        self.grown(other.min@).grown(other.max@)
    }

    /// The box that holds both.
    pub fn union(&self, other: &Self) -> (b: Self)
        ensures
            b == self.joined(*other),
    {
        let mut b = *self;
        b.grow(other.min);
        b.grow(other.max);
        b
    }

    /// Whether a point stands in the box, its faces included.
    pub open spec fn holds(self, p: Seq<Real>) -> bool {
        forall|i: int|
            0 <= i < 3 ==> self.min@[i].at_most(#[trigger] p[i]) && p[i].at_most(self.max@[i])
    }

    /// Whether a point stands in the box, its faces included.
    pub fn contains(&self, p: [Real; 3]) -> (r: bool)
        ensures
            r == self.holds(p@),
    {
        let mut i: usize = 0;
        while i < 3
            invariant
                i <= 3,
                forall|k: int|
                    0 <= k < i ==> self.min@[k].at_most(#[trigger] p@[k]) && p@[k].at_most(
                        self.max@[k],
                    ),
            decreases 3 - i,
        {
            if !(self.min[i].is_at_most(p[i]) && p[i].is_at_most(self.max[i])) {
                assert(!(self.min@[i as int].at_most(p@[i as int]) && p@[i as int].at_most(
                    self.max@[i as int],
                )));
                return false;
            }
            i = i + 1;
        }
        true
    }
}

/// The new value where it is below the old one.
pub open spec fn lesser(old_value: Real, value: Real) -> Real {
    if value.below(old_value) {
        value
    } else {
        old_value
    }
}

/// The new value where it is above the old one.
pub open spec fn greater(old_value: Real, value: Real) -> Real {
    if old_value.below(value) {
        value
    } else {
        old_value
    }
}

/// Whether both corners of a box are numbers.
pub open spec fn measured_box(b: Bounds) -> bool {
    forall|i: int|
        0 <= i < 3 ==> (#[trigger] b.min@[i]).rank() is Some && b.max@[i].rank() is Some
}

/// A box grown by a point holds the point, and all that it held before.
pub proof fn growing_holds(b: Bounds, p: Seq<Real>, q: Seq<Real>)
    requires
        p.len() == 3,
        forall|i: int| 0 <= i < 3 ==> (#[trigger] p[i]).rank() is Some,
        measured_box(b),
    ensures
        b.grown(p).holds(p),
        b.holds(q) ==> b.grown(p).holds(q),
        measured_box(b.grown(p)),
{
    let after = b.grown(p);
    assert forall|i: int| 0 <= i < 3 implies after.min@[i].at_most(#[trigger] p[i]) && p[i].at_most(
        after.max@[i],
    ) by {
        assert(b.min@[i].rank() is Some);
        assert(after.min@[i] == lesser(b.min@[i], p[i]));
        assert(after.max@[i] == greater(b.max@[i], p[i]));
    }
    if b.holds(q) {
        assert forall|i: int| 0 <= i < 3 implies after.min@[i].at_most(#[trigger] q[i])
            && q[i].at_most(after.max@[i]) by {
            assert(b.min@[i].at_most(q[i]) && q[i].at_most(b.max@[i]));
            assert(after.min@[i] == lesser(b.min@[i], p[i]));
            assert(after.max@[i] == greater(b.max@[i], p[i]));
        }
    }
    assert forall|i: int| 0 <= i < 3 implies (#[trigger] after.min@[i]).rank() is Some
        && after.max@[i].rank() is Some by {
        assert(b.min@[i].rank() is Some);
        assert(p[i].rank() is Some);
        assert(after.min@[i] == lesser(b.min@[i], p[i]));
        assert(after.max@[i] == greater(b.max@[i], p[i]));
    }
}

/// The union of two boxes holds what either of them held.
pub proof fn union_holds_both(a: Bounds, b: Bounds, q: Seq<Real>)
    requires
        measured_box(a),
        measured_box(b),
        a.holds(q) || b.holds(q),
    ensures
        a.joined(b).holds(q),
{
    assert forall|i: int| 0 <= i < 3 implies (#[trigger] b.max@[i]).rank() is Some by {
        assert(b.min@[i].rank() is Some);
    }
    growing_holds(a, b.min@, q);
    growing_holds(a, b.min@, b.min@);
    let mid = a.grown(b.min@);
    growing_holds(mid, b.max@, q);
    growing_holds(mid, b.max@, b.min@);
    let after = mid.grown(b.max@);
    if b.holds(q) {
        assert forall|i: int| 0 <= i < 3 implies after.min@[i].at_most(#[trigger] q[i])
            && q[i].at_most(after.max@[i]) by {
            assert(b.min@[i].at_most(q[i]) && q[i].at_most(b.max@[i]));
            assert(after.min@[i].at_most(b.min@[i]));
            assert(after.holds(b.max@));
            assert(b.max@[i].at_most(after.max@[i]));
        }
    }
}

/// Growing the empty box by any finite point yields that point, so a pass over a
/// file needs no special case for the first one.
pub proof fn growing_nothing_is_the_point(p: [Real; 3])
    requires
        forall|i: int| 0 <= i < 3 ==> (#[trigger] p@[i]).finite(),
    ensures
        Bounds::nothing().grown(p@) == (Bounds { min: p, max: p }),
        Bounds::nothing().inverted(),
{
    let e = Bounds::nothing();
    let g = e.grown(p@);
    assert forall|i: int| 0 <= i < 3 implies lesser(e.min@[i], #[trigger] p@[i]) == p@[i]
        && greater(e.max@[i], p@[i]) == p@[i] by {
        assert(p@[i].finite());
    }
    assert(g.min@[0] == p@[0] && g.min@[1] == p@[1] && g.min@[2] == p@[2]);
    assert(g.max@[0] == p@[0] && g.max@[1] == p@[1] && g.max@[2] == p@[2]);
    assert(g.min =~= p);
    assert(g.max =~= p);
    assert(e.max@[0].below(e.min@[0]));
}

} // verus!
