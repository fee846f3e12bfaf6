//! Offsets of positions in a node.
use vstd::prelude::*;

verus! {

/// Offset in a node.
///
/// Either a position counted from `0`, or the position just before the
/// first one, which behaves as `-1`.
#[derive(Clone, Copy, PartialEq, Eq, Structural, Debug, Hash)]
pub struct Offset(pub usize);

impl Offset {
    /// The offset as an integer: `-1` before the first position.
    pub open spec fn as_int(self) -> int {
        if self.0 == usize::MAX {
            -1
        } else {
            self.0 as int
        }
    }

    /// The offset that is the given integer: before the first position
    /// for a negative one.
    pub open spec fn of_int(i: int) -> Offset {
        if i < 0 {
            Offset(usize::MAX)
        } else {
            Offset(i as usize)
        }
    }

    /// Offset of the given position.
    pub fn new(offset: usize) -> (r: Offset)
        ensures
            r.0 == offset,
            offset < usize::MAX ==> r.as_int() == offset,
    {
        Offset(offset)
    }

    /// The offset before the first position.
    pub fn before() -> (r: Offset)
        ensures
            r.as_int() == -1,
            r.0 == usize::MAX,
    {
        Offset(usize::MAX)
    }

    pub fn is_before(&self) -> (r: bool)
        ensures
            r == (self.as_int() == -1),
    {
        self.0 == usize::MAX
    }

    /// The position, unless the offset is before the first one.
    pub fn value(&self) -> (r: Option<usize>)
        ensures
            r == (if self.as_int() == -1 {
                None
            } else {
                Some(self.0)
            }),
    {
        if self.0 == usize::MAX {
            None
        } else {
            Some(self.0)
        }
    }

    /// The position of an offset that is not before the first one.
    pub fn unwrap(self) -> (r: usize)
        requires
            self.as_int() >= 0,
        ensures
            r == self.as_int(),
    {
        self.0
    }

    /// Moves the offset one position to the right.
    pub fn incr(&mut self)
        requires
            old(self).as_int() + 1 < usize::MAX,
        ensures
            final(self).as_int() == old(self).as_int() + 1,
    {
        if self.0 == usize::MAX {
            self.0 = 0
        } else {
            self.0 += 1
        }
    }

    /// Moves the offset one position to the left. Before the first position
    /// it stays where it is.
    pub fn decr(&mut self)
        ensures
            final(self).as_int() == (if old(self).as_int() <= 0 {
                -1
            } else {
                old(self).as_int() - 1
            }),
    {
        if self.0 == 0 || self.0 == usize::MAX {
            self.0 = usize::MAX
        } else {
            self.0 -= 1
        }
    }

    /// `true` if the offset is on the left of position `n`.
    pub fn is_below(&self, n: usize) -> (r: bool)
        ensures
            r == (self.as_int() < n),
    {
        self.0 == usize::MAX || self.0 < n
    }

    /// `true` if the offset is position `n`.
    pub fn is_at(&self, n: usize) -> (r: bool)
        ensures
            r == (self.as_int() == n),
    {
        self.0 != usize::MAX && self.0 == n
    }
}

impl PartialOrd for Offset {
    /// The order of the offsets as integers: before the first position
    /// comes before every position.
    fn partial_cmp(&self, offset: &Offset) -> (r: Option<core::cmp::Ordering>) {
        if self.0 == usize::MAX || offset.0 == usize::MAX {
            if self.0 == usize::MAX && offset.0 == usize::MAX {
                Some(core::cmp::Ordering::Equal)
            } else if self.0 == usize::MAX {
                Some(core::cmp::Ordering::Less)
            } else {
                Some(core::cmp::Ordering::Greater)
            }
        } else if self.0 < offset.0 {
            Some(core::cmp::Ordering::Less)
        } else if self.0 == offset.0 {
            Some(core::cmp::Ordering::Equal)
        } else {
            Some(core::cmp::Ordering::Greater)
        }
    }
}

impl vstd::std_specs::cmp::PartialOrdSpecImpl for Offset {
    open spec fn obeys_partial_cmp_spec() -> bool {
        true
    }

    open spec fn partial_cmp_spec(&self, offset: &Offset) -> Option<core::cmp::Ordering> {
        if self.as_int() < offset.as_int() {
            Some(core::cmp::Ordering::Less)
        } else if self.as_int() == offset.as_int() {
            Some(core::cmp::Ordering::Equal)
        } else {
            Some(core::cmp::Ordering::Greater)
        }
    }
}

impl PartialEq<usize> for Offset {
    /// `true` for the offset of the given position.
    fn eq(&self, offset: &usize) -> (r: bool) {
        self.0 != usize::MAX && self.0 == *offset
    }
}

impl vstd::std_specs::cmp::PartialEqSpecImpl<usize> for Offset {
    open spec fn obeys_eq_spec() -> bool {
        true
    }

    open spec fn eq_spec(&self, offset: &usize) -> bool {
        self.0 != usize::MAX && self.0 == *offset
    }
}

impl PartialOrd<usize> for Offset {
    /// The order of the offset and the position as integers.
    fn partial_cmp(&self, offset: &usize) -> (r: Option<core::cmp::Ordering>) {
        if self.0 == usize::MAX {
            Some(core::cmp::Ordering::Less)
        } else if self.0 < *offset {
            Some(core::cmp::Ordering::Less)
        } else if self.0 == *offset {
            Some(core::cmp::Ordering::Equal)
        } else {
            Some(core::cmp::Ordering::Greater)
        }
    }
}

impl vstd::std_specs::cmp::PartialOrdSpecImpl<usize> for Offset {
    open spec fn obeys_partial_cmp_spec() -> bool {
        true
    }

    open spec fn partial_cmp_spec(&self, offset: &usize) -> Option<core::cmp::Ordering> {
        if self.0 == usize::MAX || self.0 < *offset {
            Some(core::cmp::Ordering::Less)
        } else if self.0 == *offset {
            Some(core::cmp::Ordering::Equal)
        } else {
            Some(core::cmp::Ordering::Greater)
        }
    }
}

impl From<usize> for Offset {
    /// The offset of the given position.
    fn from(offset: usize) -> (r: Offset) {
        Offset(offset)
    }
}

impl vstd::std_specs::convert::FromSpecImpl<usize> for Offset {
    open spec fn obeys_from_spec() -> bool {
        true
    }

    open spec fn from_spec(offset: usize) -> Offset {
        Offset(offset)
    }
}

impl core::ops::Add for Offset {
    type Output = Offset;

    /// The sum of the two offsets as integers.
    fn add(self, rhs: Offset) -> (r: Offset) {
        if self.0 == usize::MAX {
            if rhs.0 == usize::MAX || rhs.0 == 0 {
                Offset(usize::MAX)
            } else {
                Offset(rhs.0 - 1)
            }
        } else if rhs.0 == usize::MAX {
            if self.0 == 0 {
                Offset(usize::MAX)
            } else {
                Offset(self.0 - 1)
            }
        } else {
            Offset(self.0 + rhs.0)
        }
    }
}

impl vstd::std_specs::ops::AddSpecImpl for Offset {
    open spec fn obeys_add_spec() -> bool {
        true
    }

    open spec fn add_req(self, rhs: Offset) -> bool {
        -1 <= self.as_int() + rhs.as_int() < usize::MAX
    }

    open spec fn add_spec(self, rhs: Offset) -> Offset {
        Offset::of_int(self.as_int() + rhs.as_int())
    }
}

impl core::ops::Add<usize> for Offset {
    type Output = Offset;

    /// The offset moved to the right by the given number of positions.
    fn add(self, rhs: usize) -> (r: Offset) {
        if self.0 == usize::MAX {
            if rhs == 0 {
                Offset(usize::MAX)
            } else {
                Offset(rhs - 1)
            }
        } else {
            Offset(self.0 + rhs)
        }
    }
}

impl vstd::std_specs::ops::AddSpecImpl<usize> for Offset {
    open spec fn obeys_add_spec() -> bool {
        true
    }

    open spec fn add_req(self, rhs: usize) -> bool {
        self.as_int() + rhs < usize::MAX
    }

    open spec fn add_spec(self, rhs: usize) -> Offset {
        Offset::of_int(self.as_int() + rhs)
    }
}

impl core::ops::Sub for Offset {
    type Output = Offset;

    /// The difference of the two offsets as integers.
    fn sub(self, rhs: Offset) -> (r: Offset) {
        if self.0 == usize::MAX {
            if rhs.0 == usize::MAX {
                Offset(0)
            } else {
                Offset(usize::MAX)
            }
        } else if rhs.0 == usize::MAX {
            Offset(self.0 + 1)
        } else if self.0 >= rhs.0 {
            Offset(self.0 - rhs.0)
        } else {
            Offset(usize::MAX)
        }
    }
}

impl vstd::std_specs::ops::SubSpecImpl for Offset {
    open spec fn obeys_sub_spec() -> bool {
        true
    }

    open spec fn sub_req(self, rhs: Offset) -> bool {
        -1 <= self.as_int() - rhs.as_int() < usize::MAX
    }

    open spec fn sub_spec(self, rhs: Offset) -> Offset {
        Offset::of_int(self.as_int() - rhs.as_int())
    }
}

impl core::ops::Sub<usize> for Offset {
    type Output = Offset;

    /// The offset moved to the left by the given number of positions.
    fn sub(self, rhs: usize) -> (r: Offset) {
        if self.0 >= rhs {
            Offset(self.0 - rhs)
        } else {
            Offset(usize::MAX)
        }
    }
}

impl vstd::std_specs::ops::SubSpecImpl<usize> for Offset {
    open spec fn obeys_sub_spec() -> bool {
        true
    }

    open spec fn sub_req(self, rhs: usize) -> bool {
        0 <= self.as_int() && -1 <= self.as_int() - rhs
    }

    open spec fn sub_spec(self, rhs: usize) -> Offset {
        Offset::of_int(self.as_int() - rhs)
    }
}

impl core::ops::Div<usize> for Offset {
    type Output = Offset;

    /// The offset of the position divided by the given number.
    fn div(self, rhs: usize) -> (r: Offset) {
        Offset(self.0 / rhs)
    }
}

impl vstd::std_specs::ops::DivSpecImpl<usize> for Offset {
    open spec fn obeys_div_spec() -> bool {
        true
    }

    open spec fn div_req(self, rhs: usize) -> bool {
        0 <= self.as_int() && rhs != 0
    }

    open spec fn div_spec(self, rhs: usize) -> Offset {
        Offset::of_int(self.as_int() / (rhs as int))
    }
}

} // verus!
