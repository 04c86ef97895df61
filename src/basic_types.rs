use vstd::prelude::*;

verus! {

/// An integer that may stand for a byte offset, which this library keeps as `u32`.
pub trait AssertIntoU32: Sized {
    /// The integer's value.
    spec fn offset_value(&self) -> int;

    /// The value as `u32`, or `None` where it does not fit.
    fn assert_into_u32(self) -> (r: Option<u32>)
        ensures
            match r {
                Some(v) => v as int == self.offset_value(),
                None => !(0 <= self.offset_value() <= u32::MAX),
            },
    ;
}

impl AssertIntoU32 for u32 {
    open spec fn offset_value(&self) -> int {
        *self as int
    }

    fn assert_into_u32(self) -> (r: Option<u32>) {
        Some(self)
    }
}

impl AssertIntoU32 for usize {
    open spec fn offset_value(&self) -> int {
        *self as int
    }

    fn assert_into_u32(self) -> (r: Option<u32>) {
        if self <= u32::MAX as usize {
            Some(self as u32)
        } else {
            None
        }
    }
}

impl AssertIntoU32 for u64 {
    open spec fn offset_value(&self) -> int {
        *self as int
    }

    fn assert_into_u32(self) -> (r: Option<u32>) {
        if self <= u32::MAX as u64 {
            Some(self as u32)
        } else {
            None
        }
    }
}

impl AssertIntoU32 for i32 {
    open spec fn offset_value(&self) -> int {
        *self as int
    }

    fn assert_into_u32(self) -> (r: Option<u32>) {
        if self >= 0 {
            Some(self as u32)
        } else {
            None
        }
    }
}

impl AssertIntoU32 for i64 {
    open spec fn offset_value(&self) -> int {
        *self as int
    }

    fn assert_into_u32(self) -> (r: Option<u32>) {
        if 0 <= self && self <= u32::MAX as i64 {
            Some(self as u32)
        } else {
            None
        }
    }
}

} // verus!
