use vstd::prelude::*;

verus! {

/// The precision class of an element type.
#[derive(Clone, Copy, Debug, PartialEq, Eq, Structural)]
pub enum Precision {
    Double,
    Full,
    Half,
    Other,
}

/// Element types that report their precision class.
pub trait ElementPrecision {
    spec fn precision_spec() -> Precision;

    fn precision() -> (r: Precision)
        ensures
            r == Self::precision_spec(),
    ;
}

/// The neutral values of an element type.
pub trait ElementValue: Sized {
    /// The element as a mathematical integer.
    spec fn value_of(&self) -> int;

    fn zero() -> (r: Self)
        ensures
            r.value_of() == 0,
    ;

    fn one() -> (r: Self)
        ensures
            r.value_of() == 1,
    ;
}

/// The integer element types that matrices of this library can be built from.
pub trait Element: ElementPrecision + ElementValue + Copy {
    /// Widens the element to the storage type of matrices.
    fn to_i64(&self) -> (r: i64)
        ensures
            r as int == self.value_of(),
    ;
}

impl ElementPrecision for i64 {
    open spec fn precision_spec() -> Precision {
        Precision::Double
    }

    fn precision() -> (r: Precision) {
        Precision::Double
    }
}

impl ElementValue for i64 {
    open spec fn value_of(&self) -> int {
        *self as int
    }

    fn zero() -> (r: Self) {
        0
    }

    fn one() -> (r: Self) {
        1
    }
}

impl Element for i64 {
    fn to_i64(&self) -> (r: i64) {
        *self as i64
    }
}

impl ElementPrecision for i32 {
    open spec fn precision_spec() -> Precision {
        Precision::Full
    }

    fn precision() -> (r: Precision) {
        Precision::Full
    }
}

impl ElementValue for i32 {
    open spec fn value_of(&self) -> int {
        *self as int
    }

    fn zero() -> (r: Self) {
        0
    }

    fn one() -> (r: Self) {
        1
    }
}

impl Element for i32 {
    fn to_i64(&self) -> (r: i64) {
        *self as i64
    }
}

impl ElementPrecision for i16 {
    open spec fn precision_spec() -> Precision {
        Precision::Half
    }

    fn precision() -> (r: Precision) {
        Precision::Half
    }
}

impl ElementValue for i16 {
    open spec fn value_of(&self) -> int {
        *self as int
    }

    fn zero() -> (r: Self) {
        0
    }

    fn one() -> (r: Self) {
        1
    }
}

impl Element for i16 {
    fn to_i64(&self) -> (r: i64) {
        *self as i64
    }
}

impl ElementPrecision for i8 {
    open spec fn precision_spec() -> Precision {
        Precision::Other
    }

    fn precision() -> (r: Precision) {
        Precision::Other
    }
}

impl ElementValue for i8 {
    open spec fn value_of(&self) -> int {
        *self as int
    }

    fn zero() -> (r: Self) {
        0
    }

    fn one() -> (r: Self) {
        1
    }
}

impl Element for i8 {
    fn to_i64(&self) -> (r: i64) {
        *self as i64
    }
}

impl ElementPrecision for u8 {
    open spec fn precision_spec() -> Precision {
        Precision::Other
    }

    fn precision() -> (r: Precision) {
        Precision::Other
    }
}

impl ElementValue for u8 {
    open spec fn value_of(&self) -> int {
        *self as int
    }

    fn zero() -> (r: Self) {
        0
    }

    fn one() -> (r: Self) {
        1
    }
}

impl Element for u8 {
    fn to_i64(&self) -> (r: i64) {
        *self as i64
    }
}

} // verus!
