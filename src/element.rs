//! The numeric interface that tensor construction needs: zero, one and
//! addition, implemented for the primitive integer types.
use vstd::prelude::*;

verus! {

/// An element type with a zero, a one, and an addition that may refuse
/// operands whose sum it cannot represent.
pub trait Element: Copy + Sized {
    spec fn spec_zero() -> Self;

    spec fn spec_one() -> Self;

    spec fn spec_plus(a: Self, b: Self) -> Self;

    /// The sum of `a` and `b` is representable.
    spec fn spec_plus_ok(a: Self, b: Self) -> bool;

    fn zero() -> (r: Self)
        ensures
            r == Self::spec_zero(),
    ;

    fn one() -> (r: Self)
        ensures
            r == Self::spec_one(),
    ;

    fn plus(self, rhs: Self) -> (r: Self)
        requires
            Self::spec_plus_ok(self, rhs),
        ensures
            r == Self::spec_plus(self, rhs),
    ;
}

/// The value reached from zero by adding one `n` times.
pub open spec fn count<T: Element>(n: nat) -> T
    decreases n,
{
    if n == 0 {
        T::spec_zero()
    } else {
        T::spec_plus(count::<T>((n - 1) as nat), T::spec_one())
    }
}

/// Counting up by one from zero stays representable up to `n`.
pub open spec fn counts_fit<T: Element>(n: nat) -> bool {
    forall|i: nat| i < n ==> T::spec_plus_ok(#[trigger] count::<T>(i), T::spec_one())
}

impl Element for i32 {
    open spec fn spec_zero() -> i32 {
        0
    }

    open spec fn spec_one() -> i32 {
        1
    }

    open spec fn spec_plus(a: i32, b: i32) -> i32 {
        (a + b) as i32
    }

    open spec fn spec_plus_ok(a: i32, b: i32) -> bool {
        i32::MIN <= a + b <= i32::MAX
    }

    fn zero() -> (r: i32) {
        0
    }

    fn one() -> (r: i32) {
        1
    }

    fn plus(self, rhs: i32) -> (r: i32) {
        self + rhs
    }
}

impl Element for i64 {
    open spec fn spec_zero() -> i64 {
        0
    }

    open spec fn spec_one() -> i64 {
        1
    }

    open spec fn spec_plus(a: i64, b: i64) -> i64 {
        (a + b) as i64
    }

    open spec fn spec_plus_ok(a: i64, b: i64) -> bool {
        i64::MIN <= a + b <= i64::MAX
    }

    fn zero() -> (r: i64) {
        0
    }

    fn one() -> (r: i64) {
        1
    }

    fn plus(self, rhs: i64) -> (r: i64) {
        self + rhs
    }
}

impl Element for u32 {
    open spec fn spec_zero() -> u32 {
        0
    }

    open spec fn spec_one() -> u32 {
        1
    }

    open spec fn spec_plus(a: u32, b: u32) -> u32 {
        (a + b) as u32
    }

    open spec fn spec_plus_ok(a: u32, b: u32) -> bool {
        u32::MIN <= a + b <= u32::MAX
    }

    fn zero() -> (r: u32) {
        0
    }

    fn one() -> (r: u32) {
        1
    }

    fn plus(self, rhs: u32) -> (r: u32) {
        self + rhs
    }
}

impl Element for u64 {
    open spec fn spec_zero() -> u64 {
        0
    }

    open spec fn spec_one() -> u64 {
        1
    }

    open spec fn spec_plus(a: u64, b: u64) -> u64 {
        (a + b) as u64
    }

    open spec fn spec_plus_ok(a: u64, b: u64) -> bool {
        u64::MIN <= a + b <= u64::MAX
    }

    fn zero() -> (r: u64) {
        0
    }

    fn one() -> (r: u64) {
        1
    }

    fn plus(self, rhs: u64) -> (r: u64) {
        self + rhs
    }
}

impl Element for usize {
    open spec fn spec_zero() -> usize {
        0
    }

    open spec fn spec_one() -> usize {
        1
    }

    open spec fn spec_plus(a: usize, b: usize) -> usize {
        (a + b) as usize
    }

    open spec fn spec_plus_ok(a: usize, b: usize) -> bool {
        usize::MIN <= a + b <= usize::MAX
    }

    fn zero() -> (r: usize) {
        0
    }

    fn one() -> (r: usize) {
        1
    }

    fn plus(self, rhs: usize) -> (r: usize) {
        self + rhs
    }
}

impl Element for isize {
    open spec fn spec_zero() -> isize {
        0
    }

    open spec fn spec_one() -> isize {
        1
    }

    open spec fn spec_plus(a: isize, b: isize) -> isize {
        (a + b) as isize
    }

    open spec fn spec_plus_ok(a: isize, b: isize) -> bool {
        isize::MIN <= a + b <= isize::MAX
    }

    fn zero() -> (r: isize) {
        0
    }

    fn one() -> (r: isize) {
        1
    }

    fn plus(self, rhs: isize) -> (r: isize) {
        self + rhs
    }
}

} // verus!
