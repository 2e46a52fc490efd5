//! Small vectors: a fixed-size generic vector and the integer point that
//! addresses pixels.

use core::ops::{Add, Mul, Sub};
use vstd::prelude::*;
use vstd::std_specs::ops::{AddSpec, MulSpec, SubSpec};

verus! {

/// A vector of `SIZE` components of type `T`.
#[derive(Debug)]
pub struct Vec<const SIZE: usize, T: Default + Copy> {
    data: [T; SIZE],
}

impl<const SIZE: usize, T: Default + Copy> View for Vec<SIZE, T> {
    type V = Seq<T>;

    closed spec fn view(&self) -> Seq<T> {
        self.data@
    }
}

impl<const SIZE: usize, T: Default + Copy> Vec<SIZE, T> {
    /// The vector whose components are all `T::default()`.
    pub fn new() -> (v: Self)
        ensures
            v@.len() == SIZE,
            forall|i: int| 0 <= i < SIZE ==> call_ensures(T::default, (), #[trigger] v@[i]),
    {
        Self { data: [T::default();SIZE] }
    }

    /// The componentwise sum.
    pub fn add(self, rhs: Self) -> (out: Self) where T: Add<Output = T>
        requires
            forall|i: int| 0 <= i < SIZE ==> (#[trigger] self@[i]).add_req(rhs@[i]),
        ensures
            out@.len() == SIZE,
            T::obeys_add_spec() ==> forall|i: int|
                0 <= i < SIZE ==> #[trigger] out@[i] == self@[i].add_spec(rhs@[i]),
    {
        let mut result = Self::new();
        for i in 0..SIZE
            invariant
                forall|j: int| 0 <= j < SIZE ==> (#[trigger] self@[j]).add_req(rhs@[j]),
                T::obeys_add_spec() ==> forall|j: int|
                    0 <= j < i ==> #[trigger] result@[j] == self@[j].add_spec(rhs@[j]),
        {
            assert(self@[i as int].add_req(rhs@[i as int]));
            let ghost prev = result@;
            result.data[i] = self.data[i] + rhs.data[i];
            assert(forall|j: int| 0 <= j < i ==> result@[j] == prev[j]);
        }
        result
    }

    /// The componentwise difference.
    pub fn sub(self, rhs: Self) -> (out: Self) where T: Sub<Output = T>
        requires
            forall|i: int| 0 <= i < SIZE ==> (#[trigger] self@[i]).sub_req(rhs@[i]),
        ensures
            out@.len() == SIZE,
            T::obeys_sub_spec() ==> forall|i: int|
                0 <= i < SIZE ==> #[trigger] out@[i] == self@[i].sub_spec(rhs@[i]),
    {
        let mut result = Self::new();
        for i in 0..SIZE
            invariant
                forall|j: int| 0 <= j < SIZE ==> (#[trigger] self@[j]).sub_req(rhs@[j]),
                T::obeys_sub_spec() ==> forall|j: int|
                    0 <= j < i ==> #[trigger] result@[j] == self@[j].sub_spec(rhs@[j]),
        {
            assert(self@[i as int].sub_req(rhs@[i as int]));
            let ghost prev = result@;
            result.data[i] = self.data[i] - rhs.data[i];
            assert(forall|j: int| 0 <= j < i ==> result@[j] == prev[j]);
        }
        result
    }

    /// The componentwise product.
    pub fn mul(self, rhs: Self) -> (out: Self) where T: Mul<Output = T>
        requires
            forall|i: int| 0 <= i < SIZE ==> (#[trigger] self@[i]).mul_req(rhs@[i]),
        ensures
            out@.len() == SIZE,
            T::obeys_mul_spec() ==> forall|i: int|
                0 <= i < SIZE ==> #[trigger] out@[i] == self@[i].mul_spec(rhs@[i]),
    {
        let mut result = Self::new();
        for i in 0..SIZE
            invariant
                forall|j: int| 0 <= j < SIZE ==> (#[trigger] self@[j]).mul_req(rhs@[j]),
                T::obeys_mul_spec() ==> forall|j: int|
                    0 <= j < i ==> #[trigger] result@[j] == self@[j].mul_spec(rhs@[j]),
        {
            assert(self@[i as int].mul_req(rhs@[i as int]));
            let ghost prev = result@;
            result.data[i] = self.data[i] * rhs.data[i];
            assert(forall|j: int| 0 <= j < i ==> result@[j] == prev[j]);
        }
        result
    }
}

/// The cross product and the normalisation of a kind of point.
pub trait Vector {
    /// The cross product of two points.
    fn cross(self, rhs: Self) -> Self;

    /// The point scaled to length one.
    fn normalize(self) -> Self;
}

/// A point or vector with integer coordinates.
#[derive(Debug, Clone, Copy, PartialEq, Eq, Structural)]
pub struct Vec2i {
    pub x: i32,
    pub y: i32,
}

impl Vec2i {
    /// The point `(x, y)`.
    pub fn new(x: i32, y: i32) -> (v: Self)
        ensures
            v.x == x,
            v.y == y,
    {
        Self { x, y }
    }

    /// The componentwise sum.
    pub fn add(self, rhs: Self) -> (out: Self)
        requires
            i32::MIN <= self.x + rhs.x <= i32::MAX,
            i32::MIN <= self.y + rhs.y <= i32::MAX,
        ensures
            out.x == self.x + rhs.x,
            out.y == self.y + rhs.y,
    {
        Self::new(self.x + rhs.x, self.y + rhs.y)
    }

    /// The componentwise difference.
    pub fn sub(self, rhs: Self) -> (out: Self)
        requires
            i32::MIN <= self.x - rhs.x <= i32::MAX,
            i32::MIN <= self.y - rhs.y <= i32::MAX,
        ensures
            out.x == self.x - rhs.x,
            out.y == self.y - rhs.y,
    {
        Self::new(self.x - rhs.x, self.y - rhs.y)
    }

    /// The dot product.
    pub fn dot(self, rhs: Self) -> (out: i32)
        requires
            i32::MIN <= self.x * rhs.x <= i32::MAX,
            i32::MIN <= self.y * rhs.y <= i32::MAX,
            i32::MIN <= self.x * rhs.x + self.y * rhs.y <= i32::MAX,
        ensures
            out == self.x * rhs.x + self.y * rhs.y,
    {
        self.x * rhs.x + self.y * rhs.y
    }

    /// The signed area spanned by the two vectors, and its negation.
    pub fn cross(self, rhs: Self) -> (out: Self)
        requires
            i32::MIN <= self.x * rhs.y <= i32::MAX,
            i32::MIN <= self.y * rhs.x <= i32::MAX,
            i32::MIN <= self.x * rhs.y - self.y * rhs.x <= i32::MAX,
            i32::MIN <= self.y * rhs.x - self.x * rhs.y <= i32::MAX,
        ensures
            out.x == self.x * rhs.y - self.y * rhs.x,
            out.y == self.y * rhs.x - self.x * rhs.y,
    {
        Self::new(self.x * rhs.y - self.y * rhs.x, self.y * rhs.x - self.x * rhs.y)
    }
}

} // verus!
