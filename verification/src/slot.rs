//! Link values and the atomic slot abstraction.
//!
//! A `Link` is the value held by one link slot of a node: either null or a
//! handle to another node in the arena. An `Atomic<T>` models a word-sized
//! atomic slot: it is initialised once and afterwards read, overwritten, or
//! updated by compare-and-swap. In this ownership model every slot is reached
//! through exclusive access, so a compare-and-swap succeeds exactly when the
//! expected value is the current one.

use vstd::prelude::*;

verus! {

/// The value of one link slot: null, or a handle into the arena.
#[derive(Clone, Copy, PartialEq, Eq, Structural, Debug)]
pub enum Link {
    Null,
    Live(usize),
}

impl Link {
    /// True when the link points nowhere.
    pub fn is_null(&self) -> (r: bool)
        ensures
            r == (*self is Null),
    {
        match self {
            Link::Null => true,
            Link::Live(_) => false,
        }
    }
}

/// A slot holding a value of type `T`, read and written atomically.
#[derive(Clone, Copy)]
pub struct Atomic<T> {
    value: T,
}

impl<T> View for Atomic<T> {
    type V = T;

    closed spec fn view(&self) -> T {
        self.value
    }
}

impl<T> Atomic<T> {
    /// Create a slot holding `value`.
    pub fn init(value: T) -> (a: Atomic<T>)
        ensures
            a@ == value,
    {
        Atomic { value }
    }

    /// Overwrite the slot.
    pub fn store(&mut self, value: T)
        ensures
            final(self)@ == value,
    {
        self.value = value;
    }
}

impl<T: Copy> Atomic<T> {
    /// Read the slot.
    pub fn load(&self) -> (r: T)
        ensures
            r == self@,
    {
        self.value
    }
}

impl Atomic<Link> {
    /// Compare-and-swap on a link slot: if the slot holds `expected`, replace
    /// it with `new` and return `Ok` with the old value; otherwise leave it
    /// unchanged and return `Err` with the current value.
    pub fn compare_exchange(&mut self, expected: Link, new: Link) -> (r: Result<Link, Link>)
        ensures
            old(self)@ == expected ==> final(self)@ == new && r == Ok::<Link, Link>(expected),
            old(self)@ != expected ==> final(self)@ == old(self)@ && r == Err::<Link, Link>(
                old(self)@,
            ),
    {
        if self.value == expected {
            self.value = new;
            Ok(expected)
        } else {
            Err(self.value)
        }
    }
}

impl Atomic<u64> {
    /// Compare-and-swap on a value slot, with the same outcome rules as for
    /// link slots.
    pub fn compare_exchange(&mut self, expected: u64, new: u64) -> (r: Result<u64, u64>)
        ensures
            old(self)@ == expected ==> final(self)@ == new && r == Ok::<u64, u64>(expected),
            old(self)@ != expected ==> final(self)@ == old(self)@ && r == Err::<u64, u64>(
                old(self)@,
            ),
    {
        if self.value == expected {
            self.value = new;
            Ok(expected)
        } else {
            Err(self.value)
        }
    }
}

} // verus!
