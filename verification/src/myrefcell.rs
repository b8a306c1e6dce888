use vstd::prelude::*;
use vstd::cell::invcell::InvCell;

verus! {

/// The innermost wrapper: owns one value and gives it back.
pub struct MyUnsafeCell<T> {
    value: T,
}

impl<T> MyUnsafeCell<T> {
    /// The value inside.
    pub closed spec fn value(&self) -> T {
        self.value
    }

    /// Wraps `value`.
    pub fn new(value: T) -> (cell: Self)
        ensures
            cell.value() == value,
    {
        MyUnsafeCell { value: value }
    }

    /// A look at the value.
    pub fn get(&self) -> (value: &T)
        ensures
            *value == self.value(),
    {
        &self.value
    }

    /// Unwraps the value.
    pub fn into_inner(self) -> (value: T)
        ensures
            value == self.value(),
    {
        self.value
    }
}

/// A cell whose value can be replaced through a shared reference.
///
/// Whoever shares the cell cannot know which value it holds at a given
/// moment, only which values it may hold: the cell is made with a predicate
/// that every value put into it has to meet, and every value taken out of
/// it meets.
#[verifier::reject_recursive_types(T)]
pub struct MyCell<T> {
    inner: InvCell<T, spec_fn(T) -> bool>,
}

impl<T> MyCell<T> {
    /// Whether the cell may hold `value`.
    pub closed spec fn allows(&self, value: T) -> bool {
        self.inner.inv(value)
    }

    /// A cell that may hold any value, holding `value`.
    pub fn new(value: T) -> (cell: Self)
        ensures
            forall|v: T| cell.allows(v),
    {
        MyCell { inner: InvCell::new(value, Ghost(|v: T| true)) }
    }

    /// A cell that may hold the values that meet `allowed`, holding `value`.
    pub fn with_invariant(value: T, Ghost(allowed): Ghost<spec_fn(T) -> bool>) -> (cell: Self)
        requires
            allowed(value),
        ensures
            forall|v: T| cell.allows(v) == allowed(v),
    {
        MyCell { inner: InvCell::new(value, Ghost(allowed)) }
    }

    /// Puts `new_value` into the cell and drops what was there.
    pub fn set(&self, new_value: T)
        requires
            self.allows(new_value),
    {
        let _old_value = self.replace(new_value);
    }

    /// Puts `new_value` into the cell and returns what was there.
    pub fn replace(&self, new_value: T) -> (old_value: T)
        requires
            self.allows(new_value),
        ensures
            self.allows(old_value),
    {
        self.inner.replace(new_value)
    }

    /// Takes the cell apart and returns the value it held.
    pub fn into_inner(self) -> (value: T)
        ensures
            self.allows(value),
    {
        self.inner.into_inner()
    }
}

impl<T: Copy> MyCell<T> {
    /// A copy of the value in the cell.
    pub fn get(&self) -> (value: T)
        ensures
            self.allows(value),
    {
        self.inner.get()
    }

    /// Replaces the value in the cell by what `f` makes of it, and returns
    /// the value that was replaced.
    pub fn update<F>(&self, f: F) -> (old_value: T) where F: FnOnce(T) -> T
        requires
            forall|v: T| self.allows(v) ==> call_requires(f, (v,)),
            forall|v: T, w: T| self.allows(v) && call_ensures(f, (v,), w) ==> self.allows(w),
        ensures
            self.allows(old_value),
    {
        let old_value = self.get();
        self.set(f(old_value));
        old_value
    }
}

} // verus!
