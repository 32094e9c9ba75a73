use vstd::prelude::*;

verus! {

/// A single-slot memo: either stale, and to be recomputed from the current
/// messages, or holding the value computed from them.
pub enum Cache<T> {
    Stale,
    Cached(T),
}

impl<T> Cache<T> {
    /// A stale slot.
    pub fn stale() -> (r: Cache<T>)
        ensures
            r is Stale,
    {
        Cache::Stale
    }

    /// Whether the slot must be recomputed.
    pub fn is_stale(&self) -> (r: bool)
        ensures
            r == (*self is Stale),
    {
        match self {
            Cache::Stale => true,
            Cache::Cached(_) => false,
        }
    }

    /// Marks the slot stale, dropping what it held.
    pub fn invalidate(&mut self)
        ensures
            *final(self) is Stale,
    {
        *self = Cache::Stale;
    }

    /// Stores a freshly computed value.
    pub fn store(&mut self, value: T)
        ensures
            *final(self) == Cache::Cached(value),
    {
        *self = Cache::Cached(value);
    }

    /// The held value, if the slot is not stale.
    pub fn get(&self) -> (r: Option<&T>)
        ensures
            match *self {
                Cache::Stale => r is None,
                Cache::Cached(v) => r == Some(&v),
            },
    {
        match self {
            Cache::Stale => None,
            Cache::Cached(v) => Some(v),
        }
    }
}

} // verus!
