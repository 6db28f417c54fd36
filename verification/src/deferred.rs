//! Lazily resolved metadata slots.  A slot starts unresolved, may have a
//! background fetch in flight, and settles once on a value; it never leaves
//! the resolved state.  Spreading the background fetches over a random
//! delay bounded by the configured jitter keeps catalog load flat.

use vstd::prelude::*;

verus! {

/// The phases of one slot.
pub enum LoadState<T> {
    /// Nothing has asked for the value yet.
    NotStarted,
    /// A fetch is in flight; later observers join it.
    Loading,
    /// The value arrived; the slot keeps it for good.
    Loaded(T),
}

/// A slot holding a deferred value of type `T`.
pub struct DeferredLoad<T> {
    state: LoadState<T>,
}

impl<T> DeferredLoad<T> {
    pub closed spec fn state(&self) -> LoadState<T> {
        self.state
    }

    /// A slot that has not started its load.
    pub fn new() -> (r: Self)
        ensures
            r.state() is NotStarted,
    {
        DeferredLoad { state: LoadState::NotStarted }
    }

    /// Marks the load as started.  A slot already loading keeps loading
    /// (the caller joins the in-flight fetch); a resolved slot is left
    /// alone.
    pub fn begin(&mut self)
        ensures
            match old(self).state() {
                LoadState::NotStarted => final(self).state() is Loading,
                LoadState::Loading => *final(self) == *old(self) && final(self).state()
                    is Loading,
                LoadState::Loaded(v) => *final(self) == *old(self) && final(self).state()
                    == LoadState::Loaded(v),
            },
    {
        match self.state {
            LoadState::NotStarted => {
                self.state = LoadState::Loading;
            },
            LoadState::Loading => {},
            LoadState::Loaded(_) => {},
        }
    }

    /// Stores the fetched value.  Only the party that started the load
    /// resolves it, and only once: the transition to resolved is one way.
    pub fn resolve(&mut self, value: T)
        requires
            old(self).state() is Loading,
        ensures
            final(self).state() == LoadState::Loaded(value),
    {
        self.state = LoadState::Loaded(value);
    }

    /// The value, once resolved.
    pub fn get(&self) -> (r: Option<&T>)
        ensures
            match r {
                Some(v) => self.state() == LoadState::Loaded(*v),
                None => !(self.state() is Loaded),
            },
    {
        match &self.state {
            LoadState::Loaded(v) => Some(v),
            _ => None,
        }
    }

    /// Whether an observer must start the load itself: true exactly when
    /// nothing has started it yet.
    pub fn needs_start(&self) -> (r: bool)
        ensures
            r == (self.state() is NotStarted),
    {
        match &self.state {
            LoadState::NotStarted => true,
            _ => false,
        }
    }
}

/// The delay before a background fetch: a uniform pick from `[0, bound)`,
/// taken from the caller's random draw; zero when no jitter is configured.
pub fn jitter_delay(random: u64, bound_ms: u64) -> (r: u64)
    ensures
        bound_ms > 0 ==> r == random % bound_ms && r < bound_ms,
        bound_ms == 0 ==> r == 0,
{
    if bound_ms == 0 {
        0
    } else {
        random % bound_ms
    }
}

} // verus!
