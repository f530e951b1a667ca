use vstd::prelude::*;

verus! {

/// Relies on rand's `random`: a value drawn from the thread-local generator. Nothing is
/// promised of it.
pub assume_specification<T>[ rand::random::<T> ]() -> (r: T)
    where
        rand::distributions::Standard: rand::distributions::Distribution<T>,
;

} // verus!
