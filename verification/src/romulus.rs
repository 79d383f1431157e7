//! A versioned container holding two copies of its data: readers always
//! see the current copy, an update prepares the shadow copy in full and
//! then flips which copy is current, so a failed update never disturbs
//! what readers see.

use vstd::prelude::*;

verus! {

/// The two-copy container.  `flipped` says which copy is current.
pub struct Romulus<T> {
    flipped: bool,
    front: T,
    back: T,
}

impl<T> Romulus<T> {
    /// The value readers currently see.
    pub closed spec fn current(&self) -> T {
        if self.flipped {
            self.back
        } else {
            self.front
        }
    }

    /// Reads the current copy; the shadow copy is never exposed.
    pub fn read(&self) -> (r: &T)
        ensures
            *r == self.current(),
    {
        if self.flipped {
            &self.back
        } else {
            &self.front
        }
    }

    /// Applies an update transactionally: the new value is computed from
    /// the current copy, installed in full into the shadow copy, and only
    /// then does the current-copy mark flip.
    pub fn update<F: FnOnce(&T) -> T>(&mut self, f: F)
        requires
            f.requires((&old(self).current(),)),
        ensures
            f.ensures((&old(self).current(),), final(self).current()),
    {
        if self.flipped {
            let newv: T = f(&self.back);
            self.front = newv;
            self.flipped = false;
        } else {
            let newv: T = f(&self.front);
            self.back = newv;
            self.flipped = true;
        }
    }
}

impl<T: Clone> Romulus<T> {
    /// Stores the initial data in both copies; the current copy holds the
    /// given value itself.
    pub fn new(data: T) -> (r: Self)
        ensures
            r.current() == data,
    {
        let shadow: T = data.clone();
        Romulus { flipped: false, front: data, back: shadow }
    }
}

} // verus!
