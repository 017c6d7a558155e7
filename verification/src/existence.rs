use vstd::prelude::*;

verus! {

/// Three-valued knowledge about a resolution: nothing heard yet (`Unknown`),
/// the control plane asserted absence (`No`), or at least one authoritative
/// response arrived (`Yes`).
pub enum Exists<T> {
    Unknown,
    No,
    Yes(T),
}

impl<T> Exists<T> {
    /// Takes the current value out, leaving `Unknown` behind.
    pub fn take(&mut self) -> (t: Exists<T>)
        ensures
            t == *old(self),
            *final(self) is Unknown,
    {
        let mut t = Exists::Unknown;
        core::mem::swap(self, &mut t);
        t
    }

    pub fn is_yes(&self) -> (r: bool)
        ensures
            r == (*self is Yes),
    {
        match self {
            Exists::Yes(_) => true,
            _ => false,
        }
    }
}

} // verus!
