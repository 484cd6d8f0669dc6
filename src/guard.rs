//! The rule that at most one bridge reconciles a given head at a time.

use vstd::prelude::*;

verus! {

/// Why a bridge could not be registered.
#[derive(Debug, PartialEq, Eq, Structural)]
pub enum GuardError {
    /// Another bridge is already registered in this scope.
    AlreadyRegistered,
}

/// Tracks whether a bridge is registered in one scope.
#[derive(Debug)]
pub struct BridgeGuard {
    registered: bool,
}

impl BridgeGuard {
    pub closed spec fn is_registered(&self) -> bool {
        self.registered
    }

    pub fn new() -> (g: BridgeGuard)
        ensures
            !g.is_registered(),
    {
        BridgeGuard { registered: false }
    }

    pub fn registered(&self) -> (r: bool)
        ensures
            r == self.is_registered(),
    {
        self.registered
    }

    /// Registers a bridge; refused while another one is registered.
    pub fn register(&mut self) -> (r: Result<(), GuardError>)
        ensures
            r is Ok <==> !old(self).is_registered(),
            r is Err ==> r == Err::<(), GuardError>(GuardError::AlreadyRegistered),
            final(self).is_registered(),
    {
        if self.registered {
            Err(GuardError::AlreadyRegistered)
        } else {
            self.registered = true;
            Ok(())
        }
    }

    /// Unregisters the bridge of this scope.
    pub fn release(&mut self)
        ensures
            !final(self).is_registered(),
    {
        self.registered = false;
    }
}

} // verus!
