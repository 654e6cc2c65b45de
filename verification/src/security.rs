//! Security/pairing configuration surface.
//!
//! Only the passkey is state of this library; the remaining security
//! parameters (bonding flags, IO capability, key distribution) are plain
//! writes into the host stack's configuration and live with the stack glue.

use vstd::prelude::*;

verus! {

/// Holds the pairing passkey the device presents during authentication.
pub struct BLESecurity {
    pub passkey: u32,
}

impl BLESecurity {
    /// A fresh configuration with passkey 0.
    pub fn new() -> (s: Self)
        ensures
            s.passkey == 0,
    {
        BLESecurity { passkey: 0 }
    }

    /// The currently configured passkey.
    pub fn get_passkey(&self) -> (r: u32)
        ensures
            r == self.passkey,
    {
        self.passkey
    }

    /// Replaces the passkey; returns `self` again so calls can be chained.
    pub fn set_passkey(&mut self, passkey: u32) -> (r: &mut Self)
        ensures
            (*r).passkey == passkey,
            *final(self) == *final(r),
    {
        self.passkey = passkey;
        self
    }
}

} // verus!
