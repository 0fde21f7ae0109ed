//! Server-wide switches. Encryption and compression are not implemented;
//! the flags exist so that a configuration can name them, and both are off.
use vstd::prelude::*;

verus! {

/// Settings shared by every connection.
#[derive(Debug, Clone, Copy, PartialEq, Eq, Structural)]
pub struct GlobalConfiguration {
    pub enable_packet_encryption: bool,
    pub enable_packet_compression: bool,
}

impl Default for GlobalConfiguration {
    /// Encryption and compression both off.
    fn default() -> (r: GlobalConfiguration)
        ensures
            !r.enable_packet_encryption,
            !r.enable_packet_compression,
    {
        GlobalConfiguration { enable_packet_encryption: false, enable_packet_compression: false }
    }
}

} // verus!
