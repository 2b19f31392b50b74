//! The raw-socket app: a NIC endpoint in the app graph.
//!
//! Inside the engine this app has pull and push capabilities and no
//! behavior of its own: the socket I/O that feeds its output link and
//! drains its input link runs outside the engine, between breaths.
use vstd::prelude::*;

verus! {

/// Raw-socket app configuration: the name of the bound interface.
pub struct RawSocket {
    pub ifname: String,
}

/// Runtime state of a raw-socket app. The socket itself lives with the
/// driver outside the engine.
pub struct RawSocketApp {}

} // verus!
