//! Peripheral-role BLE GATT server core: service registry and two-phase
//! activation, connection tracking, event routing, and per-connection
//! indication-acknowledgement bookkeeping.
//!
//! The underlying host stack (attribute-table allocation, advertising, GATT
//! PDU handling) is an external collaborator: callers drive the activation
//! sequencer and the event router with plain values and perform the stack
//! calls the returned actions ask for.

pub mod security;
pub mod server;
