//! Values of the message-type field.
use vstd::prelude::*;

verus! {

/// "0"
pub const HEARTBEAT: [u8; 1] = [48];
/// "1"
pub const TEST_REQUEST: [u8; 1] = [49];
/// "2"
pub const RESEND_REQUEST: [u8; 1] = [50];
/// "3"
pub const REJECT: [u8; 1] = [51];
/// "4"
pub const SEQUENCE_RESET: [u8; 1] = [52];
/// "5"
pub const LOGOUT: [u8; 1] = [53];
/// "A"
pub const LOGON: [u8; 1] = [65];
/// "D"
pub const NEW_ORDER_SINGLE: [u8; 1] = [68];
/// "8"
pub const EXECUTION_REPORT: [u8; 1] = [56];

} // verus!
