//! Values of the begin-string field, one per protocol version.
use vstd::prelude::*;

verus! {

/// "FIX.4.0"
pub const FIX_4_0: [u8; 7] = [70, 73, 88, 46, 52, 46, 48];
/// "FIX.4.1"
pub const FIX_4_1: [u8; 7] = [70, 73, 88, 46, 52, 46, 49];
/// "FIX.4.2"
pub const FIX_4_2: [u8; 7] = [70, 73, 88, 46, 52, 46, 50];
/// "FIX.4.3"
pub const FIX_4_3: [u8; 7] = [70, 73, 88, 46, 52, 46, 51];
/// "FIX.4.4"
pub const FIX_4_4: [u8; 7] = [70, 73, 88, 46, 52, 46, 52];
/// "FIX.5.0"
pub const FIX_5_0: [u8; 7] = [70, 73, 88, 46, 53, 46, 48];

} // verus!
