//! A shared buffering hub for items, fluids and energy, routed by frequency.
//!
//! The library holds the verified core: the framed wire encoding, the three
//! buffer engines, the registry of buffers, the snapshot codec and the
//! per-command decisions of a client session.
use vstd::prelude::*;

pub mod digest;
pub mod energy;
pub mod fluid;
pub mod gzip;
pub mod hex;
pub mod item;
pub mod registry;
pub mod session;
pub mod snapshot;
pub mod table;
pub mod wire;

pub use fluid::{FluidId, FluidStack, Fluids};
pub use hex::to_hex_string;
pub use item::{GzipNBT, ItemStack, Items, NBT};
pub use registry::Registry;
pub use snapshot::{load, save};
pub use table::Frequency;
pub use wire::{read_string, write_string, ByteReader};

verus! {

/// `a + b`, held to the range of `i64`.
pub open spec fn sat_add(a: i64, b: i64) -> i64 {
    if a + b > i64::MAX {
        i64::MAX
    } else if a + b < i64::MIN {
        i64::MIN
    } else {
        (a + b) as i64
    }
}

/// Adds two 64-bit integers, saturating at the bounds of `i64`.
pub fn saturating_add_i64(a: i64, b: i64) -> (r: i64)
    ensures
        r == sat_add(a, b),
{
    match a.checked_add(b) {
        Some(v) => v,
        None => if b > 0 {
            i64::MAX
        } else {
            i64::MIN
        },
    }
}

} // verus!
