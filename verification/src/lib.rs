//! Modular-residue scanning of decimal digit streams, with the multi-limb
//! integers and lane vectors that it computes on.
pub mod client;
pub mod detect;
pub mod post;
pub mod reduce;
pub mod rem;
pub mod scan;
pub mod session;
pub mod task;
pub mod residue;
pub mod u128x8;
pub mod u192;
pub mod u192x8;
pub mod window;

pub use self::detect::{Data, M1Data, M2Data, M3Data, M4Data};
pub use self::rem::{rem_u128, rem_u192_m3, rem_u192x8_m3, rem_u32x16, rem_u64x8};
pub use self::u128x8::U128x8;
pub use self::u192::U192;
pub use self::u192x8::U192x8;
