//! Core of a reverse-Polish calculator: a four-domain numeric model with a
//! canonical fixed-width textual encoding, a mode-dependent display formatter,
//! and a command-driven state machine over a four-deep register stack.

pub mod calc;
pub mod cplx;
pub mod dec;
pub mod laws;
pub mod disp;
pub mod native;
pub mod num;
pub mod parse;
pub mod pretty;
pub mod qrat;
pub mod repr;
pub mod text;

pub use calc::Calc;
pub use native::Native;
pub use native::NativeError;
pub use num::Num;
pub use repr::Repr;
