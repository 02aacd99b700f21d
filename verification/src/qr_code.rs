//! Construction of the QR symbol: version 2 (25 x 25 modules), level L.

pub mod base45;
pub mod format;
pub mod framing;
pub mod layout;
pub mod masking;
pub mod matrix;
pub mod penalty;
pub mod placement;
pub mod reed_solomon;
pub mod symbol;

pub use self::base45::{divmod, encode_bits};
pub use self::framing::encapsulate_data;
pub use self::matrix::Matrix;
pub use self::reed_solomon::{apply_ecc, gf_multiply};
pub use self::symbol::build_symbol;
