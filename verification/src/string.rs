//! Character classes, satisfiers (recognisers of runs of characters) and
//! percent-encoding.

pub mod encode;
pub mod satisfy;
pub mod utf8;

pub use self::{
    encode::Encode,
    satisfy::Satisfy,
};
