//! PMML runtime core: hardened XML event reading, `PMML` unmarshaling into raw
//! structures, error values and the small pure helpers the scoring engine uses.

pub mod error;
pub mod value;
pub mod strings;
pub mod text;
pub mod xml;
pub mod reader;
pub mod unmarshal;
pub mod textmap;
pub mod ffi;
pub mod arena;
pub mod mapvalues;

pub use reader::{new_reader, PmmlReader};
pub use unmarshal::unmarshal;
