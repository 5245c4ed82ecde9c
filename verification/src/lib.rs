//! Readers (and a writer) for the NAIF SPICE kernel formats: DAF
//! containers, SPK ephemerides, binary PCK orientation files, the
//! body-name slice of text kernels, and the built-in NAIF body table.

pub mod binding_text;
pub mod bindings;
pub mod builtin_table;
pub mod chars;
pub mod count_double;
pub mod daf;
pub mod decimal;
pub mod double_word;
pub mod frame;
pub mod naif_ids;
pub mod pck;
pub mod spice_error;
pub mod spk;
pub mod spk_readback;
pub mod spk_roundtrip;
pub mod spk_writer;
pub mod text_kernel;
pub mod text_lex;
pub mod trailer;

pub use daf::{DafError, DafFile, Summary};
pub use frame::NaifFrame;
pub use naif_ids::{bodc2n, bodn2c, NaifIdError};
pub use pck::{PckError, PckFile, PckSegment};
pub use spk::{SpkError, SpkFile, SpkSegment};
pub use spk_writer::{SpkWriter, SpkWriterError, Type3Record, Type3Segment, Type9Segment};
pub use text_kernel::{parse_body_bindings_from_str, BodyBinding, TextKernelError};
