//! A bidirectional codec layer between typed values and a parsed term tree
//! ("wood"): leaves of text and ordered branches, each with a source position.
//!
//! Encoders (`Wooder`) turn values into trees and never fail; decoders
//! (`Dewooder`) read values out of trees and fail with an error positioned at
//! the offending node. Types with a canonical form implement `Woodable` and
//! `Dewoodable`, which `DefaultBiwooder` forwards to; combinators build
//! strategies for sequences, tagged sequences, pairs and maps from inner ones.
use vstd::prelude::*;

pub mod wood;
pub mod error;
pub mod text;
pub mod scan;
pub mod codec;
pub mod decimal;
pub mod primitives;
pub mod sequence;
pub mod map;
pub mod render;
pub mod parse;
pub mod textual;
pub mod compose;
pub mod laws;

pub use wood::{Wood, Leaf, Branch};
pub use error::{DewoodifyError, PositionedError, WoodposeError};
pub use scan::FieldScanning;
pub use codec::{Wooder, Dewooder, Biwooder, Woodable, Dewoodable, DefaultWooder, DefaultDewooder, DefaultBiwooder, woodify, dewoodify};
pub use sequence::{SequenceTran, TaggedSequenceTran, PairBi, woodify_seq_into, dewoodify_seq_into};
pub use map::{HashMapBi, TaggedHashMapBi};
pub use compose::{CompositeBiwooder, OptionalBoxBiwooder, LambdaWooder, LambdaDewooder, biwooder_from_fns};
pub use parse::parse_termpose;
pub use textual::{deserialize, serialize};

verus! {

} // verus!
