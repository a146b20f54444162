//! Censoring of listed words in the audio of a media file: finding the words in a
//! transcript, mapping their times onto the samples of audio frames, cutting audio into
//! encoder frames, and the decisions around the encoder and the streams of the output.

use vstd::prelude::*;

pub mod arith;
pub mod bleeps;
pub mod censor;
pub mod encoder;
pub mod frames;
pub mod model;
pub mod noise;
pub mod streams;
pub mod text;
pub mod transcript;

verus! {

} // verus!
