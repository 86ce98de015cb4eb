//! The voice node's decisions.
pub mod ammix;
pub mod bytes;
pub mod cli;
pub mod clock;
pub mod control;
pub mod dsp;
pub mod history;
pub mod http;
pub mod json;
pub mod laws;
pub mod mumble;
pub mod names;
pub mod patches;
pub mod platform;
pub mod recorder;
pub mod router;
pub mod routing;
pub mod seqs;
pub mod servers;
pub mod stream;
pub mod supervisor;
pub mod table;
pub mod tally;
pub mod text;
pub mod varint;
pub mod vocoder;
