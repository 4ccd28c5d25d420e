//! synfection: clone a synth sound into a playable patch.
//!
//! A patch is a genome: 16 knobs, each on a way from 0 to 1. The library reads and
//! writes patches, runs the network that hears one in a sound, grows and vets new
//! ones, lays their notes out as loops, and keeps the state of the app.
//!
//! No module computes with floating-point numbers. Samples and knobs are values of a
//! type that the caller picks, their arithmetic comes in as functions (see `func`),
//! and where values are stored or compared they are the bits of `IEEE` numbers.

pub mod dsp;
pub mod func;
pub mod garden;
pub mod genome;
pub mod history;
pub mod infer;
pub mod jobs;
pub mod library;
pub mod loops;
pub mod matcher;
pub mod midiio;
pub mod net;
pub mod notes;
pub mod order;
pub mod output;
pub mod pitch;
pub mod playback;
pub mod presets;
pub mod single;
pub mod smf;
pub mod synth;
pub mod text;
pub mod ui;
pub mod vary;
pub mod vet;
pub mod wavio;
