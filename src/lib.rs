//! Supervision of a background file-watching worker and the line-delimited
//! JSON protocol spoken with it: command envelopes written to the worker's
//! input, and the relay of its output back to listeners.

pub mod envelope;
pub mod relay;
pub mod supervisor;
