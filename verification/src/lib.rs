//! Verified core of a speech-recognition server.

pub mod decode;
pub mod diarize;
pub mod fbank;
pub mod json;
pub mod model;
pub mod nemotron;
pub mod order;
pub mod request;
pub mod score;
pub mod streaming;
pub mod text;
pub mod transcript;
pub mod wav;
