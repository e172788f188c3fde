//! Low-latency audio capture and playback: the verified core.
//!
//! A capture run records 16-bit PCM, cuts it into frames (`capture`), drops silence, encodes,
//! wraps each packet in redundant framing (`red`) and hands it to a delivery thread (`ring`)
//! in a recycled buffer (`pool`). A playback run takes the mic uplink apart, decides what to
//! decode (`playback`) and keeps the result in a bounded queue (`queue`). Both keep a session
//! with the audio server up (`session`) and share one protocol for starting and stopping
//! (`lifecycle`). `ogg` frames packets as an Ogg stream, `settings` holds what a run is
//! configured with, and `wire` the byte orders that all of them use.
//!
//! The codec, the audio server and the threads lie outside; they report what happened and
//! perform what is decided here.
//!
//! The modules whose names end in `_laws` hold what is promised over several calls and of all
//! inputs: what a reader finds in what a writer wrote, what every step leaves alone, and what
//! adds up over a run.

pub mod capture;
pub mod capture_laws;
pub mod lifecycle;
pub mod lifecycle_laws;
pub mod ogg;
pub mod ogg_laws;
pub mod playback;
pub mod pool;
pub mod pool_laws;
pub mod queue;
pub mod red;
pub mod red_laws;
pub mod red_wire_laws;
pub mod ring;
pub mod session;
pub mod session_laws;
pub mod settings;
pub mod settings_laws;
pub mod wire;
pub mod wire_laws;
