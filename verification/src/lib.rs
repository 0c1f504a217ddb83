//! The logic of a SIP softphone: what the engine reports and what the call
//! history makes of it, the settings and the rules they are held to, the
//! frames of the control channel, the call sounds and the log.

pub mod text;
pub mod message;
pub mod phone_state;
pub mod netstring;
pub mod native;
pub mod settings;
pub mod shortcuts;
pub mod logs;
pub mod log_text;
pub mod history;
pub mod storage;
pub mod protocol;
pub mod config;
pub mod actions;
pub mod audio;
pub mod wav;
pub mod trust;
pub mod licenses;
pub mod engine;
pub mod window;
