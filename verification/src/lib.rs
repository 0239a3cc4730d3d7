//! Verified core of a Raspberry Pi system monitor: the text parsing of
//! kernel and tool outputs, the choice of network interfaces, the power rail
//! table and the bounded history of samples.

pub mod history;
pub mod letter_case;
pub mod net;
pub mod order;
pub mod power;
pub mod system;
pub mod text;
