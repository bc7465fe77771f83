//! qrctrl: the protocol, naming, networking and rendering rules of a
//! phone-to-PC remote control, with their contracts.

pub mod text;
pub mod token;
pub mod json;
pub mod file_transfer;
pub mod clipboard;
pub mod backend;
pub mod ws;
pub mod qr;
pub mod net;
pub mod config;
pub mod state;
pub mod assets;
pub mod tray;
pub mod startup;
pub mod api;
