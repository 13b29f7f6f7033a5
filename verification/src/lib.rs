//! Decision logic of a local bridge between a browser and phones.

pub mod desktop;
pub mod handlers;
pub mod ice;
pub mod ip;
pub mod path;
pub mod path_laws;
pub mod profile;
pub mod proxy;
pub mod relay;
pub mod rtc;
pub mod text;
pub mod touch;
pub mod workspace;
pub mod workspace_laws;
pub mod zxh;
