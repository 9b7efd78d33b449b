//! Application discovery for a desktop launcher: descriptor parsing,
//! launch-command cleanup, the application list and the icon cache.

pub mod text;
pub mod command;
pub mod entry;
pub mod catalog;
pub mod icon;
