//! Decision logic of the Arcader kiosk installer: disk discovery, Wi-Fi scan
//! results, installer progress lines and the wizard's state machine.

pub mod text;
pub mod theme;
pub mod ui;
pub mod wizard;
pub mod disks;
pub mod install;
pub mod net;
pub mod sorting;
