//! Verified core of a Wi-Fi, VPN and Bluetooth manager for Linux that drives
//! `nmcli`, `bluetoothctl`, `busctl`, `pactl` and `dbus-send`.
//!
//! The library decides which helper programs to run with which arguments and
//! reads what they print; the programs themselves are started by a runner
//! that the caller hands in and that notes every run (see `process`).
pub mod text;
pub mod process;
pub mod order;
pub mod bluetooth;
pub mod bt_info;
pub mod theme;
pub mod audio;
pub mod bt_devices;
pub mod bt_trust;
pub mod nm;
pub mod nm_ops;
pub mod cli;
pub mod daemon;
