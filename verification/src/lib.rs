//! Host-side driver core for the serial bootloader of ESP8266 and ESP32 chips.
//!
//! The library holds the wire protocol and the decisions of the driver, and
//! never touches a serial port: it says what to write, takes what was read a
//! byte at a time, and says which step of the connection ritual comes next.

pub mod bootloader;
pub mod connect;
pub mod protocol;
pub mod receiver;
pub mod slip;
