//! Storage path of an SD card behind a flash cartridge: the cartridge's
//! register protocol, block reads from the card, partition views and a paged
//! byte stream over any block device.
pub mod ezflash;
pub mod sd;
pub mod ramdisk;
pub mod fs;
