pub mod sector;
pub mod mem_device;
pub mod fs;
pub mod stream;
pub mod file;
pub mod dir;
