pub mod boot;
pub mod cpu;
pub mod drivers;
pub mod memory;
pub mod terminal;
