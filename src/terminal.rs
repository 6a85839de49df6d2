pub mod ansi;
pub mod font;
pub mod logger;
pub mod themes;
pub mod tty;
