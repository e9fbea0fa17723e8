pub mod image;
pub mod pixel_format;
pub mod capture;
pub mod render;
pub mod selection;
pub mod canvas;
pub mod encode;
pub mod watchdog;
