//! The logic of a volume on-screen display.

pub mod accuracy;
pub mod daemon;
pub mod double;
pub mod double_order;
pub mod error;
pub mod gather;
pub mod json;
pub mod missing;
pub mod notices;
pub mod osd;
pub mod report;
pub mod rounding;
pub mod screen;
pub mod sinks;
pub mod subscription;
pub mod tasks;
pub mod text;
pub mod volume;
pub mod window;
