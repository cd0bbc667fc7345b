pub mod content;
pub mod file_processor;
pub mod item;
pub mod table_renderer;
pub mod text;
pub mod usage;
