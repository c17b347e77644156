pub mod content;
