pub mod buffer;
pub mod chars;
pub mod elements;
pub mod gaps;
pub mod grammar;
pub mod laws;
pub mod model;
pub mod number;
pub mod parts;
pub mod position;
pub mod preview;
pub mod reader;
pub mod restriction;
pub mod resume;
pub mod session;
pub mod space;
pub mod spelling;
pub mod string_reader;
pub mod text;
pub mod token;
pub mod tracking;
pub mod types;
pub mod usage;
pub mod writing;
