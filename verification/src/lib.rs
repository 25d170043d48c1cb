//! Extraction of student result records from the text and tables of
//! university result sheets.

pub mod entries;
pub mod laws;
pub mod marks;
pub mod pattern;
pub mod pdf;
pub mod record;
pub mod scan;
pub mod sheet;
pub mod table;
pub mod text;
