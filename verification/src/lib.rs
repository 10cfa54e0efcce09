//! Recording, merging and summarising of two-track meetings.

pub mod args;
pub mod counting;
pub mod decimal;
pub mod devices;
pub mod downmix;
pub mod gaps;
pub mod json;
pub mod merge;
pub mod meta;
pub mod names;
pub mod notation;
pub mod numeral;
pub mod order;
pub mod recorder;
pub mod recording;
pub mod report;
pub mod restore;
pub mod sample;
pub mod stream;
pub mod sum;
pub mod summary;
pub mod text;
pub mod timeline;
pub mod track;
pub mod transcript;
pub mod wav;
