pub mod motion;
pub mod screen;
pub mod chars;
pub mod lines;
pub mod delete;
pub mod rewrite;
pub mod kill;
pub mod newline;
pub mod region;
pub mod paragraph;
pub mod para_motion;
pub mod windows;
pub mod chars_edit;
pub mod fill;
pub mod justify;
pub mod insert;
pub mod searching;
pub mod yank;
pub mod listing;
pub mod words;
pub mod word_case;
pub mod save;
pub mod undo_records;
