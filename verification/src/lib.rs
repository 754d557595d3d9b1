//! Diff views of a branch against its base: the model, the layout of what is shown, and the
//! text formats that the views are written out in.
pub mod app;
pub mod bytes;
pub mod diff;
pub mod event_loop;
pub mod float;
pub mod git;
pub mod gitignore;
pub mod html;
pub mod image_diff;
pub mod input;
pub mod limits;
pub mod message;
pub mod output;
pub mod patch;
pub mod path;
pub mod print;
pub mod scan;
pub mod style;
pub mod syntax;
pub mod text;
pub mod ui;
pub mod update;
