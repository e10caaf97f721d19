pub mod text;
pub mod address;
pub mod config;
pub mod flags;
pub mod thread;
pub mod maildir;
pub mod forest;
pub mod date;
pub mod compose;
pub mod utils;
pub mod email_view;
pub mod threads_view;
pub mod editor;
pub mod navigation;
pub mod commands;
pub mod screen;
pub mod outgoing;
pub mod built;
