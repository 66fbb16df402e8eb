//! The interactive view of a repository's commits.

pub mod app;
pub mod app_laws;
pub mod draw_laws;
pub mod event;
pub mod event_laws;
pub mod history;
pub mod key_laws;
pub mod keys;
pub mod label_laws;
pub mod laws;
pub mod links;
pub mod load;
pub mod load_laws;
pub mod local;
pub mod log_laws;
pub mod model;
pub mod move_laws;
pub mod moves;
pub mod preview;
pub mod publish_laws;
pub mod rebase;
pub mod rebase_laws;
pub mod render;
pub mod screen;
pub mod screen_laws;
pub mod sound;
pub mod state;
pub mod style;
pub mod todo;
pub mod todo_laws;
pub mod workspace;
