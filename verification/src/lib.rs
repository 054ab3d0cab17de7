//! Core state and editing logic of the Cloister text editor.
//!
//! The library holds the editor's document tabs, the clipboard, the undo and
//! redo histories and the find / replace machinery. Every operation that the
//! user interface performs on that state is a function here whose contract
//! says what it makes of the state's plain-value model (`model::AppView`).

pub mod app;
pub mod laws;
pub mod model;
pub mod search;
pub mod tab;
pub mod text;

pub use app::{CloisterApp, SavePlan};
pub use model::AppView;
pub use tab::{Tab, TabView};
