//! Selection engine of an interactive terminal line picker: the entry model that
//! gives each line its shortest distinguishing prefix, the session state machine
//! that narrows, moves and confirms the selection as keys arrive, and the parser
//! of highlight colour settings.
pub mod app;
pub mod color;
pub mod menu;
pub mod numeric;
pub mod string;
