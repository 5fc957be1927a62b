//! Panels and bars of the main window.
pub mod console;
pub mod explorer;
pub mod planning_setup;
pub mod status_bar;
