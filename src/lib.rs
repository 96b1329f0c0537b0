//! Ranking and windowed-selection engine of an application launcher.
//!
//! The catalog of launchable programs, the usage history that biases the
//! ranking, the ranking itself and the scrollable view model with its
//! non-selectable section headers are all modelled and verified here.

pub mod text;
pub mod usage;
pub mod similarity;
pub mod ranking;
pub mod view;
pub mod catalog;
