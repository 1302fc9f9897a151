//! The logic of the settings pages: applet setting schemas and their stored values,
//! application shortcuts, the panel pages, and the About page.
pub mod about;
pub mod applet;
pub mod l10n;
pub mod panel;
pub mod raw;
pub mod schema;
pub mod shortcuts;
pub mod store;
