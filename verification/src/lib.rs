//! Hardware-independent pen report decoding, button bindings, WinTab context
//! routing and the other decisions of the CTL-460 driver.
pub mod button_actions;
pub mod calibration;
pub mod captured_chords;
pub mod device_selection;
pub mod lifecycle;
pub mod live_config;
pub mod options;
pub mod presets;
pub mod profile;
pub mod protocol;
pub mod reading;
pub mod startup_wait;
pub mod status;
pub mod tablet_mode;
pub mod wintab;
pub mod text;
