//! WinTab provider logic: context geometry, session routing, each client process's
//! packet queues, attribute locks, saved contexts and the system-mouse policy.
pub mod pen;
pub mod words;
pub mod session;
pub mod contexts;
pub mod info;
pub mod managers;
pub mod routing;
pub mod system_output;
pub mod saved;
pub mod process;
pub mod locks;
