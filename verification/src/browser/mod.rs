//! The browser side: locating an executable, the DevTools targets it
//! lists, and which failures of its transport are worth a retry.
pub mod endpoint;
pub mod executable;
pub mod retry;
