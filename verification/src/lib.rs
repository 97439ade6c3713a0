//! Recording compute passes and turning them into raw GPU commands.

pub mod bind;
pub mod binding_laws;
pub mod check_laws;
pub mod clear_laws;
pub mod command_buffer;
pub mod command_laws;
pub mod compute;
pub mod compute_ffi;
pub mod encode;
pub mod error;
pub mod hub;
pub mod id;
pub mod laws;
pub mod model;
pub mod pass_laws;
pub mod push_constants;
pub mod raw;
pub mod recorded_laws;
pub mod slot_laws;
pub mod state;
pub mod text;

