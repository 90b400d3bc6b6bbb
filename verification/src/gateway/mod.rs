pub mod backoff;
pub mod clock;
pub mod control_plane;
pub mod session_keys;
pub mod text;
