pub mod appimage_env;
pub mod agent_settings;
pub mod json;
pub mod limits;
pub mod path;
pub mod text;
