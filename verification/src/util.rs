pub mod json5;
pub mod json_patch;
pub mod patterns;
pub mod text;
pub mod value;
