pub mod extensions;
pub mod util;
