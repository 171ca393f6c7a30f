pub mod types;
pub mod line;
pub mod buffer;
pub mod window;
pub mod text;
pub mod terminal;
pub mod kbd;
pub mod input;
pub mod flat;
pub mod search;
pub mod buffers;
pub mod lock;
pub mod file;
pub mod edit;
pub mod util;
pub mod session;
pub mod decode;
