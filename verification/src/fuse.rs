pub mod fuse_iter;
pub mod info;
pub mod info_chain;
pub mod info_iter;
pub mod info_source;
pub mod kernel;
pub mod line;
pub mod line_counter;
