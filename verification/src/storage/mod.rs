pub mod codec;
pub mod page;
pub mod pager;
