pub mod dispatch;
pub mod names;
pub mod package;
pub mod scan;
pub mod ticket;
pub mod tracker;
