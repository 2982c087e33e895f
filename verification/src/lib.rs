pub mod slave;
pub mod text;
pub mod helper;
pub mod master;
pub mod ordered;
