pub mod buffer;
pub mod header;
pub mod packet;
pub mod protocol;
pub mod question;
pub mod record;
pub mod resolver;
