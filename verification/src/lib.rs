//! Small browser utilities: a deterministic password generator and a JSON Web
//! Token decoder, with the page routing and HTML building that surrounds them.

pub mod codec;
pub mod jwt;
pub mod password;
pub mod router;
pub mod text;
