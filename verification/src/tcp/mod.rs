pub mod response;
pub mod request;
pub mod translation;
