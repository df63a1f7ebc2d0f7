pub mod curl;
pub mod dns;
