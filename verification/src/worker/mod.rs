pub mod nfqws2;
pub mod slot;
