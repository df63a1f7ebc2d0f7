pub mod nftables;
