//! The logic of `ce-fleet`, a tool for owning a device mesh: pairing two devices by mutual
//! consent, keeping the issued capabilities in a wallet, and rolling up what the mesh reports.
pub mod text;
pub mod proto;
pub mod util;
pub mod daemon;
pub mod wallet;
pub mod pair;
pub mod rollup;
pub mod cli;
