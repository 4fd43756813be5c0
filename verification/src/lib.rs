//! Target expansion, fingerprint matching and response digesting for a
//! URL liveness scanner.

pub mod text;
pub mod order;
pub mod cidr;
pub mod cli;
pub mod targets;
pub mod pattern;
pub mod weburl;
pub mod response;
pub mod fingerprint;
pub mod output;
pub mod favicon;
pub mod legacy;
