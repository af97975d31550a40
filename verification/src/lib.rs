pub mod bytes;
pub mod rng;
pub mod draws;
pub mod tables;
pub mod rotation;
pub mod rubik;
pub mod seed;
pub mod http;
pub mod traffic;
pub mod stats;
