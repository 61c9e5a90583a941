pub mod text;
pub mod numbers;
pub mod endpoint;
pub mod quote;
pub mod process;
pub mod netaddr;
pub mod ports;
pub mod procnet;
pub mod listing;
pub mod elevate;
pub mod wide;
