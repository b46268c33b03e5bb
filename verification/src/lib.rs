//! A minimal reverse proxy engine: wire decoding, backend selection and
//! response composition, with machine-checked contracts.

pub mod buffer;
pub mod decimal;
pub mod headers;
pub mod http;
pub mod proxy;
pub mod scan;
pub mod static_file_server;
pub mod upstream;
