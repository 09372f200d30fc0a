pub mod bits;
pub mod codec;
pub mod csv;
pub mod eds;
pub mod error;
pub mod gzip;
pub mod h5;
pub mod mtx;
pub mod mtx_laws;
pub mod parse;
pub mod prior;
pub mod text;
pub mod utils;
pub mod write;
