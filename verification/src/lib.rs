pub mod cursor;
pub mod direct;
pub mod parser;
pub mod framer;
pub mod zlib;
pub mod compress;
pub mod mempool;
pub mod inflater;
pub mod buffer;
pub mod crypto;
pub mod mbedtls;
pub mod packet;
pub mod socket;
