pub mod codec;
pub mod crypto;
pub mod error;
pub mod factors;
pub mod header;
pub mod keywrap;
pub mod stream;
