pub mod aes;
pub mod ascii;
pub mod base64;
pub mod crack;
pub mod hex;
pub mod score;
pub mod util;
