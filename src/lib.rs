//! Password recovery for ZIP archives protected with traditional ZipCrypto.

pub mod zipcrypto;
pub mod locator;
pub mod dictionary;
pub mod charset;
pub mod odometer;
pub mod archive;
pub mod search;
pub mod engine;
