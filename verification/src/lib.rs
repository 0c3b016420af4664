//! Fixed-size packet framing for a terminal byte stream: building packets from
//! raw bytes, their 32-byte wire image, burst decoding, trigger inspection and
//! the integer formatting used by the benchmark report.
pub mod bench;
pub mod packet;
pub mod render;
pub mod stream;
