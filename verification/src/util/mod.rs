pub mod encoder;
pub mod vecset;
