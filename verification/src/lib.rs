pub mod order;
pub mod tree;
pub mod laws;
pub mod pairing;
