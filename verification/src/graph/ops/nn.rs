//! ML layer: activations, losses, pooling, composed onto the base substrate.

pub mod activation;
pub mod pool;
pub mod conv;
pub mod loss;
pub mod norm;
pub mod attention;
pub mod deconv;
