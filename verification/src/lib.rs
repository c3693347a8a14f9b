pub mod collections;
pub mod company;
pub mod grep;
pub mod http;
pub mod pool;
pub mod text;
