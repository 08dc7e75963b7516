pub mod bit;
pub mod compare;
pub mod env;
pub mod error;
pub mod level_generator;
pub mod logger;
pub mod ordskiplist;
pub mod random;
pub mod skiplist;
pub mod skipnode;
pub mod sort;
pub mod types;
