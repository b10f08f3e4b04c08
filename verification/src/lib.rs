pub mod codec;
pub mod dag;
pub mod dag_metadata;
pub mod errors;
pub mod executor;
pub mod node;
pub mod pipeline;
pub mod record;
pub mod rocksdb_map;
pub mod source;
pub mod transaction;
pub mod worker;
