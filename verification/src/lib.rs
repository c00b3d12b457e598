pub mod attention;
pub mod bench;
pub mod bf16;
pub mod cache;
pub mod chat;
pub mod config;
pub mod cpu;
pub mod driver;
pub mod dtype;
pub mod error;
pub mod gateway;
pub mod hybrid;
pub mod json;
pub mod kernel;
pub mod kv;
pub mod loader;
pub mod memsum;
pub mod models;
pub mod order;
pub mod parity;
pub mod plan;
pub mod policy;
pub mod request;
pub mod rounds;
pub mod routing;
pub mod scheduler;
pub mod scheduler_laws;
pub mod seq;
pub mod slot;
pub mod step;
pub mod text;
pub mod tokenizer;
pub mod topology;
pub mod weights;
