pub mod utils;
pub mod peer;
pub mod data;
pub mod consts;
pub mod codec;
pub mod ecs;
pub mod storage;
pub mod peer_connection;
pub mod service;
pub mod handlers;
pub mod scheduler;
pub mod organizer;
pub mod mp3;
pub mod chunk;
pub mod download_memory;
pub mod signature;
pub mod peers;

