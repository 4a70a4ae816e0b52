//! Core logic of a collaborative pixel canvas: tiled regions, the pixel
//! codec, ownership rules, statistics and the plans that the surrounding
//! services execute against the key-value store.

pub mod api;
pub mod board;
pub mod bucket;
pub mod cache;
pub mod canvas;
pub mod config;
pub mod consumer;
pub mod contract;
pub mod draw_event;
pub mod event;
pub mod ingest;
pub mod owner;
pub mod pipeline;
pub mod region;
pub mod store;
pub mod tally;
pub mod text;
pub mod valkey;
pub mod ws;
