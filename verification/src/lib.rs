//! Algoritmer og datastrukturer: aksjehandel, sortering, store tall,
//! hashtabeller, grafer, prioritetskøer og komprimering.

pub mod aksjer;
pub mod lz77;
pub mod huffman;
pub mod minheap;
pub mod langetall;
pub mod hashtabell;
pub mod navnetabell;
pub mod sortering;
pub mod grafkomponenter;
pub mod avstand;
pub mod dijkstra;
pub mod veinett;
pub mod tekst;
pub mod bytetelling;
pub mod lenket;
pub mod kosaraju;
