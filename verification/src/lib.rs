//! Decoder and encoder for CCP's "blue marshal" serialization used by EVE Online
//! settings files, and the tree editing model built on it.

pub mod opcodes;
pub mod error;
pub mod value;
pub mod reader;
pub mod text;
pub mod encode;
pub mod decode;
pub mod roundtrip;
pub mod path;
pub mod parse;
pub mod mutate;
pub mod mutate_laws;
pub mod reshare;
pub mod reshare_laws;
pub mod container;
pub mod batch;
pub mod overview_tabs;
pub mod overview_states;
pub mod document;
pub mod discover;
pub mod overview_pack;
pub mod surface_laws;
pub mod pack_apply;
pub mod overview_presets;
pub mod autofill;
pub mod pack_laws;
pub mod neocom;
pub mod keybinds;
pub mod chat;
pub mod overview;
pub mod pack_read;
pub mod pack_yaml;
pub mod int_laws;
pub mod hex_laws;
