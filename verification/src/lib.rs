//! Core logic of an audio mastering workstation: timeline regions, track
//! naming and tagging, peak display queries, and the Red Book / DDP
//! deliverable formats.

pub mod album;
pub mod cdtext;
pub mod chains;
pub mod ddp;
pub mod error;
pub mod export;
pub mod ffmpeg;
pub mod float_bits;
pub mod legacy;
pub mod loudness;
pub mod scan;
pub mod scanning;
pub mod sessions;
pub mod silence;
pub mod sorting;
pub mod stream;
pub mod text;
pub mod timeline;
pub mod tracks;
pub mod metadata;
pub mod naming;
pub mod paths;
pub mod peaks;
pub mod plan;
pub mod playlist;
pub mod presets;
pub mod record;
pub mod render;
pub mod riff;
pub mod plugins;
pub mod project;
pub mod vst3;
