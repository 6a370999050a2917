//! Timeline data model, script import, plugin protocol and media helpers of
//! the pool motion-graphics editor, with their contracts.

pub mod player;
pub mod order;
pub mod text;
pub mod model;
pub mod keyframes;
pub mod plugin;
pub mod slang;
pub mod media;
pub mod render;
pub mod composite;
pub mod export;
pub mod aviutl;
