//! A thumbnail generation and cache engine for a 3D-model file browser.
//!
//! The engine turns file paths into offscreen-rendered preview images without
//! blocking the interactive frame loop.  It owns a path-keyed cache of render
//! targets, a FIFO queue of pending requests, and a single-flight render job
//! that advances across frame ticks.  The host runtime (asset loading, scene
//! spawning, actual rendering) is an external collaborator: the engine is
//! handed plain observations (load states, scene-graph shape) and hands back
//! decisions (what to spawn, when to isolate, when to tear down).

pub mod files;
pub mod scene;
pub mod thumbnails;
