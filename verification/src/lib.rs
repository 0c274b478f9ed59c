//! Verified core of a pipeline that turns a tile-map document into a scene of
//! tile entities and keeps that scene in step with the document.
//!
//! The document is held as plain data (`document`). Loading resolves how each
//! tileset's images are addressed (`texture`, `loader`). Grid synthesis turns
//! one loaded map into tile groups (`synthesis`), and the reconciliation pass
//! rebuilds the groups of every scene instance whose map changed (`reconcile`),
//! over an explicit model of the entities that the pipeline owns (`scene`).
//! What holds across these parts is proved in `laws`.
//!
//! The library does no input or output and spawns nothing by itself. The host
//! reads and parses the document and hands the outcome to the loader, requests
//! the images that the loaded map lists, and carries out the commands that
//! the reconciliation pass returns.

pub mod document;
pub mod texture;
pub mod loader;
pub mod scene;
pub mod synthesis;
pub mod reconcile;
pub mod laws;

pub use loader::{TiledAssetLoaderError, TiledLoader, TiledMap};
pub use reconcile::{process_loaded_maps, TiledLayersStorage, TiledMapBundle};
