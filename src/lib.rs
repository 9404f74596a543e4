//! A small entity-component runtime: entities, kind-keyed component tables and
//! resources guarded by dynamic read/write borrows, a descriptor-driven data
//! fetch for systems, a deterministic scheduler and a multi-reader event stream.

pub mod borrow;
pub mod color;
pub mod component;
pub mod config;
pub mod engine;
pub mod entity;
pub mod scene;
pub mod stream;
pub mod system;
pub mod timing;
pub mod world;

pub use borrow::{BorrowError, BorrowState};
pub use color::{palette_code, parse_hex, HtmlColorConversionError};
pub use component::{Component, ComponentSet, Components, ReadSet, WriteSet};
pub use config::{Config, ImageAsset};
pub use engine::{Action, Engine, Phase};
pub use entity::{Entities, Entity};
pub use scene::{Scene, System, Transaction};
pub use stream::{EventStream, Subscription, SubscriptionToken, STREAM_SIZE_BLOCK};
pub use system::{fetch, release, setup, Access, Data, FetchError, Fetched};
pub use timing::{FrameLimiter, Time, TimingSystem};
pub use world::{EntityBuilder, ReadResource, Resource, World, WriteResource};
