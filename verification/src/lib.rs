//! An archetype-based entity-component store.
//!
//! Entities are generational handles. Each entity carries a set of components,
//! every component being the bytes of one value of one component type. Entities
//! with the same set of component types share an archetype, which stores their
//! components column by column.

pub mod archetype;
pub mod arena;
pub mod builder;
pub mod command_buffer;
pub mod component;
pub mod entities;
pub mod entity;
pub mod frame;
pub mod laws;
pub mod prepared;
pub mod query;
pub mod view;

pub use crate::archetype::Archetype;
pub use crate::arena::Arena;
pub use crate::builder::BatchIncomplete;
pub use crate::builder::BuiltEntityClone;
pub use crate::builder::ColumnBatch;
pub use crate::builder::ColumnBatchBuilder;
pub use crate::builder::ColumnBatchType;
pub use crate::builder::EntityBuilder;
pub use crate::builder::EntityBuilderClone;
pub use crate::command_buffer::CommandBuffer;
pub use crate::component::Bundle;
pub use crate::component::Component;
pub use crate::component::TypeInfo;
pub use crate::entities::Entities;
pub use crate::entities::Location;
pub use crate::entities::NoSuchEntity;
pub use crate::entity::Entity;
pub use crate::frame::ComponentError;
pub use crate::frame::Frame;
pub use crate::frame::MissingComponent;
pub use crate::prepared::PreparedQuery;
pub use crate::query::Access;
pub use crate::query::Fetch;
pub use crate::query::Item;
pub use crate::view::EntityRef;
pub use crate::view::QueryOneError;
pub use crate::view::QueryView;
