//! An entity component system whose storage, bookkeeping and query logic is
//! specified and proved with Verus.

pub mod encodable;
pub mod encodable_vec;
pub mod names;
pub mod component;
pub mod grouping;
pub mod storage;
pub mod archetype;
pub mod entity_service;
pub mod runtime_tuple;
pub mod extension_component_service;
pub mod system_service;
pub mod guards;
pub mod inner_archetype;
pub mod rwlock;
pub mod settings;
pub mod graphic;
pub mod serialized_query;
pub mod query;
pub mod with;
pub mod yaml;
