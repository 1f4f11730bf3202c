//! An entity-component-system (ECS) core: generational entity keys, archetype
//! tables storing component records as plain byte rows, query matching and
//! filtering, a dependency graph of data accesses, and a scheduler that orders
//! systems and groups them into conflict-free batches.

pub mod any_map;
pub mod cache;
pub mod commands;
pub mod component;
pub mod dependency;
pub mod ecs_id;
pub mod entity;
pub mod entity_storage;
pub mod error;
pub mod gen_vec;
pub mod graph;
pub mod query;
pub mod query_filter;
pub mod resource;
pub mod scheduler;
pub mod sorted_vec;
pub mod system;
pub mod table_aos;
pub mod table_soa;
pub mod table_storage;
pub mod thin_blob_vec;
pub mod typeid_map;
pub mod world;
