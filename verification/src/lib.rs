//! The decision core of the liasse runtime.

pub mod order;
pub mod text;
pub mod table;
pub mod decimal;
pub mod integer;
pub mod time;
pub mod value;
pub mod address;
pub mod rejection;
pub mod model;
pub mod generation;
pub mod state;
pub mod members;
pub mod refs;
pub mod inbound;
pub mod redirects;
pub mod program;
pub mod cell;
pub mod interp;
pub mod statements;
pub mod deletion;
pub mod target;
pub mod syntax;
pub mod calls;
pub mod doc;
pub mod plan;
pub mod coerce;
pub mod history;
pub mod json;
pub mod lineage;
pub mod index;
pub mod movement;
pub mod patch;
pub mod version;
pub mod mapping;
pub mod captured;
pub mod downgrade;
pub mod copy;
pub mod migrate;
pub mod migration_laws;
pub mod update;
pub mod release_laws;
pub mod keyring;
pub mod keyring_laws;
pub mod keyring_view;
pub mod funding;
pub mod pools;
pub mod row_types;
pub mod meter;
pub mod declaration_laws;
pub mod levels;
pub mod spending;
pub mod balance;
pub mod metering_laws;
pub mod module_error;
pub mod binding;
pub mod space;
pub mod install;
pub mod peer;
pub mod seed_merge;
pub mod exposure;
pub mod imports;
pub mod parent;
pub mod hosting;
pub mod module_update;
pub mod lifecycle;
pub mod module_laws;
pub mod recorder;
pub mod operators;
pub mod slots;
pub mod mounting;
pub mod aggregate;
pub mod host;
pub mod ring_laws;
pub mod materialize;
pub mod lifecycle_laws;
pub mod execution;
pub mod erasure;
pub mod run;
pub mod accounting;
pub mod replacement;
pub mod freshness;
pub mod program_laws;
pub mod call_laws;
pub mod locals;
pub mod outcome;
pub mod engine_laws;
pub mod reading_laws;
pub mod boundary_laws;
