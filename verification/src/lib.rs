//! The rules of a Roblox place kept under source control.

use vstd::prelude::*;

pub mod artifact;
pub mod attributes;
pub mod boundary_laws;
pub mod bridge;
pub mod bridge_frames;
pub mod bridge_records;
pub mod build_cache;
pub mod builds;
pub mod capture;
pub mod capture_identity;
pub mod capture_laws;
pub mod capture_run;
pub mod difference_laws;
pub mod evaluation;
pub mod evaluation_laws;
pub mod evidence_laws;
pub mod extraction;
pub mod extraction_laws;
pub mod hashing;
pub mod hierarchy;
pub mod hierarchy_laws;
pub mod identity_locations;
pub mod identity_staging;
pub mod journal;
pub mod journal_documents;
pub mod journal_writing;
pub mod json_view;
pub mod key_laws;
pub mod live_policy;
pub mod lua;
pub mod managed_hierarchy;
pub mod manifest_identity;
pub mod map_laws;
pub mod match_laws;
pub mod meta_writing;
pub mod name_laws;
pub mod names;
pub mod place;
pub mod place_diff;
pub mod place_fingerprints;
pub mod place_laws;
pub mod place_matching;
pub mod place_values;
pub mod policy_laws;
pub mod program;
pub mod project_diff;
pub mod project_document;
pub mod project_references;
pub mod project_routes;
pub mod project_state;
pub mod project_writing;
pub mod queue;
pub mod rebinding;
pub mod reference_laws;
pub mod reflection;
pub mod route_laws;
pub mod script_laws;
pub mod script_sources;
pub mod shutdown;
pub mod snapshot;
pub mod source_laws;
pub mod source_metadata;
pub mod source_tree;
pub mod source_writing;
pub mod sourcemap;
pub mod stable_identities;
pub mod text;
pub mod text_map;
pub mod transactions;
pub mod tree;
pub mod variant;
pub mod watch;
pub mod watch_roots;

verus! {

/// A stable instance identity. Zero stands for the absent reference.
pub type Ref = u128;

/// The absent reference.
pub const NO_REF: u128 = 0;

} // verus!
