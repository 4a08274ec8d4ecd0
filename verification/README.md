# Carbon

Carbon puts Roblox places under source control. A project file maps parts of a place
to directories of Luau source; the rest of the place stays in a data artifact that is
captured from Studio. Carbon composes both into one hierarchy, keeps it in step with a
running Studio while files change, and writes what Studio changed back to where it
belongs.

The library in `src/` holds what Carbon decides and computes, and proves it with Verus:

- identities: `manifest_identity`, `stable_identities`, `capture_identity`,
  `identity_locations`, `identity_staging`, `hashing`, `names`
- hierarchies: `snapshot`, `hierarchy`, `tree`, `variant`, `attributes`, `reflection`,
  `managed_hierarchy`, `rebinding`
- projects: `project_document`, `source_tree`, `source_metadata`, `evaluation`,
  `project_routes`, `project_references`, `project_state`, `project_diff`,
  `live_policy`, `script_sources`, `extraction`, `source_writing`, `meta_writing`, `project_writing`, `sourcemap`, `lua`
- building: `builds`, `build_cache`
- writing without loss: `journal`, `journal_documents`, `journal_writing`, `transactions`, `artifact`
- serving: `queue`, `watch`, `watch_roots`, `capture`, `capture_run`, `shutdown`
- Studio: `bridge`, `bridge_frames`, `bridge_records`
- comparing places: `place`, `place_values`, `place_fingerprints`, `place_matching`,
  `place_diff`
- `program`, `json_view`, `text`, `text_map`

Proof functions whose names begin with `law_` state what holds of the library as a
whole: that an interrupted commit rolls forward, that a tree gives back the hierarchy
it was built from, that a place does not differ from itself, and so on.

What the proofs take on trust stands in small functions marked `external_body`, each
with a comment that says what it claims of the crate it calls.

`app/` is the program around the library: arguments, files, processes, requests and
file-system events. `tests/` runs the library on values.
