# engine_3l14

The core data structures and rules of the 3l14 engine and its assets builder, written in
Verus and proved against their contracts.

- `src/` is the verified library:
  - asset keys of the three asset systems (`asset_3l14`, `asset`, `assets`), their text
    forms (`codec`), how a built asset's bytes split after their length prefix
    (`asset_3l14`), and the decisions of the asset worker and of enqueuing loads
    (`asset_worker`);
  - containers: `node_index`, `bucket_vec`, `object_pool` and the bounding-volume tree
    `aabb_tree`, whose geometry comes from an `AabbBounds` impl of the box type (`grid_box`
    is one with integer corners); its boxes stay nested (and
    tight: each the union of its children's) through every operation, so its searches
    find every matching leaf once;
  - the assets builder's registry, output keys and dependency lists (`builder`) and what
    each builder declares about itself (`builders`);
  - the debug menu's remembered state (`debug_menu`), asset load lists, symbols and the
    command-line data (`tooling`).
- `app/` is the assets builder program around the library: the command line, files,
  metadata records with their serde forms, the asset worker thread, an `f32` box type for
  the tree, and the debug menu's save file.
- `tests/` exercises the library from outside.
