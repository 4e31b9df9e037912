# axum_folder_router

File-system routing for [Axum](https://github.com/tokio-rs/axum): a directory
of `route.rs`, `middleware.rs`, `fallback.rs`, `intercept.rs` and
`openapi.toml` files becomes a router, a module tree and (optionally) an
OpenAPI document.

The library in `src/` is written and proved with Verus. It takes the files of
the route directory (relative paths and contents) and computes plans: which
modules to declare, which statements build each (nested) router, and what the
OpenAPI document lists. Rust syntax is read with `syn` and TOML with `toml`,
each call behind a small trusted item whose contract is stated in the source.

- `paths` — directory names to module names and URL segments.
- `syntax` — Rust items and types as plain values, read with `syn`; each
  type node carries its printed tokens. A file is parsed once, when it is
  discovered (`SourceFile::new`), and every function that reads Rust takes
  the parsed items.
- `source` — what a Rust file defines: verb handlers, the arity of
  `middleware`/`fallback`, the extractors of `intercept`, doc comments.
- `routes` — the discovered files, classified, sorted and validated.
- `generate`, `plan` — the route tree, the router plan and the module tree.
- `serve`, `modules` — what a router plan serves and declares, with the laws
  that tie it to the files: every route at the URL of its directory, every
  `route.rs` with a handler served, the most specific `fallback.rs` in force,
  each `middleware.rs`/`intercept.rs` wrapping exactly its subtree, every
  referenced module declared.
- `openapi` — operation ids, schemas, per-directory `openapi.toml`
  resolution and the document.
- `args`, `text` — the attribute's flags and the struct's namespace; string
  helpers.

`app/` holds the attribute expansion: it walks the directory, reads the files,
calls the library and renders its plans as tokens with `quote`.
