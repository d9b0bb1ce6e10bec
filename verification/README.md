# rexplore

Explores the public API of a Rust crate from its rustdoc JSON and prints it as
readable Rust: `use` statements for the paths that can be written short,
shortened item lines, and impl blocks grouped (methods inside their impl
block, impls of standard library traits for one type condensed into
`impl A + B for T`). Items can be filtered by keyword or regular expression.

The library in `src/` is verified with Verus; its contracts state what each
function returns, and proof functions state the laws the library keeps (for
example, that both groupings lose no item, and that after any sequence of
analyses a path is shortened exactly when no other recorded path has its name;
a name that later collides is no longer shortened; only whole paths are
shortened, never a path inside a longer one).

- `src/text.rs`, `src/order.rs`: character-sequence operations and the order
  of strings.
- `src/tokens.rs`, `src/public_item.rs`: the rendered tokens of an item.
- `src/namespace_manager.rs`: finding qualified paths, deciding which can be
  shortened, `use` statements, shortening text.
- `src/filter.rs`: keyword and regex filtering.
- `src/impl_grouper.rs`: grouping std trait impls by the type they are for.
- `src/rexplore_core/`: grouping with the crate's index (methods into impl
  blocks), rendering groups, package names in manifests, errors.
- `src/cli.rs`: the lines the command prints.
- `src/mcp.rs`: the decisions of the MCP server and the text of its tool.

`app/` holds the command-line program and the MCP server around the library:
argument parsing, running `cargo rustdoc`, reading files, JSON-RPC on stdio.
The rendering of rustdoc items into tokens is not part of this crate: `app/`
takes the rendered items from the `public-api` crate, which renders them the
same way.
