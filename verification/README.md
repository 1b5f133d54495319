# asset_ident

Idents of assets in a module graph, and the names of the files that they are written to.

* `src/layer.rs`: layers and the registry that numbers them by name.
* `src/path.rs`, `src/ident.rs`, `src/modifiers.rs`: idents, their changes and how they are written out.
* `src/naming.rs`, `src/output_name.rs`: the fields that are hashed and the name of the output file.
* `src/laws.rs`, `src/output_laws.rs`: what holds of all of them.
* `src/text.rs`, `src/bytes.rs`: characters and UTF-8 bytes.
* `app/`: the same idents as values of the task system, with the calls into it.

Paths, texts of paths, hashes and module parts come from the host: the library takes them as plain
values, or asks for them through a function that it is given.
