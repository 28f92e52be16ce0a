# mcgit

Version control for Minecraft worlds, built on Git: snapshot a world, browse
its history, restore, branch and merge it, and see what changed between two
versions down to single blocks, entities and structures.

The library in `src/` is written in Verus. Its functions are verified
against their contracts, except a few small trusted wrappers, each marked
`#[verifier::external_body]` and documented, that make one call into the
standard library, `fastnbt`, `fastanvil`, `sha1` or `sha2`:

- `world/` reads Anvil region files and chunk NBT: block palettes and their
  bit-packed indices, per-block, per-entity and per-structure differences,
  and tallies. `world/laws.rs` holds properties across these operations.
- `git/` drives `git` as a conversation: each operation is a function from
  its inputs and the replies received so far to its next request (run `git`,
  check the world's lock, read or write a file) or its outcome.
  `git/laws.rs` holds properties across the operations.
- `java.rs`, `minecraft.rs`: reading `java -version`, checksums, Adoptium
  addresses; Minecraft library rules, asset locations, download progress.
- `instance.rs`, `store.rs`, `dto.rs`: instance folders, stored records and
  settings rules, and the records handed to the desktop interface.
- `text.rs`: exactly specified text helpers (trimming, lines, decimals,
  ordering, paths).

`app/main.rs` is the command-line program around the library: it performs
the requests the library makes (processes, files, locks) and prints.
