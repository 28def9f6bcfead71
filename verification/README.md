# icetron-paths

Locate an application's data and its bundled native libraries relative to the running
executable, so the same binary works on an FHS distribution and on one where nothing lives
under `/usr` (Nix, a relocated tarball, an `AppDir`). The library is verified with Verus.

`src/` is the verified library. Every lookup in it is a function of an `Environment` (the
variables and the executable path of a process) and, where the file system decides, of a test
that the caller passes in. `app/` runs the lookups on the current process.

- `path`, `pathbuf`: paths as byte strings in Unix syntax. What a path means is its list of
  components; parents, joins and equality are stated over it.
- `prefix`: `<prefix>` for an executable `<prefix>/bin/<exe>`.
- `search`: ordered search lists without duplicates.
- `xdg`: data and config directories.
- `cef`, `library`: lookup of CEF and of other bundled libraries.
- `probe`: trying candidates in order.

Two things worth knowing:

- **Ordering.** Every list is returned most specific first. Callers that merge in order and let
  later entries win must reverse it.
- **Trust boundaries.** `data_dirs` has the per-user directory; `system_data_dirs` does not
  depend on it. For anything that authorizes, use the `system_` variants.

Paths and variables are byte strings rather than `std::path` values so that a name that is not
UTF-8 is looked up like any other.

## Platform support

Paths and lists of paths have Unix syntax (`/` and `:`) wherever the library runs; drive prefixes,
`\` and `;` have no meaning in it. The XDG half of `app/` is for every target, `wasm32` among them.
The native-library half (CEF, pdfium) is absent on wasm, where there is no dynamic library to find
and no filesystem to find it on.
