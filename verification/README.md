# opennote

The logic of the OpenNote desktop application, written in Verus: the state the
application keeps (servers and their blocks, tabs, selections, task tracking,
search results) and the decisions it makes on it, each public function with a
contract that Verus proves.

- `src/` is the verified library. Each module starts with a comment saying what
  it covers. Functions whose names start with `law_` are proof functions that
  state properties spanning several operations (what one call undoes, what a
  sequence of calls leaves behind).
- `tests/` runs the library on concrete values.
- `app/` is the program around it: logging set-up, reading the asset files,
  reading and writing the files of imports and exports.

Calls into other crates (`uuid`, `sanitize-filename`, parts of `std` that
Verus does not specify) sit behind small wrappers marked
`#[verifier::external_body]`, whose doc comments say what their contracts claim;
`serde_json::Value` and `SyncSender` are declared types that the library carries
without looking inside.
