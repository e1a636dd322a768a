# stale

`stale` runs or skips a command depending on whether the files it watches
have changed since the command last succeeded.  It hashes the files matched
by glob patterns (their paths and contents, plus any extra strings, such as
package versions) and compares the hash with the one stored under a name in
a `.sum` file.

The library in `src/` holds the logic, each function with a contract that
Verus proves:

- `paths`: glob expansion into regular files, sorted component by component
  as `std::path::Path` orders them, each path once;
- `digest`: the combined SHA-256 hash, the per-file digests and the short
  entry names derived from the patterns;
- `sumfile`: reading and rewriting the `.sum` file (`<name> <hash>` lines);
- `pkg`: `manager:package` queries and version lookup in `package.json` and
  `uv.lock`;
- `discovery`: the default place of the `.sum` file at the git root;
- `guard`: the decisions of a run (skip, report a change, run the command,
  save the hash);
- `order`, `sort`, `text`: the orders, the stable sort and the character
  helpers these share.

`app/` is the command line around it: argument parsing, reading files and
the environment, running the command and writing the `.sum` file.
