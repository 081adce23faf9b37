# atlas

Three features of a self-hosted developer server, with their logic
written in Verus and proved against its contracts:

- `graph`: turns a project directory into a map of files, sections and
  the edges between them (imports, links, mentions, containment);
  resolves import targets; reports architecture findings (import
  cycles, hubs, orphans, large files, undocumented directories,
  violations of a project's declared layers); computes the impact of a
  change; parses git's change listings.
- `afg`: workflows of agent tasks with acceptance gates: the workflow
  format and its validation, gate verdicts, retries and advancement, the
  tool scope a node grants, and the live view of a run's events.
- `auth`: local accounts: credential rules, password and token hashing,
  the signed OAuth `state`, which provider address may be trusted, what
  a login, a session or an invitation decides, and how each failure is
  answered.

## Layout

- `src/`: the verified library. Outside crates (argon2, sha2, hmac,
  rand, blake3, globset, regex, jsonschema, ulid, serde_json's `Value`)
  are reached only through small trusted wrappers whose contracts are
  stated next to them.
- `tests/`: the tests, run against the compiled library.
- `app/`: the input and output around it: walking and watching the
  file system, git and shell commands, SQL stores, HTTP routes and
  OAuth round trips, and reading YAML and TOML.
