# yaml-env-bridge

Converts between nested YAML config files and flat `KEY=VALUE` env files,
in both directions, with the conversion logic verified in Verus.

```
$ yaml-env-bridge --to env config.yaml
DATABASE__HOST=localhost
DATABASE__PORT=5432
$ yaml-env-bridge --to env config.yaml | yaml-env-bridge --to yaml
database:
  host: localhost
  port: 5432
```

Nested keys are joined with `__` and upper-cased; sequence items use their
index as a path segment (`SERVERS__0__NAME=web1`). Going back, keys are
split on `__` and lower-cased, and a group whose keys are exactly
`"0" .. "n-1"` is written as a YAML sequence.

## Layout

- `src/text.rs`: characters and text: whitespace, trimming, line
  splitting, UTF-8 widths, decimal numbers.
- `src/yaml_to_env.rs`: YAML to `KEY=VALUE`, one line at a time
  (`Flattener`), with a stack of open parent keys as the only state;
  `convert` for a whole text.
- `src/env_to_yaml.rs`: `KEY=VALUE` to YAML: the lines build a tree of
  groups (`EnvTree`), written out once the input ends; `convert` for a
  whole text.
- `src/roundtrip.rs`: the two directions undo each other on documents in
  canonical form (plain keys and values), proved for every such tree.
- `app/main.rs`: the command line: arguments, files, standard streams.
  YAML to env streams line by line; env to YAML reads everything, then
  writes.

Every function in `src/` carries a contract stating its exact result over
spec functions on `Seq<char>`; the laws (a later assignment wins, the
parent stack stays ordered by indentation, both round trips) are proof
functions.
