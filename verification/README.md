# argot_cmd

An agent-first command-line framework whose core is verified with Verus:
the command model and its builders, word resolution, argument parsing, the
query and help decisions of the entry point, the registry and its searches,
the renderers (help, Markdown, docs, skill files, shell completions, JSON
Schema model), Markdown command files with frontmatter, layered sources and
their merge, input validation, and the attribute reading behind the derive.

## Layout

- `src/` — the verified library. Each module states its behaviour over spec
  functions (`parse_spec`, `resolution`, `plan_spec`, `merged_commands`,
  `file_outcome`, ...) and proves its executable functions against them.
  Laws that span functions are public proof functions, for example
  `resolver::lemma_exact_name_wins`, `parser::lemma_flag_lookup_order`,
  `source::lemma_merge_precedence` and `model::lemma_built_command_valid`.
- `tests/` — tests run against the compiled library.
- `app/` — the runtime around it: handlers, middleware, printing, serde
  JSON output, reading Markdown directories from disk and the process
  entry points. It carries out the plans the library computes.

Calls into `serde_json`, `fuzzy-matcher` and `std` that the library makes
stand behind small trusted wrappers whose contracts name what they return.
