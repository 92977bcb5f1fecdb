# interpreter

Turns a half-written shell command line into the command you meant, by
asking an LLM, and prints it so a shell widget can put it back on the prompt.

The crate has two parts.

- `src/` is the library, verified with Verus. It holds the decisions:
  which shell is running and where its history file lives, the backward
  tail scan over that file and the clean-up of zsh's extended history, the
  system and user prompts, provider routing, the clean-up of the model's
  answer, the model catalogue (which entries become rows, their names,
  their order, the picker's filter), the configuration editor's rules
  (parsing, adding and removing plugins and context files, provider
  settings) and the `--install` instructions.
- `app/` is the binary around it: argument parsing, reading and writing the
  configuration file, the environment, the history file, HTTP requests, the
  `llm` client and the terminal UI. It hands plain values to the library and
  acts on what comes back.

At run time the binary reads the built-in system prompt from
`prompts/default_system.md` and the shell integrations from
`shell/interpreter.{zsh,bash,fish}`, relative to the crate directory.

Layout of `src/`:

| module        | contents                                                         |
| ------------- | ---------------------------------------------------------------- |
| `text`        | character-level helpers: trimming, prefixes, joining, lowercase  |
| `lines`       | `str::lines` semantics and the "last n lines" selection          |
| `shell`       | shell kinds, history path, history lines, the tail scan          |
| `cli`         | the parsed command line                                          |
| `config`      | configuration values, defaults, overrides, `provider/model`      |
| `llm_client`  | prompts, routing, answer clean-up                                |
| `model_list`  | catalogue rows, naming, stable ordering, filtering               |
| `init_tui`    | the configuration editor's rules                                 |
| `install`     | integration file names and post-install instructions             |
