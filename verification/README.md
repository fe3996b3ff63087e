# learnminal

The logic of a terminal assistant: it explains the last command, answers questions about
it, and lets a language model look around with the commands of an allowlist. Everything under `src/`
is verified with Verus against contracts over sequences of characters.

| Module | What it holds |
| --- | --- |
| `text`, `path`, `json` | strings, paths and JSON values, with their meaning as spec functions |
| `types`, `settings`, `sysinfo`, `session`, `journal` | what is known of the terminal, the user and the machine |
| `grid_extractor` | commands and output, read from the rows of a terminal |
| `manpage`, `docs_fallback`, `web_search` | reference material, cut to a budget |
| `prompt`, `verify`, `actions` | what the model is told, and what is kept of its reply |
| `read_exec` | the policy for commands that the model may run: which binaries, and which arguments of each |
| `ollama`, `requests`, `ipc_client` | the protocols: streams, rounds of tool calls, errors |
| `explain`, `layout`, `overlay`, `draw` | the panel: its state, its keys and its rows of text |

Functions named `law_…` are proofs of properties that span several functions.

`app/` is ordinary Rust around the library: files, processes, network, the database, and the
pixels of the window. `tests/` runs the library on concrete values.
