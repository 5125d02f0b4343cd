# shodh_memory

Guards and entity extraction for a knowledge-graph memory, verified with Verus.

| Module | What it holds |
| --- | --- |
| `endpoint_guard`, `ip_addr` | Which API URLs would send the key in cleartext to a remote host |
| `path_guard` | Which identifiers are a single plain path component |
| `ner` | When the span typer or the keyword rules run, and the cache of their results |
| `typer`, `rules`, `replay` | Entities from the typer's spans, from keyword findings and from recordings |
| `spans` | Selection of entities that do not overlap |
| `entity`, `confidence` | Entities, their classes and their scores |
| `cold_start`, `lexical`, `stop_words` | Heuristic extraction for sparse graphs |
| `cache` | The result cache and its keys |
| `text`, `unicode` | Characters, words and searching |

What the library promises as a whole is stated by the public proof functions whose names start with
`law_`.

The contracts rest on stated assumptions about the standard library's character classes, lowercase
mapping, `String::push` and `PathBuf::clone` (in `unicode` and `ner`), and about `moka`'s cache (in
`cache`). Scores are carried as the bits of single-precision numbers.

`app/` is the ordinary Rust around the library: environment variables, files, models and logs.
