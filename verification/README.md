# mcp_server_conceal_core

A privacy layer for MCP traffic: personal data in a text is replaced by
consistent fake values, and the fake values are put back in replies.

`src/` is a Verus-verified library:

- `text` – character-level operations (`find`, `replace`, `replacen`, `trim`,
  decimal and hexadecimal printing) with specifications over `Seq<char>`.
- `strmap` – a map keyed by strings with distinct keys in insertion order.
- `config` – configuration values, detections, anonymised entities, errors,
  and the check of the detection patterns.
- `faker` – fake values of each entity kind, with their shapes stated.
- `mapping` – the mapping store: forward mappings, the language-model cache
  and the fake-to-original table, with the database's insertion rules.
- `deanonymize` – putting original values back, longest fake value first.
- `anonymize` – known values, the replacement plan (sort, overlap merge) and
  the resolution of each detection to a fake value.
- `pipeline` – the proxy's treatment of one string.
- `json` – JSON messages: protocol traffic, candidate strings, rewriting.
- `server` – the standalone server's JSON-RPC replies and tools.
- `detection` – the regular-expression detector over the `regex` crate.
- `ner` – BIO decoding of a token-classification model's labels.
- `cli`, `prompt` – command-line values and prompt templates.

`app/` holds the program around it: argument parsing, the configuration file,
the SQLite database (rows are inserted and deleted as the store changes, so
sessions sharing the file keep each other's rows), the model-based detectors
(the ONNX model, the Ollama client), and the I/O loops of the server and the
proxy.

`tests/` runs the library on concrete values.

`Cargo.toml` also names `kstring` at 2.0.0, which nothing here uses directly:
it is a build dependency of `tract-onnx` (through `liquid-core`), held at the
release that the Rust version this project builds with can compile; the later
2.0 releases need a newer Rust.
