# mimir

The verified core of a SystemVerilog language server, and the server around it.

`src/` is the library. Verus proves every function in it against its contract;
what it takes from elsewhere is assumed as declared. From outside crates these are
ropes (`rope.rs`), fuzzy scores and case folding (`completion_score.rs`) and, as they
are on Unix targets, URLs (`paths.rs`). From the standard library these are
`String::push`, `String::push_str`, `String::pop` and `char::is_alphanumeric`
(`text.rs`), and `RangeInclusive::start` and `RangeInclusive::end` (`format.rs`).

- `text`, `model`, `rope`, `paths`: texts, lists, ropes and paths, and the
  vocabulary that the other contracts are written in.
- `document`, `documents`, `requests`: positions and edits, the documents that are
  open, and what the server decides on requests and notifications.
- `ast`, `symbols`: what the compiler and the parser say of a source file.
- `ast_features`, `navigation`, `chain_resolve`, `member_features`,
  `hover_features`, `hierarchy_features`, `completion`, `completion_score`,
  `workspace_symbols`, `code_lens`, `lsp_convert`, `lsp`: the answers to the editor.
- `includes`, `filelist`, `project`: which files a project consists of.
- `diagnostics`, `diag_policy`, `elaborate_service`: what is reported, and when the
  compiler runs.
- `format`: what the formatter is given and what is made of its output.

`app/` is the server: the protocol, the file system, processes and tasks. A
grammar and a compiler plug in through the traits of `app/grammar.rs` and
`app/compiler.rs`.

`tests/` runs the library on concrete values.
