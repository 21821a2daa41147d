# sexp_parser

A reader for a small S-expression language, verified with Verus.

The input is a sequence of lists in parentheses; between them only
whitespace and `;` comments may stand. Inside a list stand lists and tokens:
string literals (`"..."`, with the escapes `\n \r \t \\ \0 \' \"` and a
backslash before a line break as a line continuation), character literals
(`'a'`), integers (`-12_345`, read as a magnitude and a sign), floats
(`1.5e3`, handed over as their decimal text), and symbols. Every token and
every error names the line and column where the offending construct starts; `\n`, `\r` and a
`\r\n` pair each end one line.

Layout:

- `src/position.rs`: character classes; how reading moves a line and column.
- `src/lexeme.rs`: integer and float lexemes (`check_integer`, `check_float`).
- `src/grammar.rs`: what reading a text yields, as spec functions.
- `src/message.rs`: the text that describes each reading error.
- `src/parser.rs`: the reader (`Context`, `parse`, `run`), proved to yield
  exactly what `grammar.rs` says.
- `src/laws.rs`: properties of every result: only lists on the top level,
  tokens in source order at their first character, and trailing whitespace
  and comments changing nothing.
- `src/stability.rs`, `src/token_order.rs`: the lemmas behind those laws.
- `app/main.rs`: the command-line program; it reads a file, and checks that
  the float literals fit an `f64`.
