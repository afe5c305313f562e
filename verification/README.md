# tsql

SQL and connection-string logic of a terminal PostgreSQL client, verified with
Verus.

- `src/ssl.rs`: which SSL mode a connection string asks for
- `src/query.rs`: which table a query reads, whether it can be paged, whether it
  returns rows
- `src/lexer.rs`, `src/quoting.rs`: tokens, identifiers, quoted text and the
  escaping of string literals
- `src/schema_tree.rs`, `src/percent.rs`: identifiers of schema tree nodes
- `src/meta.rs`: SQL of the meta commands
- `src/text.rs`: strings as sequences of characters
- `app/tls.rs`: the TLS connectors, which `rustls` builds

Each executable function states its result over a spec function on sequences of
characters. What the library promises as a whole stands in the `law_` proof
functions. The items that Verus takes on trust are the calls into `url` and
`percent_encoding`, and `String::push`.
