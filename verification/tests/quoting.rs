use tsql::lexer::tokenize;
use tsql::quoting::{escape_sql_string_literal, skip_quoted, undouble};
use tsql::text::{chars_of, string_of};

#[test]
fn escape_doubles_single_quotes() {
    assert_eq!(escape_sql_string_literal("users"), "users");
    assert_eq!(escape_sql_string_literal("O'Brien"), "O''Brien");
    assert_eq!(escape_sql_string_literal("''"), "''''");
    assert_eq!(escape_sql_string_literal(""), "");
    assert_eq!(escape_sql_string_literal("\"x\""), "\"x\"");
}

#[test]
fn undoubling_gives_back_what_was_escaped() {
    for s in ["", "'", "''", "a'b''c", "'; DROP TABLE users; --", "\u{e9}'"] {
        let escaped = escape_sql_string_literal(s);
        let back = undouble(&chars_of(&escaped), '\'');
        assert_eq!(string_of(&back), s);
    }
}

#[test]
fn undoubling_reads_pairs_from_the_left() {
    assert_eq!(string_of(&undouble(&chars_of("\"\"\""), '"')), "\"\"");
    assert_eq!(string_of(&undouble(&chars_of("a\"\"b\"c"), '"')), "a\"b\"c");
}

#[test]
fn escaped_value_stays_inside_its_literal() {
    let literal = format!("'{}'", escape_sql_string_literal("x'; DROP TABLE t; --"));
    let query = format!("WHERE name = {} AND 1", literal);
    assert_eq!(tokenize(&query), vec!["WHERE", "name", "=", literal.as_str(), "AND", "1"]);
}

#[test]
fn quoted_section_ends_at_a_lone_quote() {
    assert_eq!(skip_quoted(&chars_of("a''b'c"), 0, '\''), 5);
    assert_eq!(skip_quoted(&chars_of("a''b"), 0, '\''), 4);
    assert_eq!(skip_quoted(&chars_of("'"), 0, '\''), 1);
    assert_eq!(skip_quoted(&chars_of("''"), 0, '\''), 2);
}
