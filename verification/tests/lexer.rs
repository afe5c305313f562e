use tsql::lexer::{split_qualified_ident, tokenize, unquote_ident};

#[test]
fn tokens_of_a_query() {
    assert_eq!(
        tokenize("SELECT id, name FROM public.users;"),
        vec!["SELECT", "id", ",", "name", "FROM", "public.users", ";"]
    );
    assert_eq!(tokenize("select*from t"), vec!["select", "*", "from", "t"]);
    assert_eq!(tokenize("count(x)"), vec!["count", "(", "x", ")"]);
    assert!(tokenize(" \t\n").is_empty());
    assert!(tokenize("").is_empty());
}

#[test]
fn quotes_keep_a_token_together() {
    assert_eq!(tokenize("a \"My Table\" b"), vec!["a", "\"My Table\"", "b"]);
    assert_eq!(tokenize("'it''s; (fine)' x"), vec!["'it''s; (fine)'", "x"]);
    assert_eq!(tokenize("\"a\"\"b\".\"c d\""), vec!["\"a\"\"b\".\"c d\""]);
    assert_eq!(tokenize("x 'never closed ;"), vec!["x", "'never closed ;"]);
}

#[test]
fn a_token_is_one_token() {
    for t in tokenize("SELECT 'a b', \"c;d\" FROM x.y WHERE (z = 1);") {
        assert_eq!(tokenize(&t), vec![t]);
    }
}

#[test]
fn tokens_keep_the_text() {
    let query = "SELECT a , 'b  c' FROM\tt ;";
    assert_eq!(tokenize(query).concat(), "SELECTa,'b  c'FROMt;");
}

#[test]
fn parts_of_identifiers() {
    assert_eq!(split_qualified_ident("users"), vec!["users"]);
    assert_eq!(split_qualified_ident("public.users"), vec!["public", "users"]);
    assert_eq!(split_qualified_ident("\"a.b\".c"), vec!["\"a.b\"", "c"]);
    assert_eq!(split_qualified_ident("a..b"), vec!["a", "", "b"]);
    assert_eq!(split_qualified_ident("a."), vec!["a", ""]);
    assert_eq!(split_qualified_ident(""), vec![""]);
    assert_eq!(split_qualified_ident("\"a\"\".b\".c"), vec!["\"a\"\".b\"", "c"]);
    for s in ["a.b.c", "\"x.y\".z", "..", ""] {
        assert_eq!(split_qualified_ident(s).join("."), s);
    }
}

#[test]
fn names_of_parts() {
    assert_eq!(unquote_ident("users"), "users");
    assert_eq!(unquote_ident(" users "), "users");
    assert_eq!(unquote_ident("\"My Table\""), "My Table");
    assert_eq!(unquote_ident("\"a\"\"b\""), "a\"b");
    assert_eq!(unquote_ident("'users'"), "users");
    assert_eq!(unquote_ident("\""), "\"");
    assert_eq!(unquote_ident("\"\""), "");
    assert_eq!(unquote_ident(""), "");
}
