use tsql::query::{
    effective_max_rows, extract_table_from_query, is_pageable_query, is_row_returning_query,
};

fn table(query: &str) -> Option<String> {
    extract_table_from_query(query)
}

fn some(name: &str) -> Option<String> {
    Some(name.to_string())
}

#[test]
fn row_limit_of_zero_is_the_default() {
    assert_eq!(effective_max_rows(0), 2000);
    assert_eq!(effective_max_rows(1), 1);
    assert_eq!(effective_max_rows(5000), 5000);
    assert_eq!(effective_max_rows(usize::MAX), usize::MAX);
}

#[test]
fn tables_of_simple_queries() {
    assert_eq!(table("SELECT * FROM users"), some("users"));
    assert_eq!(table("SELECT id, name FROM public.users"), some("users"));
    assert_eq!(table("select * from \"My Table\""), some("My Table"));
    assert_eq!(table("SELECT * FROM users;"), some("users"));
    assert_eq!(table("  select x FROM t WHERE a = 'from b'"), some("t"));
    assert_eq!(table("SELECT * FROM \"a\"\"b\" LIMIT 1"), some("a\"b"));
    assert_eq!(table("SELECT * FROM \"s.x\".\"t.y\""), some("t.y"));
    assert_eq!(table("SELECT * FROM a, b"), some("a"));
    assert_eq!(table("select*from t"), some("t"));
    assert_eq!(table("SELECT * FROM users WHERE id IN (1, 2)"), some("users"));
    assert_eq!(table("SELECT * FROM users WHERE x = '(select 1)'"), some("users"));
    assert_eq!(table("SELECT * FROM join"), some("join"));
    assert_eq!(table("SELECT extract(year from ts) FROM t"), some("t"));
    assert_eq!(table("SELECT f(g(x), trim(both from y)) FROM t"), some("t"));
    assert_eq!(table("SELECT ) FROM t"), some("t"));
    assert_eq!(table("SELECT * FROM 'users'"), some("users"));
}

#[test]
fn queries_without_a_table() {
    assert_eq!(table(""), None);
    assert_eq!(table("SELECT 1"), None);
    assert_eq!(table("SELECT * FROM"), None);
    assert_eq!(table("SELECT extract(year from ts)"), None);
    assert_eq!(table("UPDATE users SET x = 1"), None);
    assert_eq!(table("DELETE FROM users"), None);
    assert_eq!(table("SELECT * FROM (SELECT * FROM users) u"), None);
    assert_eq!(table("SELECT (SELECT max(id) FROM a) FROM b"), None);
    assert_eq!(table("SELECT * FROM a, (SELECT 1) b"), None);
    assert_eq!(table("SELECT * FROM users WHERE id IN (SELECT 1)"), None);
    assert_eq!(table("SELECT * FROM users WHERE id IN ( select id from x )"), None);
    assert_eq!(table("SELECT * FROM users u JOIN posts p ON true"), None);
    assert_eq!(table("SELECT * FROM users left join posts"), None);
    assert_eq!(table("SELECT * FROM ;"), None);
    assert_eq!(table("SELECT * FROM \"\""), None);
    assert_eq!(table("(SELECT * FROM users)"), None);
    assert_eq!(table("SELECT * FROM public."), None);
}

#[test]
fn quoted_table_is_found_under_its_name() {
    for name in ["x", "My Table", "a\"b", "a;b", "join", "\u{e9} \u{1f980}", "'", "(", "a.b,"] {
        let quoted = format!("\"{}\"", name.replace('"', "\"\""));
        assert_eq!(table(&format!("SELECT * FROM {}", quoted)), some(name));
        assert_eq!(table(&format!("SELECT * FROM {} WHERE a > 1;", quoted)), some(name));
        assert_eq!(table(&format!("SELECT * FROM \"s.t\".{}", quoted)), some(name));
    }
}

#[test]
fn pageable_queries() {
    assert!(is_pageable_query("SELECT * FROM users"));
    assert!(is_pageable_query("SELECT * FROM users;"));
    assert!(is_pageable_query(" SELECT * FROM users;; \n"));
    assert!(!is_pageable_query("SELECT * FROM users; SELECT 1"));
    assert!(!is_pageable_query("SELECT * FROM users ; ;"));
    assert!(!is_pageable_query("SELECT * FROM a JOIN b"));
    assert!(!is_pageable_query("SELECT * FROM (SELECT 1) x"));
    assert!(!is_pageable_query("INSERT INTO users VALUES (1)"));
    assert!(!is_pageable_query("SELECT * FROM a, (SELECT 1) b"));
    assert!(!is_pageable_query("SELECT * FROM users WHERE id IN (SELECT 1)"));
    assert!(is_pageable_query("SELECT * FROM t WHERE x = ';'"));
    assert!(is_pageable_query("SELECT * FROM \"a;b\" WHERE x = ';';"));
    assert!(!is_pageable_query("SELECT * FROM t WHERE x = ';'; SELECT 1"));
    assert!(!is_pageable_query(""));
}

#[test]
fn doubtful_quotes_hide_no_statement() {
    assert!(!is_pageable_query("SELECT * FROM users -- don't page\n; DELETE FROM logs"));
    assert!(!is_pageable_query("SELECT * FROM t -- it's\n; DROP TABLE b; --'"));
    assert!(!is_pageable_query("SELECT * FROM t /* it's */; DROP TABLE b /* ' */"));
    assert!(!is_pageable_query("SELECT * FROM t WHERE x = E'\\''; DROP TABLE b; SELECT ''"));
    assert!(!is_pageable_query("SELECT * FROM t WHERE x = $$'$$; DROP TABLE b; SELECT $$'$$"));
    assert!(!is_pageable_query("SELECT * FROM t WHERE x = 'open; DROP TABLE b"));
    assert!(is_pageable_query("SELECT * FROM users -- don't page"));
    assert!(is_pageable_query("SELECT * FROM t WHERE x = 'it''s; fine' AND y = \";\""));
}

#[test]
fn row_returning_queries() {
    for q in [
        "SELECT 1",
        " select 1",
        "(SELECT 1)",
        "((select 1))",
        "WITH x AS (SELECT 1) SELECT * FROM x",
        "VALUES (1)",
        "TABLE users",
        "show all",
        "Explain select 1",
        "\u{a0}select 1",
    ] {
        assert!(is_row_returning_query(q), "{}", q);
    }
    for q in ["", "   ", "INSERT INTO t VALUES (1)", "update t set x = 1", "( select 1)", "selects"] {
        assert!(!is_row_returning_query(q), "{}", q);
    }
}

#[test]
fn pageable_query_returns_rows_where_its_first_word_is_its_first_token() {
    assert!(is_pageable_query("SELECT a FROM t") && is_row_returning_query("SELECT a FROM t"));
    assert!(is_pageable_query("select*from t") && !is_row_returning_query("select*from t"));
}
