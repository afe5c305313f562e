use tsql::lexer::tokenize;
use tsql::meta::{
    META_QUERY_COLUMN_TYPES, META_QUERY_DATABASES, META_QUERY_DESCRIBE, META_QUERY_FUNCTIONS,
    META_QUERY_INDEXES, META_QUERY_PRIMARY_KEYS, META_QUERY_ROLES, META_QUERY_SCHEMAS,
    META_QUERY_TABLES, META_QUERY_VIEWS,
};
use tsql::query::is_row_returning_query;
use tsql::quoting::escape_sql_string_literal;

#[test]
fn meta_queries_return_rows() {
    for q in [
        META_QUERY_TABLES,
        META_QUERY_SCHEMAS,
        META_QUERY_DESCRIBE,
        META_QUERY_INDEXES,
        META_QUERY_DATABASES,
        META_QUERY_ROLES,
        META_QUERY_VIEWS,
        META_QUERY_FUNCTIONS,
        META_QUERY_PRIMARY_KEYS,
        META_QUERY_COLUMN_TYPES,
    ] {
        assert!(is_row_returning_query(q));
        assert!(q.starts_with('\n') && q.ends_with('\n'));
    }
}

#[test]
fn a_table_name_goes_into_a_template_as_one_literal() {
    let escaped = escape_sql_string_literal("a'; DROP TABLE b; --");
    for template in [META_QUERY_DESCRIBE, META_QUERY_PRIMARY_KEYS, META_QUERY_COLUMN_TYPES] {
        let query = template.replace("$1", &escaped);
        assert_eq!(tokenize(&query).len(), tokenize(template).len());
    }
}
