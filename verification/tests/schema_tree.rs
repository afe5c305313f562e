use tsql::encode_schema_id_component;
use tsql::percent::percent_encode;
use tsql::schema_tree::{
    decode_schema_id_component, parse_schema_tree_identifier, SchemaTreeSelection,
};

fn unknown(raw: &str) -> SchemaTreeSelection {
    SchemaTreeSelection::Unknown { raw: raw.to_string() }
}

const NAMES: [&str; 11] = [
    "public",
    "a:b",
    "100%",
    "%3A",
    "a b",
    "\u{e9}t\u{e9}",
    "\u{1f980}:",
    "tab\there",
    "\u{7f}",
    "%",
    ":::",
];

#[test]
fn encoding_of_components() {
    assert_eq!(encode_schema_id_component("public"), "public");
    assert_eq!(encode_schema_id_component("a:b"), "a%3Ab");
    assert_eq!(encode_schema_id_component("100%"), "100%25");
    assert_eq!(encode_schema_id_component("a b/c"), "a b/c");
    assert_eq!(encode_schema_id_component("\n\u{7f}"), "%0A%7F");
    assert_eq!(encode_schema_id_component("\u{e9}"), "%C3%A9");
    assert_eq!(encode_schema_id_component("x\u{1f980}:y%"), "x%F0%9F%A6%80%3Ay%25");
    assert_eq!(encode_schema_id_component(""), "");
}

#[test]
fn encoding_reserves_what_it_is_told() {
    assert_eq!(percent_encode("a b+c:d", ' ', '+'), "a%20b%2Bc:d");
}

#[test]
fn decoding_of_components() {
    assert_eq!(decode_schema_id_component("a%3Ab"), "a:b");
    assert_eq!(decode_schema_id_component("a%3ab"), "a:b");
    assert_eq!(decode_schema_id_component("100%"), "100%");
    assert_eq!(decode_schema_id_component("%zz%4"), "%zz%4");
    assert_eq!(decode_schema_id_component("%%41"), "%A");
    assert_eq!(decode_schema_id_component("%C3%A9"), "\u{e9}");
    assert_eq!(decode_schema_id_component("\u{e9}"), "\u{e9}");
    assert_eq!(decode_schema_id_component("a%FFb"), "a\u{fffd}b");
    assert_eq!(decode_schema_id_component(""), "");
}

#[test]
fn components_round_trip() {
    for name in NAMES {
        let encoded = encode_schema_id_component(name);
        assert!(!encoded.contains(':'));
        assert!(encoded.is_ascii());
        assert_eq!(decode_schema_id_component(&encoded), name);
    }
}

#[test]
fn identifiers_round_trip() {
    for a in NAMES {
        let x = encode_schema_id_component(a);
        assert_eq!(
            parse_schema_tree_identifier(&format!("schema:{}", x)),
            SchemaTreeSelection::Schema { schema: a.to_string() }
        );
        for b in NAMES {
            let y = encode_schema_id_component(b);
            assert_eq!(
                parse_schema_tree_identifier(&format!("table:{}:{}", x, y)),
                SchemaTreeSelection::Table { schema: a.to_string(), table: b.to_string() }
            );
            assert_eq!(
                parse_schema_tree_identifier(&format!("column:{}:{}:{}", y, x, y)),
                SchemaTreeSelection::Column {
                    schema: b.to_string(),
                    table: a.to_string(),
                    column: b.to_string(),
                }
            );
        }
    }
}

#[test]
fn what_is_not_an_identifier_is_unknown() {
    for raw in [
        "", "schema:", "schema", "table:", "table:a", "table:a:", "table::b", "column:a:b",
        "column:a:b:", "column::b:c", "column:a::c", "view:a", "Schema:a",
    ] {
        assert_eq!(parse_schema_tree_identifier(raw), unknown(raw));
    }
}

#[test]
fn the_last_component_keeps_its_colons() {
    assert_eq!(
        parse_schema_tree_identifier("schema:a:b"),
        SchemaTreeSelection::Schema { schema: "a:b".to_string() }
    );
    assert_eq!(
        parse_schema_tree_identifier("table:a:b:c"),
        SchemaTreeSelection::Table { schema: "a".to_string(), table: "b:c".to_string() }
    );
    assert_eq!(
        parse_schema_tree_identifier("column:a:b:c:d"),
        SchemaTreeSelection::Column {
            schema: "a".to_string(),
            table: "b".to_string(),
            column: "c:d".to_string(),
        }
    );
}

#[test]
fn different_tables_have_different_identifiers() {
    let id = |schema: &str, table: &str| {
        format!(
            "table:{}:{}",
            encode_schema_id_component(schema),
            encode_schema_id_component(table)
        )
    };
    assert_eq!(id("a:b", "c"), "table:a%3Ab:c");
    assert_eq!(id("a", "b:c"), "table:a:b%3Ac");
    assert_ne!(id("a:b", "c"), id("a", "b:c"));
}
