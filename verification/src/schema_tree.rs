//! Identifiers of the nodes of the schema tree.
//!
//! An identifier is `schema:` and a schema, `table:` and a schema and a table,
//! or `column:` and a schema, a table and a column. Its components are
//! percent-encoded, so that `:` is always a delimiter.

use vstd::prelude::*;
use vstd::utf8::*;

use crate::percent;
use crate::text;

verus! {

/// A table, with the schema that it is in.
#[derive(Debug, Clone, PartialEq, Eq)]
pub struct SchemaTableContext {
    pub schema: String,
    pub table: String,
}

/// What an identifier of the schema tree selects.
#[derive(Debug, Clone, PartialEq, Eq)]
pub enum SchemaTreeSelection {
    Schema { schema: String },
    Table { schema: String, table: String },
    Column { schema: String, table: String, column: String },
    Unknown { raw: String },
}

/// A node of the schema tree, as a mathematical value.
#[verifier::ext_equal]
pub enum SchemaTreeNode {
    Schema { schema: Seq<char> },
    Table { schema: Seq<char>, table: Seq<char> },
    Column { schema: Seq<char>, table: Seq<char>, column: Seq<char> },
    Unknown { raw: Seq<char> },
}

impl View for SchemaTreeSelection {
    type V = SchemaTreeNode;

    open spec fn view(&self) -> SchemaTreeNode {
        match *self {
            SchemaTreeSelection::Schema { schema } => SchemaTreeNode::Schema { schema: schema@ },
            SchemaTreeSelection::Table { schema, table } => SchemaTreeNode::Table {
                schema: schema@,
                table: table@,
            },
            SchemaTreeSelection::Column { schema, table, column } => SchemaTreeNode::Column {
                schema: schema@,
                table: table@,
                column: column@,
            },
            SchemaTreeSelection::Unknown { raw } => SchemaTreeNode::Unknown { raw: raw@ },
        }
    }
}

// ---------------------------------------------------------------------------
// Components
// ---------------------------------------------------------------------------

/// The bytes that are reserved in a component: `:`, the delimiter, and `%`.
pub open spec fn reserved_bytes() -> Set<u8> {
    set![':' as u8, '%' as u8]
}

/// How a component is written in an identifier.
pub open spec fn encoded_component(s: Seq<char>) -> Seq<char> {
    percent::encoded_bytes(encode_utf8(s), reserved_bytes())
}

/// The component that text in an identifier stands for.
pub open spec fn decoded_component(s: Seq<char>) -> Seq<char> {
    percent::text_of_bytes(percent::decoded_bytes(encode_utf8(s)))
}

/// Percent-encode a component for use in schema tree identifiers.
pub fn encode_schema_id_component(s: &str) -> (r: String)
    ensures
        r@ == encoded_component(s@),
{
    percent::percent_encode(s, ':', '%')
}

/// Percent-decode a component from a schema tree identifier. A component is
/// empty only where its text is.
pub fn decode_schema_id_component(s: &str) -> (r: String)
    ensures
        r@ == decoded_component(s@),
        r@.len() == 0 <==> s@.len() == 0,
{
    proof {
        percent::lemma_decoded_nonempty(s@);
    }
    percent::percent_decode(s)
}

/// An encoded component holds no delimiter.
pub proof fn law_component_without_delimiter(s: Seq<char>)
    ensures
        !encoded_component(s).contains(':'),
{
    percent::law_encoded_avoids_reserved(encode_utf8(s), reserved_bytes(), ':');
}

/// Decoding a component gives back what was encoded.
pub proof fn law_component_round_trip(s: Seq<char>)
    ensures
        decoded_component(encoded_component(s)) == s,
{
    percent::law_decoded_encoded_bytes(encode_utf8(s), reserved_bytes());
    encode_utf8_valid_utf8(s);
    encode_utf8_decode_utf8(s);
}

/// Two different components are never encoded to the same text.
pub proof fn law_component_injective(a: Seq<char>, b: Seq<char>)
    requires
        encoded_component(a) == encoded_component(b),
    ensures
        a == b,
{
    law_component_round_trip(a);
    law_component_round_trip(b);
}

// ---------------------------------------------------------------------------
// Identifiers
// ---------------------------------------------------------------------------

/// The node that an identifier selects. What is not an identifier, or has an
/// empty component, is `Unknown`.
pub open spec fn selected_node(id: Seq<char>) -> SchemaTreeNode {
    let unknown = SchemaTreeNode::Unknown { raw: id };
    if let Some(rest) = text::after_prefix(id, "schema:"@) {
        let schema = decoded_component(rest);
        if schema.len() > 0 {
            SchemaTreeNode::Schema { schema }
        } else {
            unknown
        }
    } else if let Some(rest) = text::after_prefix(id, "table:"@) {
        match text::split_at_first(rest, ':') {
            Some((schema, table)) => {
                let schema = decoded_component(schema);
                let table = decoded_component(table);
                if schema.len() > 0 && table.len() > 0 {
                    SchemaTreeNode::Table { schema, table }
                } else {
                    unknown
                }
            },
            None => unknown,
        }
    } else if let Some(rest) = text::after_prefix(id, "column:"@) {
        match text::split_at_first(rest, ':') {
            Some((schema, rest)) => match text::split_at_first(rest, ':') {
                Some((table, column)) => {
                    let schema = decoded_component(schema);
                    let table = decoded_component(table);
                    let column = decoded_component(column);
                    if schema.len() > 0 && table.len() > 0 && column.len() > 0 {
                        SchemaTreeNode::Column { schema, table, column }
                    } else {
                        unknown
                    }
                },
                None => unknown,
            },
            None => unknown,
        }
    } else {
        unknown
    }
}

/// The form of an identifier: a prefix, and as many components as it asks for,
/// none of them empty.
pub open spec fn well_formed_identifier(id: Seq<char>) -> bool {
    ||| (text::after_prefix(id, "schema:"@) matches Some(schema) && schema.len() > 0)
    ||| (text::after_prefix(id, "table:"@) matches Some(rest) && text::split_at_first(
        rest,
        ':',
    ) matches Some((schema, table)) && schema.len() > 0 && table.len() > 0)
    ||| (text::after_prefix(id, "column:"@) matches Some(rest) && text::split_at_first(
        rest,
        ':',
    ) matches Some((schema, rest)) && text::split_at_first(rest, ':') matches Some((table, column))
        && schema.len() > 0 && table.len() > 0 && column.len() > 0)
}

proof fn lemma_prefixes_differ(id: Seq<char>)
    ensures
        text::after_prefix(id, "schema:"@) is Some ==> text::after_prefix(id, "table:"@) is None
            && text::after_prefix(id, "column:"@) is None,
        text::after_prefix(id, "table:"@) is Some ==> text::after_prefix(id, "column:"@) is None,
{
    reveal_strlit("schema:");
    reveal_strlit("table:");
    reveal_strlit("column:");
    if text::after_prefix(id, "schema:"@) is Some {
        assert("schema:"@[0] == id.subrange(0, "schema:"@.len() as int)[0]);
    }
    if text::after_prefix(id, "table:"@) is Some {
        assert("table:"@[0] == id.subrange(0, "table:"@.len() as int)[0]);
    }
    if text::after_prefix(id, "column:"@) is Some {
        assert("column:"@[0] == id.subrange(0, "column:"@.len() as int)[0]);
    }
}

/// Find out which node of the schema tree an identifier selects.
pub fn parse_schema_tree_identifier(identifier: &str) -> (r: SchemaTreeSelection)
    ensures
        r@ == selected_node(identifier@),
        r is Unknown <==> !well_formed_identifier(identifier@),
{
    let id = text::chars_of(identifier);
    let id = id.as_slice();
    proof {
        lemma_prefixes_differ(identifier@);
    }
    if let Some(rest) = text::strip_prefix(id, "schema:") {
        let schema = decode_schema_id_component(text::string_of(rest).as_str());
        if !schema.as_str().is_empty() {
            return SchemaTreeSelection::Schema { schema };
        }
    }
    if let Some(rest) = text::strip_prefix(id, "table:") {
        if let Some((schema, table)) = text::split_once(rest, ':') {
            let schema = decode_schema_id_component(text::string_of(schema).as_str());
            let table = decode_schema_id_component(text::string_of(table).as_str());
            if !schema.as_str().is_empty() && !table.as_str().is_empty() {
                return SchemaTreeSelection::Table { schema, table };
            }
        }
    }
    if let Some(rest) = text::strip_prefix(id, "column:") {
        if let Some((schema, rest)) = text::split_once(rest, ':') {
            if let Some((table, column)) = text::split_once(rest, ':') {
                let schema = decode_schema_id_component(text::string_of(schema).as_str());
                let table = decode_schema_id_component(text::string_of(table).as_str());
                let column = decode_schema_id_component(text::string_of(column).as_str());
                if !schema.as_str().is_empty() && !table.as_str().is_empty()
                    && !column.as_str().is_empty() {
                    return SchemaTreeSelection::Column { schema, table, column };
                }
            }
        }
    }
    SchemaTreeSelection::Unknown { raw: identifier.to_owned() }
}

// ---------------------------------------------------------------------------
// Laws
// ---------------------------------------------------------------------------

/// The identifier of a schema.
pub open spec fn schema_identifier(schema: Seq<char>) -> Seq<char> {
    "schema:"@ + encoded_component(schema)
}

/// The identifier of a table.
pub open spec fn table_identifier(schema: Seq<char>, table: Seq<char>) -> Seq<char> {
    "table:"@ + (encoded_component(schema) + seq![':'] + encoded_component(table))
}

/// The identifier of a column.
pub open spec fn column_identifier(
    schema: Seq<char>,
    table: Seq<char>,
    column: Seq<char>,
) -> Seq<char> {
    "column:"@ + (encoded_component(schema) + seq![':'] + (encoded_component(table) + seq![':']
        + encoded_component(column)))
}

proof fn lemma_after_prefix(prefix: Seq<char>, rest: Seq<char>)
    ensures
        text::after_prefix(prefix + rest, prefix) == Some(rest),
{
    assert((prefix + rest).skip(prefix.len() as int) =~= rest);
    assert(prefix.is_prefix_of(prefix + rest));
}

/// Text in front of a delimiter, where it holds none itself, and text behind it
/// can be told from what they make together.
proof fn lemma_joined_injective(
    a: Seq<char>,
    b: Seq<char>,
    c: Seq<char>,
    d: Seq<char>,
    prefix: Seq<char>,
)
    requires
        prefix + (a + seq![':'] + b) == prefix + (c + seq![':'] + d),
        !a.contains(':'),
        !c.contains(':'),
    ensures
        a == c,
        b == d,
{
    lemma_after_prefix(prefix, a + seq![':'] + b);
    lemma_after_prefix(prefix, c + seq![':'] + d);
    text::lemma_split_at_first_of(a, ':', b);
    text::lemma_split_at_first_of(c, ':', d);
}

/// The identifier of a schema selects that schema, whatever its name holds.
pub proof fn law_schema_identifier_round_trip(schema: Seq<char>)
    requires
        schema.len() > 0,
    ensures
        selected_node(schema_identifier(schema)) == (SchemaTreeNode::Schema { schema }),
{
    lemma_after_prefix("schema:"@, encoded_component(schema));
    law_component_round_trip(schema);
}

/// The identifier of a table selects that table, whatever the names hold.
pub proof fn law_table_identifier_round_trip(schema: Seq<char>, table: Seq<char>)
    requires
        schema.len() > 0,
        table.len() > 0,
    ensures
        selected_node(table_identifier(schema, table)) == (SchemaTreeNode::Table { schema, table }),
{
    let id = table_identifier(schema, table);
    lemma_prefixes_differ(id);
    lemma_after_prefix(
        "table:"@,
        encoded_component(schema) + seq![':'] + encoded_component(table),
    );
    law_component_without_delimiter(schema);
    text::lemma_split_at_first_of(encoded_component(schema), ':', encoded_component(table));
    law_component_round_trip(schema);
    law_component_round_trip(table);
}

/// The identifier of a column selects that column, whatever the names hold.
pub proof fn law_column_identifier_round_trip(
    schema: Seq<char>,
    table: Seq<char>,
    column: Seq<char>,
)
    requires
        schema.len() > 0,
        table.len() > 0,
        column.len() > 0,
    ensures
        selected_node(column_identifier(schema, table, column)) == (SchemaTreeNode::Column {
            schema,
            table,
            column,
        }),
{
    let id = column_identifier(schema, table, column);
    let tail = encoded_component(table) + seq![':'] + encoded_component(column);
    lemma_prefixes_differ(id);
    lemma_after_prefix("column:"@, encoded_component(schema) + seq![':'] + tail);
    law_component_without_delimiter(schema);
    law_component_without_delimiter(table);
    text::lemma_split_at_first_of(encoded_component(schema), ':', tail);
    text::lemma_split_at_first_of(encoded_component(table), ':', encoded_component(column));
    law_component_round_trip(schema);
    law_component_round_trip(table);
    law_component_round_trip(column);
}

/// Two different tables never have the same identifier.
pub proof fn law_table_identifier_injective(
    schema: Seq<char>,
    table: Seq<char>,
    other_schema: Seq<char>,
    other_table: Seq<char>,
)
    requires
        table_identifier(schema, table) == table_identifier(other_schema, other_table),
    ensures
        schema == other_schema,
        table == other_table,
{
    law_component_without_delimiter(schema);
    law_component_without_delimiter(other_schema);
    lemma_joined_injective(
        encoded_component(schema),
        encoded_component(table),
        encoded_component(other_schema),
        encoded_component(other_table),
        "table:"@,
    );
    law_component_injective(schema, other_schema);
    law_component_injective(table, other_table);
}

/// Two different columns never have the same identifier.
pub proof fn law_column_identifier_injective(
    schema: Seq<char>,
    table: Seq<char>,
    column: Seq<char>,
    other_schema: Seq<char>,
    other_table: Seq<char>,
    other_column: Seq<char>,
)
    requires
        column_identifier(schema, table, column) == column_identifier(
            other_schema,
            other_table,
            other_column,
        ),
    ensures
        schema == other_schema,
        table == other_table,
        column == other_column,
{
    law_component_without_delimiter(schema);
    law_component_without_delimiter(other_schema);
    law_component_without_delimiter(table);
    law_component_without_delimiter(other_table);
    lemma_joined_injective(
        encoded_component(schema),
        encoded_component(table) + seq![':'] + encoded_component(column),
        encoded_component(other_schema),
        encoded_component(other_table) + seq![':'] + encoded_component(other_column),
        "column:"@,
    );
    let none = Seq::<char>::empty();
    assert(none + (encoded_component(table) + seq![':'] + encoded_component(column))
        =~= encoded_component(table) + seq![':'] + encoded_component(column));
    assert(none + (encoded_component(other_table) + seq![':'] + encoded_component(other_column))
        =~= encoded_component(other_table) + seq![':'] + encoded_component(other_column));
    lemma_joined_injective(
        encoded_component(table),
        encoded_component(column),
        encoded_component(other_table),
        encoded_component(other_column),
        none,
    );
    law_component_injective(schema, other_schema);
    law_component_injective(table, other_table);
    law_component_injective(column, other_column);
}

// ---------------------------------------------------------------------------
// Laws of what is written and read
// ---------------------------------------------------------------------------

/// Components are written character by character.
pub proof fn law_component_in_order(a: Seq<char>, b: Seq<char>)
    ensures
        encoded_component(Seq::empty()).len() == 0,
        encoded_component(a + b) == encoded_component(a) + encoded_component(b),
{
    percent::lemma_bytes_in_order(a, b);
    percent::law_encoded_in_order(encode_utf8(a), encode_utf8(b), reserved_bytes());
}

/// A printable ASCII character other than `:` and `%` is written as it is, these
/// two and the controls as `%` and the two digits of their code, and any other
/// character as the escapes of its UTF-8 bytes.
pub proof fn law_component_of_character(c: char)
    ensures
        0x20 <= c as u32 <= 0x7e && c != ':' && c != '%' ==> encoded_component(seq![c]) == seq![c],
        c == ':' ==> encoded_component(seq![c]) == "%3A"@,
        c == '%' ==> encoded_component(seq![c]) == "%25"@,
        (c as u32) < 0x20 || c as u32 == 0x7f ==> encoded_component(seq![c]) == seq![
            '%',
            "0123456789ABCDEF"@[c as u32 as int / 16],
            "0123456789ABCDEF"@[c as u32 as int % 16],
        ],
        encoded_component(seq![c]) == percent::encoded_bytes(
            encode_utf8(seq![c]),
            set![0x3au8, 0x25u8],
        ),
{
    if (c as u32) < 0x80 {
        percent::lemma_bytes_of_ascii(c);
        percent::law_encoded_byte(c as u8, reserved_bytes());
        reveal_strlit("%3A");
        reveal_strlit("%25");
        reveal_strlit("0123456789ABCDEF");
        if c == ':' {
            assert(encoded_component(seq![c]) =~= "%3A"@);
        }
        if c == '%' {
            assert(encoded_component(seq![c]) =~= "%25"@);
        }
    }
    assert(reserved_bytes() =~= set![0x3au8, 0x25u8]);
}

/// Text without `%` stands for itself.
pub proof fn law_plain_component_is_itself(s: Seq<char>)
    requires
        !s.contains('%'),
    ensures
        decoded_component(s) == s,
{
    percent::lemma_bytes_without(s, '%');
    percent::law_decoded_without_percent(encode_utf8(s));
    percent::law_text_of_bytes(s, encode_utf8(s));
}

/// A component that is read is the text of the bytes that its percent-encoded
/// UTF-8 bytes stand for, or their approximation where they are not UTF-8.
pub proof fn law_component_by_bytes(s: Seq<char>, t: Seq<char>)
    ensures
        percent::decoded_bytes(encode_utf8(s)) == encode_utf8(t) ==> decoded_component(s) == t,
        !valid_utf8(percent::decoded_bytes(encode_utf8(s))) ==> decoded_component(s)
            == percent::lossy_text(percent::decoded_bytes(encode_utf8(s))),
{
    percent::law_text_of_bytes(t, percent::decoded_bytes(encode_utf8(s)));
}

/// An identifier of a schema is `schema:` and its component.
pub proof fn law_schema_is_selected(component: Seq<char>)
    ensures
        selected_node("schema:"@ + component) == if decoded_component(component).len() > 0 {
            SchemaTreeNode::Schema { schema: decoded_component(component) }
        } else {
            SchemaTreeNode::Unknown { raw: "schema:"@ + component }
        },
{
    lemma_after_prefix("schema:"@, component);
}

/// An identifier of a table is `table:` and two components with a delimiter
/// between them: the first delimiter, if there are more.
pub proof fn law_table_is_selected(schema: Seq<char>, table: Seq<char>)
    requires
        !schema.contains(':'),
    ensures
        selected_node("table:"@ + (schema + seq![':'] + table)) == if decoded_component(
            schema,
        ).len() > 0 && decoded_component(table).len() > 0 {
            SchemaTreeNode::Table {
                schema: decoded_component(schema),
                table: decoded_component(table),
            }
        } else {
            SchemaTreeNode::Unknown { raw: "table:"@ + (schema + seq![':'] + table) }
        },
        selected_node("table:"@ + schema) == (SchemaTreeNode::Unknown { raw: "table:"@ + schema }),
{
    let rest = schema + seq![':'] + table;
    lemma_prefixes_differ("table:"@ + rest);
    lemma_prefixes_differ("table:"@ + schema);
    lemma_after_prefix("table:"@, rest);
    lemma_after_prefix("table:"@, schema);
    text::lemma_split_at_first_of(schema, ':', table);
    text::lemma_split_at_first(schema, ':');
    if let Some((before, after)) = text::split_at_first(schema, ':') {
        assert(schema[before.len() as int] == ':');
    }
}

/// An identifier of a column is `column:` and three components with delimiters
/// between them: the first two delimiters, if there are more.
pub proof fn law_column_is_selected(schema: Seq<char>, table: Seq<char>, column: Seq<char>)
    requires
        !schema.contains(':'),
        !table.contains(':'),
    ensures
        selected_node("column:"@ + (schema + seq![':'] + (table + seq![':'] + column)))
            == if decoded_component(schema).len() > 0 && decoded_component(table).len() > 0
            && decoded_component(column).len() > 0 {
            SchemaTreeNode::Column {
                schema: decoded_component(schema),
                table: decoded_component(table),
                column: decoded_component(column),
            }
        } else {
            SchemaTreeNode::Unknown {
                raw: "column:"@ + (schema + seq![':'] + (table + seq![':'] + column)),
            }
        },
        selected_node("column:"@ + (schema + seq![':'] + table)) == (SchemaTreeNode::Unknown {
            raw: "column:"@ + (schema + seq![':'] + table),
        }),
        selected_node("column:"@ + schema) == (SchemaTreeNode::Unknown {
            raw: "column:"@ + schema,
        }),
{
    let tail = table + seq![':'] + column;
    let full = schema + seq![':'] + tail;
    let short = schema + seq![':'] + table;
    lemma_prefixes_differ("column:"@ + full);
    lemma_prefixes_differ("column:"@ + short);
    lemma_prefixes_differ("column:"@ + schema);
    lemma_after_prefix("column:"@, full);
    lemma_after_prefix("column:"@, short);
    lemma_after_prefix("column:"@, schema);
    text::lemma_split_at_first_of(schema, ':', tail);
    text::lemma_split_at_first_of(schema, ':', table);
    text::lemma_split_at_first_of(table, ':', column);
    text::lemma_split_at_first(schema, ':');
    if let Some((before, after)) = text::split_at_first(schema, ':') {
        assert(schema[before.len() as int] == ':');
    }
    text::lemma_split_at_first(table, ':');
    if let Some((before, after)) = text::split_at_first(table, ':') {
        assert(table[before.len() as int] == ':');
    }
}

/// A text with none of the three prefixes is no identifier, and is kept as it
/// is.
pub proof fn law_other_text_is_unknown(id: Seq<char>)
    requires
        forall|rest: Seq<char>| id != #[trigger] ("schema:"@ + rest),
        forall|rest: Seq<char>| id != #[trigger] ("table:"@ + rest),
        forall|rest: Seq<char>| id != #[trigger] ("column:"@ + rest),
    ensures
        selected_node(id) == (SchemaTreeNode::Unknown { raw: id }),
{
    if let Some(rest) = text::after_prefix(id, "schema:"@) {
        text::law_after_prefix(id, "schema:"@, rest);
    }
    if let Some(rest) = text::after_prefix(id, "table:"@) {
        text::law_after_prefix(id, "table:"@, rest);
    }
    if let Some(rest) = text::after_prefix(id, "column:"@) {
        text::law_after_prefix(id, "column:"@, rest);
    }
}

/// A selection stands for the node of its kind with its own names.
pub proof fn law_selection_is_node(schema: String, table: String, column: String, raw: String)
    ensures
        (SchemaTreeSelection::Schema { schema })@ == (SchemaTreeNode::Schema { schema: schema@ }),
        (SchemaTreeSelection::Table { schema, table })@ == (SchemaTreeNode::Table {
            schema: schema@,
            table: table@,
        }),
        (SchemaTreeSelection::Column { schema, table, column })@ == (SchemaTreeNode::Column {
            schema: schema@,
            table: table@,
            column: column@,
        }),
        (SchemaTreeSelection::Unknown { raw })@ == (SchemaTreeNode::Unknown { raw: raw@ }),
{
}

} // verus!
