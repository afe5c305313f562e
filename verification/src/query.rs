//! Query analysis: which table a query reads, whether it can be paged, whether
//! it returns rows.

use vstd::prelude::*;

use crate::lexer;
use crate::quoting;
use crate::text;
use crate::text::CharClass;

verus! {

// ---------------------------------------------------------------------------
// Row limit
// ---------------------------------------------------------------------------

/// The row limit that holds when none is configured.
pub const DEFAULT_MAX_ROWS: usize = 2000;

/// Normalize the configured row limit. A limit of 0 does not mean "unlimited":
/// it stands for the default limit.
pub fn effective_max_rows(config_max_rows: usize) -> (r: usize)
    ensures
        r == if config_max_rows == 0 {
            2000
        } else {
            config_max_rows
        },
        r > 0,
{
    if config_max_rows == 0 {
        DEFAULT_MAX_ROWS
    } else {
        config_max_rows
    }
}

// ---------------------------------------------------------------------------
// The table of a query
// ---------------------------------------------------------------------------

/// The position of the first of `ts`, from `from` on, that is `word` up to the
/// case of ASCII letters.
pub open spec fn word_position(ts: Seq<Seq<char>>, word: Seq<char>, from: int) -> Option<int>
    decreases ts.len() - from,
{
    if from < 0 || from >= ts.len() {
        None
    } else if text::same_ignoring_case(ts[from], word) {
        Some(from)
    } else {
        word_position(ts, word, from + 1)
    }
}

/// `word_position` finds the first token that is the word, and nothing when
/// there is none.
pub proof fn lemma_word_position(ts: Seq<Seq<char>>, word: Seq<char>, from: int)
    requires
        0 <= from,
    ensures
        match word_position(ts, word, from) {
            Some(k) => {
                &&& from <= k < ts.len()
                &&& text::same_ignoring_case(ts[k], word)
                &&& forall|j: int|
                    from <= j < k ==> !text::same_ignoring_case(#[trigger] ts[j], word)
            },
            None => forall|j: int|
                from <= j < ts.len() ==> !text::same_ignoring_case(#[trigger] ts[j], word),
        },
    decreases ts.len() - from,
{
    if from < ts.len() && !text::same_ignoring_case(ts[from], word) {
        lemma_word_position(ts, word, from + 1);
    }
}

/// How many parentheses are open in front of token `k`. A parenthesis that
/// closes none is passed over.
pub open spec fn depth_at(ts: Seq<Seq<char>>, k: int) -> int
    decreases k,
{
    if k <= 0 {
        0
    } else if ts[k - 1] == seq!['('] {
        depth_at(ts, k - 1) + 1
    } else if ts[k - 1] == seq![')'] && depth_at(ts, k - 1) > 0 {
        depth_at(ts, k - 1) - 1
    } else {
        depth_at(ts, k - 1)
    }
}

/// The position of the first of `ts`, from `from` on, that is `word` up to the
/// case of ASCII letters and stands outside parentheses.
pub open spec fn top_level_position(ts: Seq<Seq<char>>, word: Seq<char>, from: int) -> Option<int>
    decreases ts.len() - from,
{
    if from < 0 || from >= ts.len() {
        None
    } else if depth_at(ts, from) == 0 && text::same_ignoring_case(ts[from], word) {
        Some(from)
    } else {
        top_level_position(ts, word, from + 1)
    }
}

/// `top_level_position` finds the first token outside parentheses that is the
/// word, and nothing when there is none.
pub proof fn lemma_top_level_position(ts: Seq<Seq<char>>, word: Seq<char>, from: int)
    requires
        0 <= from,
    ensures
        match top_level_position(ts, word, from) {
            Some(k) => {
                &&& from <= k < ts.len()
                &&& depth_at(ts, k) == 0
                &&& text::same_ignoring_case(ts[k], word)
                &&& forall|j: int|
                    from <= j < k && depth_at(ts, j) == 0 ==> !text::same_ignoring_case(
                        #[trigger] ts[j],
                        word,
                    )
            },
            None => forall|j: int|
                from <= j < ts.len() && depth_at(ts, j) == 0 ==> !text::same_ignoring_case(
                    #[trigger] ts[j],
                    word,
                ),
        },
    decreases ts.len() - from,
{
    if from < ts.len() && !(depth_at(ts, from) == 0 && text::same_ignoring_case(ts[from], word)) {
        lemma_top_level_position(ts, word, from + 1);
    }
}

/// The table that a token names: the last part of the qualified identifier
/// that is left when trailing semicolons, and then trailing commas, are taken
/// off.
pub open spec fn table_name(token: Seq<char>) -> Seq<char> {
    let ident = text::trimmed_end(
        text::trimmed_end(token, CharClass::Is(';')),
        CharClass::Is(','),
    );
    lexer::unquoted(lexer::ident_parts(ident).last())
}

/// A query with a subquery: a `SELECT` behind an opening parenthesis.
pub open spec fn has_subquery(ts: Seq<Seq<char>>) -> bool {
    exists|k: int|
        0 <= k < ts.len() - 1 && #[trigger] ts[k] == seq!['('] && text::same_ignoring_case(
            ts[k + 1],
            "select"@,
        )
}

/// The table of the query that is made of the tokens `ts`: the one that is
/// named after the first `FROM` outside parentheses. Only a query that starts
/// with `SELECT`, holds no subquery, does not open a parenthesis after that
/// `FROM` and has no `JOIN` after the table has one.
pub open spec fn table_of_tokens(ts: Seq<Seq<char>>) -> Option<Seq<char>> {
    if ts.len() == 0 || !text::same_ignoring_case(ts[0], "select"@) || has_subquery(ts) {
        None
    } else {
        match top_level_position(ts, "from"@, 0) {
            None => None,
            Some(from) => if from + 1 >= ts.len() || ts[from + 1].first() == '(' {
                None
            } else if word_position(ts, "join"@, from + 2) is Some {
                None
            } else if table_name(ts[from + 1]).len() == 0 {
                None
            } else {
                Some(table_name(ts[from + 1]))
            },
        }
    }
}

/// The table that a query reads, if it is simple enough to have one.
pub open spec fn table_of_query(query: Seq<char>) -> Option<Seq<char>> {
    table_of_tokens(lexer::tokens(query))
}

/// Finds the first token, from `from` on, that is the given word up to case.
fn find_word(tokens: &Vec<String>, word: &str, from: usize) -> (r: Option<usize>)
    requires
        from <= tokens@.len(),
    ensures
        match r {
            Some(k) => k < tokens@.len() && word_position(
                tokens.deep_view(),
                word@,
                from as int,
            ) == Some(k as int),
            None => word_position(tokens.deep_view(), word@, from as int) is None,
        },
{
    let mut i: usize = from;
    while i < tokens.len()
        invariant
            from <= i <= tokens@.len(),
            word_position(tokens.deep_view(), word@, i as int) == word_position(
                tokens.deep_view(),
                word@,
                from as int,
            ),
        decreases tokens.len() - i,
    {
        assert(tokens.deep_view()[i as int] == tokens@[i as int]@);
        if text::eq_ignore_ascii_case(tokens[i].as_str(), word) {
            return Some(i);
        }
        i += 1;
    }
    None
}

/// Tells whether a token is the given character.
fn is_char(token: &String, c: char) -> (r: bool)
    ensures
        r == (token@ == seq![c]),
{
    let token_chars = text::chars_of(token.as_str());
    let r = token_chars.len() == 1 && token_chars[0] == c;
    assert(r ==> token@ =~= seq![c]);
    r
}

/// Finds the first token outside parentheses that is the given word up to case.
fn find_top_level(tokens: &Vec<String>, word: &str) -> (r: Option<usize>)
    ensures
        match r {
            Some(k) => k < tokens@.len() && top_level_position(tokens.deep_view(), word@, 0)
                == Some(k as int),
            None => top_level_position(tokens.deep_view(), word@, 0) is None,
        },
{
    let ghost ts = tokens.deep_view();
    let mut depth: usize = 0;
    let mut i: usize = 0;
    while i < tokens.len()
        invariant
            ts == tokens.deep_view(),
            depth <= i <= tokens@.len(),
            depth == depth_at(ts, i as int),
            top_level_position(ts, word@, i as int) == top_level_position(ts, word@, 0),
        decreases tokens.len() - i,
    {
        assert(ts[i as int] == tokens@[i as int]@);
        if depth == 0 && text::eq_ignore_ascii_case(tokens[i].as_str(), word) {
            return Some(i);
        }
        if is_char(&tokens[i], '(') {
            depth += 1;
        } else if is_char(&tokens[i], ')') && depth > 0 {
            proof {
                assert(seq![')'][0] == ')' && seq!['('][0] == '(');
            }
            depth -= 1;
        }
        i += 1;
    }
    None
}

/// Looks for a subquery.
fn find_subquery(tokens: &Vec<String>) -> (r: bool)
    ensures
        r == has_subquery(tokens.deep_view()),
{
    let ghost ts = tokens.deep_view();
    let mut i: usize = 1;
    while i < tokens.len()
        invariant
            ts == tokens.deep_view(),
            1 <= i,
            forall|k: int|
                0 <= k < i - 1 && k < ts.len() - 1 && #[trigger] ts[k] == seq!['(']
                    ==> !text::same_ignoring_case(ts[k + 1], "select"@),
        decreases tokens.len() - i,
    {
        assert(ts[i - 1] == tokens@[i - 1]@ && ts[i as int] == tokens@[i as int]@);
        if is_char(&tokens[i - 1], '(') && text::eq_ignore_ascii_case(
            tokens[i].as_str(),
            "select",
        ) {
            return true;
        }
        i += 1;
    }
    false
}

/// Looks for a token that is a semicolon.
fn find_semicolon(tokens: &Vec<String>) -> (r: bool)
    ensures
        r == tokens.deep_view().contains(seq![';']),
{
    let ghost ts = tokens.deep_view();
    let mut i: usize = 0;
    while i < tokens.len()
        invariant
            ts == tokens.deep_view(),
            i <= ts.len(),
            forall|k: int| 0 <= k < i ==> ts[k] != seq![';'],
        decreases tokens.len() - i,
    {
        assert(ts[i as int] == tokens@[i as int]@);
        if is_char(&tokens[i], ';') {
            return true;
        }
        i += 1;
    }
    false
}

/// Reads the name of the table from a token.
fn read_table_name(token: &str) -> (r: String)
    ensures
        r@ == table_name(token@),
{
    let token = text::chars_of(token);
    let ident = text::trim_end(token.as_slice(), CharClass::Is(';'));
    let ident = text::trim_end(ident, CharClass::Is(','));
    let parts = lexer::split_qualified_ident(text::string_of(ident).as_str());
    let last = &parts[parts.len() - 1];
    assert(parts.deep_view().last() == last@);
    lexer::unquote_ident(last.as_str())
}

/// Extract the table name from a simple SELECT query, such as
/// `SELECT * FROM users`, `SELECT id, name FROM public.users` or
/// `select * from "My Table"`.
///
/// Returns `None` for complex queries (JOINs, subqueries and the like).
pub fn extract_table_from_query(query: &str) -> (r: Option<String>)
    ensures
        match r {
            Some(table) => table_of_query(query@) == Some(table@),
            None => table_of_query(query@) is None,
        },
        r matches Some(table) ==> table@.len() > 0,
{
    let tokens = lexer::tokenize(query);
    let ghost ts = lexer::tokens(query@);
    if tokens.len() == 0 {
        return None;
    }
    assert(ts[0] == tokens@[0]@);
    if !text::eq_ignore_ascii_case(tokens[0].as_str(), "select") {
        return None;
    }
    if find_subquery(&tokens) {
        return None;
    }
    let from = match find_top_level(&tokens, "from") {
        Some(k) => k,
        None => {
            return None;
        },
    };
    if tokens.len() - from < 2 {
        return None;
    }
    let table_token = tokens[from + 1].as_str();
    assert(ts[from + 1] == table_token@);
    proof {
        lexer::law_tokens_well_formed(query@, from + 1);
    }
    if text::chars_of(table_token)[0] == '(' {
        return None;
    }
    if find_word(&tokens, "join", from + 2).is_some() {
        return None;
    }
    let name = read_table_name(table_token);
    if name.as_str().is_empty() {
        None
    } else {
        Some(name)
    }
}

// ---------------------------------------------------------------------------
// Paging
// ---------------------------------------------------------------------------

/// The text of a query without the white space around it and without the
/// semicolons at its end.
pub open spec fn statement_of(query: Seq<char>) -> Seq<char> {
    text::trimmed_end(text::trimmed(query, CharClass::WhiteSpace), CharClass::Is(';'))
}

/// `a` stands directly in front of `b` somewhere in `s`.
pub open spec fn holds_pair(s: Seq<char>, a: char, b: char) -> bool {
    exists|k: int| 0 <= k < s.len() - 1 && #[trigger] s[k] == a && s[k + 1] == b
}

/// The quoted sections of `s` are beyond doubt: each is closed, and nothing in
/// `s` can be a comment, an escape or a dollar quote, in which a quote is no
/// quote.
pub open spec fn quotes_certain(s: Seq<char>) -> bool {
    &&& lexer::quotes_closed(s)
    &&& !holds_pair(s, '-', '-')
    &&& !holds_pair(s, '/', '*')
    &&& !s.contains('\\')
    &&& !s.contains('$')
}

/// A query that a server-side cursor can page through: one statement that
/// reads one table. Semicolons may stand at its end, and in quoted text that is
/// beyond doubt.
pub open spec fn pageable(query: Seq<char>) -> bool {
    let statement = statement_of(query);
    &&& table_of_query(query) is Some
    &&& statement.contains(';') ==> !lexer::tokens(statement).contains(seq![';'])
        && quotes_certain(statement)
}

/// Looks for two characters that stand side by side.
fn find_pair(s: &[char], a: char, b: char) -> (r: bool)
    ensures
        r == holds_pair(s@, a, b),
{
    let mut i: usize = 1;
    while i < s.len()
        invariant
            1 <= i,
            forall|k: int|
                0 <= k < i - 1 && k < s@.len() - 1 && #[trigger] s@[k] == a ==> s@[k + 1] != b,
        decreases s.len() - i,
    {
        if s[i - 1] == a && s[i] == b {
            assert(s@[i - 1] == a && s@[i - 1 + 1] == b);
            return true;
        }
        i += 1;
    }
    false
}

/// Tells whether the quoted sections of a text are beyond doubt.
fn are_quotes_certain(s: &[char]) -> (r: bool)
    ensures
        r == quotes_certain(s@),
{
    lexer::are_quotes_closed(s) && !find_pair(s, '-', '-') && !find_pair(s, '/', '*')
        && text::find_char(s, '\\').is_none() && text::find_char(s, '$').is_none()
}

/// Check if a query is suitable for cursor-based paging.
///
/// Returns true for simple SELECT queries without JOINs, subqueries and
/// multiple statements. Where it cannot be told whether a semicolon is part of
/// quoted text, it counts as the end of a statement.
pub fn is_pageable_query(query: &str) -> (r: bool)
    ensures
        r == pageable(query@),
{
    let s = text::chars_of(query);
    let statement = text::trim_end(
        text::trim(s.as_slice(), CharClass::WhiteSpace),
        CharClass::Is(';'),
    );
    if text::find_char(statement, ';').is_some() {
        if !are_quotes_certain(statement) || find_semicolon(
            &lexer::tokenize(text::string_of(statement).as_str()),
        ) {
            return false;
        }
    }
    extract_table_from_query(query).is_some()
}

// ---------------------------------------------------------------------------
// Row-returning queries
// ---------------------------------------------------------------------------

/// The first word of a query, without the opening parentheses at its two ends.
pub open spec fn leading_word(query: Seq<char>) -> Seq<char> {
    let ws = text::words(query);
    if ws.len() == 0 {
        Seq::empty()
    } else {
        text::trimmed(ws[0], CharClass::Is('('))
    }
}

/// The words that start a query which returns rows.
pub open spec fn starts_row_returning(word: Seq<char>) -> bool {
    ||| text::same_ignoring_case(word, "select"@)
    ||| text::same_ignoring_case(word, "with"@)
    ||| text::same_ignoring_case(word, "values"@)
    ||| text::same_ignoring_case(word, "table"@)
    ||| text::same_ignoring_case(word, "show"@)
    ||| text::same_ignoring_case(word, "explain"@)
}

/// Check if a query returns rows, by its first word.
pub fn is_row_returning_query(query: &str) -> (r: bool)
    ensures
        r == starts_row_returning(leading_word(query@)),
        r <==> exists|start: Seq<char>|
            seq!["select"@, "with"@, "values"@, "table"@, "show"@, "explain"@].contains(start)
                && #[trigger] text::same_ignoring_case(leading_word(query@), start),
{
    proof {
        law_row_returning_words(leading_word(query@));
    }
    let s = text::chars_of(query);
    let words = text::split_whitespace(s.as_slice());
    let first = if words.len() == 0 {
        String::new()
    } else {
        assert(words.deep_view()[0] =~= words@[0]@);
        text::string_of(text::trim(words[0].as_slice(), CharClass::Is('(')))
    };
    let first = first.as_str();
    text::eq_ignore_ascii_case(first, "select") || text::eq_ignore_ascii_case(first, "with")
        || text::eq_ignore_ascii_case(first, "values") || text::eq_ignore_ascii_case(first, "table")
        || text::eq_ignore_ascii_case(first, "show") || text::eq_ignore_ascii_case(first, "explain")
}

// ---------------------------------------------------------------------------
// Laws
// ---------------------------------------------------------------------------

/// A double-quoted token names the table that its text stands for, whatever
/// that name holds.
pub proof fn law_quoted_table_name(name: Seq<char>)
    ensures
        table_name(quoting::quoted(name, '"')) == name,
{
    lexer::law_quoted_is_one_part(name);
    lexer::law_unquoted_quoted(name);
}

/// A qualified token names the table, not the schema.
pub proof fn law_qualified_table_name(schema: Seq<char>, name: Seq<char>)
    ensures
        table_name(quoting::quoted(schema, '"') + seq!['.'] + quoting::quoted(name, '"')) == name,
{
    let token = quoting::quoted(schema, '"') + seq!['.'] + quoting::quoted(name, '"');
    assert(token.last() == '"');
    lexer::law_quoted_pair_is_two_parts(schema, name);
    lexer::law_unquoted_quoted(name);
}

/// A token without quotes, dots, blanks, semicolons and commas names the table
/// as it is written.
pub proof fn law_plain_table_name(token: Seq<char>)
    requires
        forall|i: int|
            0 <= i < token.len() ==> !text::white_space(#[trigger] token[i]) && !lexer::quote_mark(
                token[i],
            ) && token[i] != '.' && token[i] != ';' && token[i] != ',',
    ensures
        table_name(token) == token,
{
    lexer::law_plain_is_one_part(token);
}

/// The tokens of a query that starts with `SELECT * FROM `.
proof fn lemma_tokens_of_select_from(s: Seq<char>)
    requires
        s.len() >= 14,
        s.take(14) == "SELECT * FROM "@,
    ensures
        lexer::tokens(s) == seq![s.subrange(0, 6), seq!['*'], s.subrange(9, 13)]
            + lexer::tokens_from(s, 14),
        text::same_ignoring_case(s.subrange(0, 6), "select"@),
        text::same_ignoring_case(s.subrange(9, 13), "from"@),
{
    let head = "SELECT * FROM "@;
    reveal_strlit("SELECT * FROM ");
    reveal_strlit("select");
    reveal_strlit("from");
    assert forall|i: int| 0 <= i < 14 implies #[trigger] s[i] == head[i] by {
        assert(s.take(14)[i] == s[i]);
    }
    assert(s[6] == ' ' && s[7] == '*' && s[8] == ' ' && s[13] == ' ');
    assert(lexer::word_end(s, 6) == 6);
    assert(lexer::word_end(s, 5) == 6);
    assert(lexer::word_end(s, 4) == 6);
    assert(lexer::word_end(s, 3) == 6);
    assert(lexer::word_end(s, 2) == 6);
    assert(lexer::word_end(s, 1) == 6);
    assert(lexer::word_end(s, 0) == 6);
    assert(lexer::word_end(s, 13) == 13);
    assert(lexer::word_end(s, 12) == 13);
    assert(lexer::word_end(s, 11) == 13);
    assert(lexer::word_end(s, 10) == 13);
    assert(lexer::word_end(s, 9) == 13);
    let rest = lexer::tokens_from(s, 14);
    assert(lexer::tokens_from(s, 13) == rest);
    assert(lexer::tokens_from(s, 9) == seq![s.subrange(9, 13)] + rest);
    assert(lexer::tokens_from(s, 8) == lexer::tokens_from(s, 9));
    assert(lexer::tokens_from(s, 7) == seq![seq!['*']] + lexer::tokens_from(s, 8));
    assert(lexer::tokens_from(s, 6) == lexer::tokens_from(s, 7));
    assert(lexer::tokens_from(s, 0) == seq![s.subrange(0, 6)] + lexer::tokens_from(s, 6));
    assert(lexer::tokens(s) =~= seq![s.subrange(0, 6), seq!['*'], s.subrange(9, 13)] + rest);
}

/// A table that is named in double quotes behind `SELECT * FROM` is found under
/// its name, whatever the name holds and whatever follows it other than a
/// `JOIN` or a subquery.
pub proof fn law_quoted_table_is_found(name: Seq<char>, more: Seq<char>)
    requires
        name.len() > 0,
        more.len() == 0 || text::white_space(more.first()) || lexer::punctuation(more.first()),
        word_position(lexer::tokens(more), "join"@, 0) is None,
        !has_subquery(lexer::tokens(more)),
    ensures
        table_of_query("SELECT * FROM "@ + quoting::quoted(name, '"') + more) == Some(name),
{
    let head = "SELECT * FROM "@;
    let q = quoting::quoted(name, '"');
    let s = head + q + more;
    let end = (head.len() + q.len()) as int;
    let tail = lexer::tokens(more);
    reveal_strlit("SELECT * FROM ");
    reveal_strlit("from");
    assert(s.take(14) =~= head);
    lemma_tokens_of_select_from(s);
    lexer::law_quoted_value_is_one_token(head, name, '"', more);
    lexer::lemma_tokens_behind(s, end, 0);
    assert(s.skip(end) =~= more);
    let ts = lexer::tokens(s);
    assert(ts == seq![s.subrange(0, 6), seq!['*'], s.subrange(9, 13)] + (seq![q] + tail));
    assert(!text::same_ignoring_case(ts[0], "from"@));
    assert(!text::same_ignoring_case(ts[1], "from"@));
    assert(ts[0][0] == 'S' && ts[1][0] == '*');
    assert(depth_at(ts, 0) == 0);
    assert(depth_at(ts, 1) == 0);
    assert(depth_at(ts, 2) == 0);
    assert(top_level_position(ts, "from"@, 2) == Some(2int));
    assert(top_level_position(ts, "from"@, 1) == Some(2int));
    assert(top_level_position(ts, "from"@, 0) == Some(2int));
    lemma_word_position(tail, "join"@, 0);
    lemma_word_position(ts, "join"@, 4);
    if let Some(k) = word_position(ts, "join"@, 4) {
        assert(ts[k] == tail[k - 4]);
    }
    assert(ts[3] == q);
    assert(!has_subquery(ts)) by {
        if has_subquery(ts) {
            let k = choose|k: int|
                0 <= k < ts.len() - 1 && #[trigger] ts[k] == seq!['('] && text::same_ignoring_case(
                    ts[k + 1],
                    "select"@,
                );
            assert(ts[k][0] == '(');
            assert(k >= 4) by {
                assert(ts[0][0] == 'S' && ts[1][0] == '*' && ts[2][0] == 'F' && ts[3][0] == '"');
            }
            assert(ts[k] == tail[k - 4] && ts[k + 1] == tail[k - 4 + 1]);
        }
    }
    law_quoted_table_name(name);
}

/// A subquery anywhere, a parenthesis behind the first `FROM` outside
/// parentheses, or a `JOIN` further on leaves a query without a table, and without paging.
pub proof fn law_complex_query_has_no_table(query: Seq<char>)
    requires
        ({
            let ts = lexer::tokens(query);
            ||| has_subquery(ts)
            ||| top_level_position(ts, "from"@, 0) matches Some(from) && from + 1 < ts.len() && ts[from
                + 1] == seq!['(']
            ||| top_level_position(ts, "from"@, 0) matches Some(from) && exists|k: int|
                from + 2 <= k < ts.len() && text::same_ignoring_case(#[trigger] ts[k], "join"@)
        }),
    ensures
        table_of_query(query) is None,
        !pageable(query),
{
    let ts = lexer::tokens(query);
    lemma_top_level_position(ts, "from"@, 0);
    if let Some(from) = top_level_position(ts, "from"@, 0) {
        lemma_word_position(ts, "join"@, from + 2);
    }
}

/// A query that can be paged is a `SELECT` without subqueries, with a table
/// behind its first `FROM` outside parentheses, where none opens, and without a
/// `JOIN` behind that table.
pub proof fn law_pageable_is_simple(query: Seq<char>)
    requires
        pageable(query),
    ensures
        lexer::tokens(query).len() > 0,
        text::same_ignoring_case(lexer::tokens(query)[0], "select"@),
        !has_subquery(lexer::tokens(query)),
        top_level_position(lexer::tokens(query), "from"@, 0) matches Some(from) && {
            &&& from + 1 < lexer::tokens(query).len()
            &&& lexer::tokens(query)[from + 1] != seq!['(']
            &&& table_of_query(query) == Some(table_name(lexer::tokens(query)[from + 1]))
            &&& table_name(lexer::tokens(query)[from + 1]).len() > 0
            &&& forall|k: int|
                from + 2 <= k < lexer::tokens(query).len() ==> !text::same_ignoring_case(
                    #[trigger] lexer::tokens(query)[k],
                    "join"@,
                )
        },
{
    let ts = lexer::tokens(query);
    lemma_top_level_position(ts, "from"@, 0);
    let from = top_level_position(ts, "from"@, 0)->0;
    lemma_word_position(ts, "join"@, from + 2);
}

/// Where the statement of a query starts in it.
pub open spec fn statement_start(query: Seq<char>) -> int {
    query.len() - text::trimmed_start(query, CharClass::WhiteSpace).len()
}

/// A query is its statement, with white space in front of it, and semicolons
/// and white space behind it.
pub proof fn law_statement_within_query(query: Seq<char>)
    ensures
        0 <= statement_start(query) <= statement_start(query) + statement_of(query).len()
            <= query.len(),
        statement_of(query) == query.subrange(
            statement_start(query),
            statement_start(query) + statement_of(query).len(),
        ),
        forall|k: int|
            0 <= k < statement_start(query) ==> text::white_space(#[trigger] query[k]),
        forall|k: int|
            statement_start(query) + statement_of(query).len() <= k < query.len() ==> (
            #[trigger] query[k] == ';' || text::white_space(query[k])),
{
    let a = text::trimmed_start(query, CharClass::WhiteSpace);
    let b = text::trimmed_end(a, CharClass::WhiteSpace);
    let statement = statement_of(query);
    let start = statement_start(query);
    text::lemma_trimmed_start(query, CharClass::WhiteSpace);
    text::lemma_trimmed_end(a, CharClass::WhiteSpace);
    text::lemma_trimmed_end(b, CharClass::Is(';'));
    assert(statement =~= query.subrange(start, start + statement.len()));
    assert forall|k: int| 0 <= k < start implies text::white_space(#[trigger] query[k]) by {
        assert(CharClass::WhiteSpace.has(query[k]));
    }
    assert forall|k: int| start + statement.len() <= k < query.len() implies (#[trigger] query[k]
        == ';' || text::white_space(query[k])) by {
        assert(a[k - start] == query[k]);
        if k - start < b.len() {
            assert(b[k - start] == query[k]);
            assert(CharClass::Is(';').has(b[k - start]));
        } else {
            assert(CharClass::WhiteSpace.has(a[k - start]));
        }
    }
}

/// A semicolon in the statement of a query that can be paged stands in a closed
/// quoted section, of text that holds no comment, escape or dollar quote.
pub proof fn law_pageable_semicolon_is_quoted(query: Seq<char>, i: int)
    requires
        pageable(query),
        0 <= i < statement_of(query).len(),
        statement_of(query)[i] == ';',
    ensures
        lexer::in_closed_quotes(statement_of(query), i),
        quotes_certain(statement_of(query)),
{
    assert(statement_of(query).contains(';'));
    lexer::law_semicolon_in_closed_quotes(statement_of(query), i);
}

/// A query that can be paged is a single statement: only semicolons and white
/// space follow a semicolon in it, unless the semicolon is part of quoted text
/// that is beyond doubt.
pub proof fn law_pageable_is_one_statement(query: Seq<char>, i: int)
    requires
        pageable(query),
        0 <= i < query.len(),
        query[i] == ';',
    ensures
        ({
            let statement = statement_of(query);
            let start = statement_start(query);
            ||| forall|j: int|
                i <= j < query.len() ==> (#[trigger] query[j] == ';' || text::white_space(query[j]))
            ||| 0 <= i - start < statement.len() && lexer::in_closed_quotes(statement, i - start)
                && quotes_certain(statement)
        }),
{
    law_statement_within_query(query);
    let statement = statement_of(query);
    let start = statement_start(query);
    if i < start + statement.len() {
        assert(i >= start);
        assert(statement[i - start] == query[i]);
        law_pageable_semicolon_is_quoted(query, i - start);
    }
}

/// On a query without quotes, only semicolons at its end let it be paged.
pub proof fn law_pageable_without_quotes(query: Seq<char>)
    requires
        forall|k: int| 0 <= k < query.len() ==> !lexer::quote_mark(#[trigger] query[k]),
    ensures
        pageable(query) <==> table_of_query(query) is Some && !statement_of(query).contains(';'),
{
    let statement = statement_of(query);
    if pageable(query) && statement.contains(';') {
        law_statement_within_query(query);
        let i = choose|i: int| 0 <= i < statement.len() && statement[i] == ';';
        law_pageable_semicolon_is_quoted(query, i);
        let start = choose|start: int| #[trigger] lexer::closed_section(statement, start);
        assert(statement[start] == query[statement_start(query) + start]);
    }
}

/// A query that can be paged returns rows, where its first token ends at white
/// space.
pub proof fn law_pageable_returns_rows(query: Seq<char>)
    requires
        pageable(query),
        text::words(query).len() > 0,
        text::words(query)[0] == lexer::tokens(query)[0],
    ensures
        starts_row_returning(leading_word(query)),
{
    let word = lexer::tokens(query)[0];
    reveal_strlit("select");
    assert(text::ascii_lower(word[0]) == 's');
    assert(text::ascii_lower(word[5]) == 't');
    assert(text::trimmed(word, CharClass::Is('(')) == word);
}

// ---------------------------------------------------------------------------
// Laws of nesting
// ---------------------------------------------------------------------------

proof fn lemma_depth_step(ts: Seq<Seq<char>>, k: int)
    requires
        0 <= k < ts.len(),
    ensures
        ts.take(k + 1).to_multiset() == ts.take(k).to_multiset().insert(ts[k]),
        seq!['('] != seq![')'],
{
    vstd::seq_lib::to_multiset_build(ts.take(k), ts[k]);
    assert(ts.take(k + 1) =~= ts.take(k).push(ts[k]));
    assert(seq!['('][0] == '(' && seq![')'][0] == ')');
}

proof fn lemma_nothing_taken(ts: Seq<Seq<char>>)
    ensures
        forall|token: Seq<char>| #[trigger] ts.take(0).to_multiset().count(token) == 0,
{
    assert forall|token: Seq<char>| #[trigger] ts.take(0).to_multiset().count(token) == 0 by {
        ts.take(0).to_multiset_ensures();
        if ts.take(0).to_multiset().count(token) > 0 {
            assert(ts.take(0).contains(token));
        }
    }
}

/// Where parentheses do not close before they open, the depth of a token is the
/// number of parentheses that open in front of it less the number of those that
/// close.
pub proof fn law_depth_counts_parentheses(ts: Seq<Seq<char>>, k: int)
    requires
        0 <= k <= ts.len(),
        forall|j: int|
            0 <= j <= k ==> (#[trigger] ts.take(j)).to_multiset().count(seq![')'])
                <= ts.take(j).to_multiset().count(seq!['(']),
    ensures
        depth_at(ts, k) == ts.take(k).to_multiset().count(seq!['(']) - ts.take(
            k,
        ).to_multiset().count(seq![')']),
    decreases k,
{
    if k == 0 {
        lemma_nothing_taken(ts);
    } else {
        law_depth_counts_parentheses(ts, k - 1);
        lemma_depth_step(ts, k - 1);
        assert(ts.take(k).to_multiset().count(seq![')']) <= ts.take(k).to_multiset().count(
            seq!['('],
        ));
    }
}

/// In any tokens, the depth is the largest surplus of opening over closing
/// parentheses in a stretch of tokens that ends there.
pub proof fn law_depth_is_largest_surplus(ts: Seq<Seq<char>>, k: int)
    requires
        0 <= k <= ts.len(),
    ensures
        forall|j: int|
            0 <= j <= k ==> depth_at(ts, k) >= ts.take(k).to_multiset().count(seq!['('])
                - ts.take(k).to_multiset().count(seq![')']) - ((
            #[trigger] ts.take(j)).to_multiset().count(seq!['(']) - ts.take(
                j,
            ).to_multiset().count(seq![')'])),
        exists|j: int|
            0 <= j <= k && depth_at(ts, k) == ts.take(k).to_multiset().count(seq!['('])
                - ts.take(k).to_multiset().count(seq![')']) - ((
            #[trigger] ts.take(j)).to_multiset().count(seq!['(']) - ts.take(
                j,
            ).to_multiset().count(seq![')'])),
    decreases k,
{
    if k == 0 {
        lemma_nothing_taken(ts);
        assert(depth_at(ts, 0) == 0);
        assert(ts.take(0).to_multiset().count(seq!['(']) == 0);
    } else {
        law_depth_is_largest_surplus(ts, k - 1);
        lemma_depth_step(ts, k - 1);
        let before = ts.take(k - 1).to_multiset().count(seq!['(']) - ts.take(
            k - 1,
        ).to_multiset().count(seq![')']);
        let j = choose|j: int|
            0 <= j <= k - 1 && depth_at(ts, k - 1) == before - ((
            #[trigger] ts.take(j)).to_multiset().count(seq!['(']) - ts.take(
                j,
            ).to_multiset().count(seq![')']));
        assert(depth_at(ts, k - 1) >= before - (ts.take(k - 1).to_multiset().count(seq!['('])
            - ts.take(k - 1).to_multiset().count(seq![')'])));
        let here = ts.take(k).to_multiset().count(seq!['(']) - ts.take(k).to_multiset().count(
            seq![')'],
        );
        if ts[k - 1] == seq![')'] && depth_at(ts, k - 1) == 0 {
            assert(depth_at(ts, k) == here - (ts.take(k).to_multiset().count(seq!['(']) - ts.take(
                k,
            ).to_multiset().count(seq![')'])));
        } else {
            assert(depth_at(ts, k) == here - (ts.take(j).to_multiset().count(seq!['(']) - ts.take(
                j,
            ).to_multiset().count(seq![')'])));
        }
    }
}

// ---------------------------------------------------------------------------
// Laws of the table
// ---------------------------------------------------------------------------

/// A `SELECT` without subqueries, whose first `FROM` outside parentheses is
/// token `from`, reads the table that the token behind it names, where that
/// token opens no parenthesis and no `JOIN` follows.
pub proof fn law_table_behind_from(query: Seq<char>, from: int)
    requires
        1 <= from < lexer::tokens(query).len() - 1,
        text::same_ignoring_case(lexer::tokens(query)[0], "select"@),
        forall|k: int|
            0 <= k < lexer::tokens(query).len() - 1 && #[trigger] lexer::tokens(query)[k]
                == seq!['('] ==> !text::same_ignoring_case(
                lexer::tokens(query)[k + 1],
                "select"@,
            ),
        text::same_ignoring_case(lexer::tokens(query)[from], "from"@),
        depth_at(lexer::tokens(query), from) == 0,
        forall|j: int|
            0 <= j < from && text::same_ignoring_case(#[trigger] lexer::tokens(query)[j], "from"@)
                ==> depth_at(lexer::tokens(query), j) > 0,
        lexer::tokens(query)[from + 1] != seq!['('],
        forall|k: int|
            from + 2 <= k < lexer::tokens(query).len() ==> !text::same_ignoring_case(
                #[trigger] lexer::tokens(query)[k],
                "join"@,
            ),
    ensures
        table_of_query(query) == if table_name(lexer::tokens(query)[from + 1]).len() == 0 {
            None
        } else {
            Some(table_name(lexer::tokens(query)[from + 1]))
        },
{
    let ts = lexer::tokens(query);
    lemma_top_level_position(ts, "from"@, 0);
    assert(top_level_position(ts, "from"@, 0) == Some(from));
    lemma_word_position(ts, "join"@, from + 2);
    lexer::law_tokens_well_formed(query, from + 1);
    assert(ts[from + 1].first() != '(') by {
        if ts[from + 1].first() == '(' {
            assert(ts[from + 1] =~= seq!['(']);
        }
    }
}

/// Where the parentheses in front of a `FROM` are balanced, and each earlier
/// `FROM` has more of them opened than closed in front of it, the query reads
/// the table behind that `FROM`.
pub proof fn law_table_behind_balanced_list(query: Seq<char>, from: int)
    requires
        1 <= from < lexer::tokens(query).len() - 1,
        text::same_ignoring_case(lexer::tokens(query)[0], "select"@),
        forall|k: int|
            0 <= k < lexer::tokens(query).len() - 1 && #[trigger] lexer::tokens(query)[k]
                == seq!['('] ==> !text::same_ignoring_case(
                lexer::tokens(query)[k + 1],
                "select"@,
            ),
        text::same_ignoring_case(lexer::tokens(query)[from], "from"@),
        forall|j: int|
            0 <= j <= from ==> (#[trigger] lexer::tokens(query).take(j)).to_multiset().count(
                seq![')'],
            ) <= lexer::tokens(query).take(j).to_multiset().count(seq!['(']),
        lexer::tokens(query).take(from).to_multiset().count(seq!['(']) == lexer::tokens(query).take(
            from,
        ).to_multiset().count(seq![')']),
        forall|j: int|
            0 <= j < from && text::same_ignoring_case(#[trigger] lexer::tokens(query)[j], "from"@)
                ==> lexer::tokens(query).take(j).to_multiset().count(seq![')']) < lexer::tokens(
                query,
            ).take(j).to_multiset().count(seq!['(']),
        lexer::tokens(query)[from + 1] != seq!['('],
        forall|k: int|
            from + 2 <= k < lexer::tokens(query).len() ==> !text::same_ignoring_case(
                #[trigger] lexer::tokens(query)[k],
                "join"@,
            ),
    ensures
        table_of_query(query) == if table_name(lexer::tokens(query)[from + 1]).len() == 0 {
            None
        } else {
            Some(table_name(lexer::tokens(query)[from + 1]))
        },
{
    let ts = lexer::tokens(query);
    law_depth_counts_parentheses(ts, from);
    assert forall|j: int|
        0 <= j < from && text::same_ignoring_case(
            #[trigger] ts[j],
            "from"@,
        ) implies depth_at(ts, j) > 0 by {
        law_depth_counts_parentheses(ts, j);
    }
    law_table_behind_from(query, from);
}

proof fn lemma_depth_behind_first(
    first: Seq<char>,
    list: Seq<Seq<char>>,
    tail: Seq<Seq<char>>,
    k: int,
)
    requires
        first != seq!['('],
        first != seq![')'],
        0 <= k <= list.len(),
    ensures
        depth_at(seq![first] + list + tail, k + 1) == depth_at(list, k),
        depth_at(seq![first] + list + tail, 0) == 0,
    decreases k,
{
    let ts = seq![first] + list + tail;
    assert(depth_at(ts, 0) == 0);
    if k == 0 {
        assert(ts[0] == first);
        assert(depth_at(ts, 1) == 0);
    } else {
        lemma_depth_behind_first(first, list, tail, k - 1);
        assert(ts[k] == list[k - 1]);
    }
}

proof fn lemma_tokens_of_keyword(word: Seq<char>)
    requires
        word == "SELECT"@ || word == "FROM"@,
    ensures
        lexer::tokens(word) == seq![word],
        forall|k: int| 0 <= k < word.len() ==> !lexer::quote_mark(#[trigger] word[k]),
        word.len() >= 4,
        word[0] != '(' && word[0] != ')',
{
    reveal_strlit("SELECT");
    reveal_strlit("FROM");
    let n = word.len() as int;
    assert(lexer::word_end(word, n) == n);
    assert(lexer::word_end(word, n - 1) == n);
    assert(lexer::word_end(word, n - 2) == n);
    assert(lexer::word_end(word, n - 3) == n);
    assert(lexer::word_end(word, n - 4) == n);
    if n > 4 {
        assert(lexer::word_end(word, 1) == n);
        assert(lexer::word_end(word, 0) == n);
    }
    assert(word.subrange(0, n) =~= word);
    assert(lexer::tokens_from(word, n) =~= Seq::empty());
    assert(lexer::tokens(word) =~= seq![word]);
}

/// The text `SELECT`, a list, `FROM` and more, with white space between them.
pub open spec fn select_from(
    list: Seq<char>,
    more: Seq<char>,
    blanks: (char, char, char),
) -> Seq<char> {
    "SELECT"@ + (seq![blanks.0] + (list + (seq![blanks.1] + ("FROM"@ + (seq![blanks.2] + more)))))
}

proof fn lemma_tokens_of_select_list(
    list: Seq<char>,
    more: Seq<char>,
    blanks: (char, char, char),
)
    requires
        text::white_space(blanks.0) && text::white_space(blanks.1) && text::white_space(blanks.2),
        forall|k: int| 0 <= k < list.len() ==> !lexer::quote_mark(#[trigger] list[k]),
    ensures
        lexer::tokens(select_from(list, more, blanks)) == seq!["SELECT"@] + lexer::tokens(list) + (
        seq!["FROM"@] + lexer::tokens(more)),
{
    lemma_tokens_of_keyword("SELECT"@);
    lemma_tokens_of_keyword("FROM"@);
    let behind_list = "FROM"@ + (seq![blanks.2] + more);
    let behind_select = list + (seq![blanks.1] + behind_list);
    lexer::law_tokens_of_two("FROM"@, blanks.2, more);
    lexer::law_tokens_of_two(list, blanks.1, behind_list);
    lexer::law_tokens_of_two("SELECT"@, blanks.0, behind_select);
    assert(seq!["SELECT"@] + (lexer::tokens(list) + (seq!["FROM"@] + lexer::tokens(more))) =~= seq![
        "SELECT"@,
    ] + lexer::tokens(list) + (seq!["FROM"@] + lexer::tokens(more)));
}

/// The table of a query is named by the word behind `FROM`, whatever list
/// without quotes stands in front of it, as long as the parentheses of the list
/// are balanced and it holds no `FROM` outside them; a subquery on either side
/// or a `JOIN` behind the table leaves the query without one.
pub proof fn law_table_behind_select_list(
    list: Seq<char>,
    more: Seq<char>,
    blanks: (char, char, char),
)
    requires
        text::white_space(blanks.0) && text::white_space(blanks.1) && text::white_space(blanks.2),
        forall|k: int| 0 <= k < list.len() ==> !lexer::quote_mark(#[trigger] list[k]),
        depth_at(lexer::tokens(list), lexer::tokens(list).len() as int) == 0,
        forall|k: int|
            0 <= k < lexer::tokens(list).len() && text::same_ignoring_case(
                #[trigger] lexer::tokens(list)[k],
                "from"@,
            ) ==> depth_at(lexer::tokens(list), k) > 0,
        lexer::tokens(more).len() > 0,
        lexer::tokens(more)[0] != seq!['('],
        table_name(lexer::tokens(more)[0]).len() > 0,
    ensures
        !has_subquery(lexer::tokens(list)) && !has_subquery(lexer::tokens(more)) && (forall|k: int|
            1 <= k < lexer::tokens(more).len() ==> !text::same_ignoring_case(
                #[trigger] lexer::tokens(more)[k],
                "join"@,
            )) ==> table_of_query(select_from(list, more, blanks)) == Some(
            table_name(lexer::tokens(more)[0]),
        ),
        has_subquery(lexer::tokens(list)) || has_subquery(lexer::tokens(more)) || (exists|k: int|
            1 <= k < lexer::tokens(more).len() && text::same_ignoring_case(
                #[trigger] lexer::tokens(more)[k],
                "join"@,
            )) ==> table_of_query(select_from(list, more, blanks)) is None,
{
    let query = select_from(list, more, blanks);
    let ts = lexer::tokens(query);
    let l = lexer::tokens(list);
    let r = lexer::tokens(more);
    let from = l.len() as int + 1;
    let first = "SELECT"@;
    let tail = seq!["FROM"@] + r;
    reveal_strlit("SELECT");
    reveal_strlit("FROM");
    reveal_strlit("select");
    reveal_strlit("from");
    lemma_tokens_of_select_list(list, more, blanks);
    assert(ts == seq![first] + l + tail);
    assert(ts[0] == first);
    assert(ts[from] == "FROM"@);
    assert forall|k: int| 0 <= k < l.len() implies #[trigger] ts[k + 1] == l[k] by {}
    assert forall|k: int| 0 <= k < r.len() implies #[trigger] ts[from + 1 + k] == r[k] by {}
    assert(text::same_ignoring_case(first, "select"@));
    assert(text::same_ignoring_case("FROM"@, "from"@));
    assert(!text::same_ignoring_case("FROM"@, "select"@));
    assert(!text::same_ignoring_case(first, "from"@));
    assert(first[0] == 'S' && "FROM"@[0] == 'F');
    assert(seq!['('][0] == '(' && seq![')'][0] == ')');
    lemma_depth_behind_first(first, l, tail, l.len() as int);
    lemma_top_level_position(ts, "from"@, 0);
    assert forall|j: int| 0 <= j < from && depth_at(ts, j) == 0 implies !text::same_ignoring_case(
        #[trigger] ts[j],
        "from"@,
    ) by {
        if j > 0 {
            lemma_depth_behind_first(first, l, tail, j - 1);
            assert(ts[j] == l[j - 1]);
        }
    }
    assert(top_level_position(ts, "from"@, 0) == Some(from));
    assert(ts[from + 1] == r[0]) by {
        assert(ts[from + 1 + 0] == r[0]);
    }
    lexer::law_tokens_well_formed(more, 0);
    assert(ts[from + 1].first() != '(') by {
        if r[0].first() == '(' {
            assert(r[0] =~= seq!['(']);
        }
    }
    lemma_word_position(ts, "join"@, from + 2);
    lemma_subquery_of_parts(first, l, "FROM"@, r);
    assert(seq![first] + l + (seq!["FROM"@] + r) == ts);
    if exists|k: int| 1 <= k < r.len() && text::same_ignoring_case(#[trigger] r[k], "join"@) {
        let k = choose|k: int|
            1 <= k < r.len() && text::same_ignoring_case(#[trigger] r[k], "join"@);
        assert(ts[from + 1 + k] == r[k]);
    }
    if let Some(k) = word_position(ts, "join"@, from + 2) {
        assert(ts[from + 1 + (k - from - 1)] == r[k - from - 1]);
    }
}

proof fn lemma_subquery_of_parts(
    first: Seq<char>,
    l: Seq<Seq<char>>,
    middle: Seq<char>,
    r: Seq<Seq<char>>,
)
    requires
        first != seq!['('],
        middle != seq!['('],
        !text::same_ignoring_case(middle, "select"@),
    ensures
        has_subquery(seq![first] + l + (seq![middle] + r)) <==> has_subquery(l) || has_subquery(r),
{
    let ts = seq![first] + l + (seq![middle] + r);
    let from = l.len() as int + 1;
    assert(ts[0] == first && ts[from] == middle);
    assert forall|k: int| 0 <= k < l.len() implies #[trigger] ts[k + 1] == l[k] by {}
    assert forall|k: int| 0 <= k < r.len() implies #[trigger] ts[from + 1 + k] == r[k] by {}
    if has_subquery(ts) {
        let k = choose|k: int|
            0 <= k < ts.len() - 1 && #[trigger] ts[k] == seq!['('] && text::same_ignoring_case(
                ts[k + 1],
                "select"@,
            );
        if k < from {
            assert(ts[(k - 1) + 1] == l[k - 1]);
            assert(k + 1 < from);
            assert(ts[k + 1] == l[k - 1 + 1]);
            assert(has_subquery(l));
        } else {
            let j = k - from - 1;
            assert(ts[from + 1 + j] == r[j]);
            assert(ts[from + 1 + (j + 1)] == r[j + 1]);
            assert(has_subquery(r));
        }
    }
    if has_subquery(l) {
        let k = choose|k: int|
            0 <= k < l.len() - 1 && #[trigger] l[k] == seq!['('] && text::same_ignoring_case(
                l[k + 1],
                "select"@,
            );
        assert(ts[k + 1] == l[k] && ts[k + 1 + 1] == l[k + 1]);
    }
    if has_subquery(r) {
        let k = choose|k: int|
            0 <= k < r.len() - 1 && #[trigger] r[k] == seq!['('] && text::same_ignoring_case(
                r[k + 1],
                "select"@,
            );
        assert(ts[from + 1 + k] == r[k] && ts[from + 1 + (k + 1)] == r[k + 1]);
    }
}

/// A query that does not start with `SELECT`, has a `SELECT` behind an opening
/// parenthesis, or has no `FROM` outside parentheses reads no table.
pub proof fn law_no_table_without_select_and_from(query: Seq<char>)
    requires
        ({
            let ts = lexer::tokens(query);
            ||| ts.len() == 0
            ||| !text::same_ignoring_case(ts[0], "select"@)
            ||| exists|k: int|
                0 <= k < ts.len() - 1 && #[trigger] ts[k] == seq!['('] && text::same_ignoring_case(
                    ts[k + 1],
                    "select"@,
                )
            ||| forall|k: int|
                0 <= k < ts.len() && text::same_ignoring_case(#[trigger] ts[k], "from"@)
                    ==> depth_at(ts, k) > 0
        }),
    ensures
        table_of_query(query) is None,
        !pageable(query),
{
    lemma_top_level_position(lexer::tokens(query), "from"@, 0);
}

/// A query whose first `FROM` outside parentheses is token `from` reads no
/// table where that is the last token, an opening parenthesis follows it, a
/// `JOIN` stands behind the table, or the token behind it names nothing.
pub proof fn law_no_table_behind_from(query: Seq<char>, from: int)
    requires
        0 <= from < lexer::tokens(query).len(),
        text::same_ignoring_case(lexer::tokens(query)[from], "from"@),
        depth_at(lexer::tokens(query), from) == 0,
        forall|j: int|
            0 <= j < from && text::same_ignoring_case(#[trigger] lexer::tokens(query)[j], "from"@)
                ==> depth_at(lexer::tokens(query), j) > 0,
        ({
            let ts = lexer::tokens(query);
            ||| from + 1 == ts.len()
            ||| ts[from + 1] == seq!['(']
            ||| exists|k: int|
                from + 2 <= k < ts.len() && text::same_ignoring_case(#[trigger] ts[k], "join"@)
            ||| table_name(ts[from + 1]).len() == 0
        }),
    ensures
        table_of_query(query) is None,
        !pageable(query),
{
    let ts = lexer::tokens(query);
    lemma_top_level_position(ts, "from"@, 0);
    assert(top_level_position(ts, "from"@, 0) == Some(from));
    lemma_word_position(ts, "join"@, from + 2);
}

/// The table of a token is named by the last part of the identifier in it, and
/// the commas and then the semicolons behind that are no part of it.
pub proof fn law_table_name_of_identifier(
    ident: Seq<char>,
    commas: Seq<char>,
    semicolons: Seq<char>,
)
    requires
        forall|k: int| 0 <= k < commas.len() ==> #[trigger] commas[k] == ',',
        forall|k: int| 0 <= k < semicolons.len() ==> #[trigger] semicolons[k] == ';',
        ident.len() > 0 ==> ident.last() != ',' && (ident.last() != ';' || commas.len() > 0),
    ensures
        lexer::ident_parts(ident).len() > 0,
        table_name(ident + commas + semicolons) == lexer::unquoted(
            lexer::ident_parts(ident)[lexer::ident_parts(ident).len() - 1],
        ),
{
    if commas.len() > 0 {
        assert((ident + commas).last() == commas[commas.len() - 1]);
    } else {
        assert(ident + commas =~= ident);
    }
    text::law_trimmed_end_of(ident + commas, semicolons, CharClass::Is(';'));
    text::law_trimmed_end_of(ident, commas, CharClass::Is(','));
}

/// A qualifier without dots and double quotes changes nothing in the table
/// that a token names.
pub proof fn law_qualifier_is_dropped(qualifier: Seq<char>, token: Seq<char>)
    requires
        !qualifier.contains('.'),
        !qualifier.contains('"'),
        token.len() > 0,
        token.last() != ',' && token.last() != ';',
    ensures
        table_name(qualifier + (seq!['.'] + token)) == table_name(token),
{
    let full = qualifier + (seq!['.'] + token);
    let none = Seq::<char>::empty();
    lexer::law_qualifier_is_first_part(qualifier, token);
    assert(full.last() == token.last());
    law_table_name_of_identifier(full, none, none);
    law_table_name_of_identifier(token, none, none);
    assert(full + none + none =~= full);
    assert(token + none + none =~= token);
}

// ---------------------------------------------------------------------------
// Laws of paging
// ---------------------------------------------------------------------------

/// A query that reads one table can be paged where its statement holds no
/// semicolon, whatever else it holds.
pub proof fn law_single_statement_is_pageable(query: Seq<char>)
    requires
        table_of_query(query) is Some,
        !statement_of(query).contains(';'),
    ensures
        pageable(query),
{
}

/// A query whose statement holds a semicolon can be paged exactly where it
/// reads one table, no token is a semicolon, each quoted section is closed, and
/// the statement has no `--`, no `/*`, no backslash and no dollar sign.
pub proof fn law_pageable_with_semicolons(query: Seq<char>)
    requires
        statement_of(query).contains(';'),
    ensures
        pageable(query) <==> {
            let statement = statement_of(query);
            &&& table_of_query(query) is Some
            &&& lexer::quotes_closed(statement)
            &&& forall|k: int|
                0 <= k < lexer::tokens(statement).len() ==> #[trigger] lexer::tokens(statement)[k]
                    != seq![';']
            &&& forall|k: int|
                0 <= k < statement.len() ==> {
                    &&& #[trigger] statement[k] != '\\'
                    &&& statement[k] != '$'
                    &&& !(k + 1 < statement.len() && statement[k] == '-' && statement[k + 1] == '-')
                    &&& !(k + 1 < statement.len() && statement[k] == '/' && statement[k + 1] == '*')
                }
        },
{
    let statement = statement_of(query);
    if pageable(query) {
        assert forall|k: int| 0 <= k < statement.len() implies {
            &&& #[trigger] statement[k] != '\\'
            &&& statement[k] != '$'
            &&& !(k + 1 < statement.len() && statement[k] == '-' && statement[k + 1] == '-')
            &&& !(k + 1 < statement.len() && statement[k] == '/' && statement[k + 1] == '*')
        } by {
            assert(statement.contains(statement[k]));
        }
    }
}

/// The statement of a query is what stands between the white space in front of
/// it and the semicolons and white space behind it.
pub proof fn law_statement_of(
    before: Seq<char>,
    statement: Seq<char>,
    semicolons: Seq<char>,
    after: Seq<char>,
)
    requires
        forall|k: int| 0 <= k < before.len() ==> text::white_space(#[trigger] before[k]),
        forall|k: int| 0 <= k < after.len() ==> text::white_space(#[trigger] after[k]),
        forall|k: int| 0 <= k < semicolons.len() ==> #[trigger] semicolons[k] == ';',
        statement.len() > 0 ==> {
            &&& !text::white_space(statement.first())
            &&& statement.last() != ';'
            &&& semicolons.len() > 0 || !text::white_space(statement.last())
        },
    ensures
        statement_of(before + (statement + semicolons + after)) == statement,
{
    let inner = statement + semicolons;
    let semicolon = ';';
    text::law_white_space_code_points(semicolon);
    assert forall|k: int| 0 <= k < before.len() implies CharClass::WhiteSpace.has(
        #[trigger] before[k],
    ) by {
        assert(text::white_space(before[k]));
    }
    assert forall|k: int| 0 <= k < after.len() implies CharClass::WhiteSpace.has(
        #[trigger] after[k],
    ) by {
        assert(text::white_space(after[k]));
    }
    if inner.len() == 0 {
        assert(inner + after =~= after);
        let all = before + after;
        let none = Seq::<char>::empty();
        assert forall|k: int| 0 <= k < all.len() implies CharClass::WhiteSpace.has(
            #[trigger] all[k],
        ) by {
            if k < before.len() {
                assert(CharClass::WhiteSpace.has(before[k]));
            } else {
                assert(CharClass::WhiteSpace.has(after[k - before.len()]));
            }
        }
        text::law_trimmed_start_of(all, none, CharClass::WhiteSpace);
        text::law_trimmed_end_of(none, none, CharClass::WhiteSpace);
        text::law_trimmed_end_of(none, none, CharClass::Is(';'));
        assert(all + none =~= all);
        assert(none + none =~= none);
        assert(statement =~= none);
    } else {
        assert((inner + after).first() == if statement.len() > 0 {
            statement[0]
        } else {
            semicolons[0]
        });
        assert(inner.last() == if semicolons.len() > 0 {
            semicolons[semicolons.len() - 1]
        } else {
            statement[statement.len() - 1]
        });
        text::law_trimmed_start_of(before, inner + after, CharClass::WhiteSpace);
        text::law_trimmed_end_of(inner, after, CharClass::WhiteSpace);
        text::law_trimmed_end_of(statement, semicolons, CharClass::Is(';'));
    }
}

// ---------------------------------------------------------------------------
// Laws of row-returning queries
// ---------------------------------------------------------------------------

/// The words that start a query which returns rows are these six, in any case,
/// and no others.
pub proof fn law_row_returning_words(word: Seq<char>)
    ensures
        starts_row_returning(word) <==> exists|start: Seq<char>|
            seq!["select"@, "with"@, "values"@, "table"@, "show"@, "explain"@].contains(start)
                && #[trigger] text::same_ignoring_case(word, start),
{
    let ws = seq!["select"@, "with"@, "values"@, "table"@, "show"@, "explain"@];
    assert(ws[0] == "select"@ && ws[1] == "with"@ && ws[2] == "values"@);
    assert(ws[3] == "table"@ && ws[4] == "show"@ && ws[5] == "explain"@);
    assert(forall|start: Seq<char>|
        #[trigger] ws.contains(start) <==> start == "select"@ || start == "with"@ || start
            == "values"@ || start == "table"@ || start == "show"@ || start == "explain"@);
}

/// A query that starts with any other word, such as `INSERT`, `UPDATE` or
/// `DELETE`, returns no rows.
pub proof fn law_other_words_return_no_rows(query: Seq<char>)
    requires
        ({
            let word = leading_word(query);
            &&& !text::same_ignoring_case(word, "select"@)
            &&& !text::same_ignoring_case(word, "with"@)
            &&& !text::same_ignoring_case(word, "values"@)
            &&& !text::same_ignoring_case(word, "table"@)
            &&& !text::same_ignoring_case(word, "show"@)
            &&& !text::same_ignoring_case(word, "explain"@)
        }),
    ensures
        !starts_row_returning(leading_word(query)),
{
}

/// The leading word of a query is its first word, whatever white space stands
/// in front of it and whatever parentheses open around it.
pub proof fn law_leading_word(
    blanks: Seq<char>,
    open: Seq<char>,
    word: Seq<char>,
    more: Seq<char>,
    rest: Seq<char>,
)
    requires
        forall|k: int| 0 <= k < blanks.len() ==> text::white_space(#[trigger] blanks[k]),
        forall|k: int| 0 <= k < open.len() ==> #[trigger] open[k] == '(',
        forall|k: int| 0 <= k < word.len() ==> !text::white_space(#[trigger] word[k]),
        word.len() > 0 ==> word.first() != '(' && word.last() != '(',
        forall|k: int| 0 <= k < more.len() ==> #[trigger] more[k] == '(',
        rest.len() == 0 || text::white_space(rest[0]),
        word.len() > 0 || rest.len() == 0 || open.len() > 0,
    ensures
        leading_word(blanks + (open + word + more + rest)) == word,
    decreases blanks.len(),
{
    let tail = open + word + more + rest;
    if blanks.len() > 0 {
        let c = blanks[0];
        assert(text::white_space(c));
        assert forall|k: int| 0 <= k < blanks.len() - 1 implies text::white_space(
            #[trigger] blanks.drop_first()[k],
        ) by {
            assert(text::white_space(blanks[k + 1]));
        }
        law_leading_word(blanks.drop_first(), open, word, more, rest);
        assert(blanks + tail =~= seq![c] + (blanks.drop_first() + tail));
        text::law_words_after_blank(c, blanks.drop_first() + tail);
    } else {
        assert(blanks + tail =~= tail);
        lemma_leading_word(open, word, more, rest);
    }
}

proof fn lemma_leading_word(open: Seq<char>, word: Seq<char>, more: Seq<char>, rest: Seq<char>)
    requires
        forall|k: int| 0 <= k < open.len() ==> #[trigger] open[k] == '(',
        forall|k: int| 0 <= k < word.len() ==> !text::white_space(#[trigger] word[k]),
        word.len() > 0 ==> word.first() != '(' && word.last() != '(',
        forall|k: int| 0 <= k < more.len() ==> #[trigger] more[k] == '(',
        rest.len() == 0 || text::white_space(rest[0]),
        word.len() > 0 || rest.len() == 0 || open.len() > 0,
    ensures
        leading_word(open + word + more + rest) == word,
{
    let first = open + word + more;
    let parenthesis = '(';
    let none = Seq::<char>::empty();
    text::law_white_space_code_points(parenthesis);
    if first.len() == 0 {
        assert(first + rest =~= none);
        text::law_words_of_nothing();
        assert(word =~= none);
    } else {
        assert forall|k: int| 0 <= k < first.len() implies !text::white_space(
            #[trigger] first[k],
        ) by {
            if k < open.len() {
                assert(first[k] == open[k]);
            } else if k < open.len() + word.len() {
                assert(first[k] == word[k - open.len()]);
            } else {
                assert(first[k] == more[k - open.len() - word.len()]);
            }
        }
        text::law_first_word(first, rest);
        assert(text::words(first + rest)[0] == first);
        if word.len() == 0 {
            assert forall|k: int| 0 <= k < first.len() implies CharClass::Is('(').has(
                #[trigger] first[k],
            ) by {
                if k < open.len() {
                    assert(first[k] == open[k]);
                } else {
                    assert(first[k] == more[k - open.len() - word.len()]);
                }
            }
            text::law_trimmed_start_of(first, none, CharClass::Is('('));
            text::law_trimmed_end_of(none, none, CharClass::Is('('));
            assert(first + none =~= first);
            assert(none + none =~= none);
            assert(word =~= none);
        } else {
            assert(first =~= open + (word + more));
            assert((word + more).first() == word.first());
            text::law_trimmed_start_of(open, word + more, CharClass::Is('('));
            text::law_trimmed_end_of(word, more, CharClass::Is('('));
        }
    }
}

} // verus!
