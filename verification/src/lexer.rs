//! The lexical structure of a SQL query: its tokens, and the parts of a
//! qualified identifier.

use vstd::prelude::*;
use vstd::slice::slice_subrange;

use crate::quoting;
use crate::text;
use crate::text::CharClass;

verus! {

// ---------------------------------------------------------------------------
// Tokens
// ---------------------------------------------------------------------------

/// The characters that are tokens of their own.
pub open spec fn punctuation(c: char) -> bool {
    c == ';' || c == '(' || c == ')' || c == ',' || c == '*'
}

/// The characters that open a quoted section.
pub open spec fn quote_mark(c: char) -> bool {
    c == '\'' || c == '"'
}

/// The end of the word of `s` that starts at `i`: a word runs up to white
/// space or punctuation outside its quoted sections.
pub open spec fn word_end(s: Seq<char>, i: int) -> int
    decreases s.len() - i,
{
    if i < 0 || i >= s.len() || text::white_space(s[i]) || punctuation(s[i]) {
        i
    } else if quote_mark(s[i]) {
        proof {
            quoting::lemma_quote_end(s, i + 1, s[i]);
        }
        word_end(s, quoting::quote_end(s, i + 1, s[i]))
    } else {
        word_end(s, i + 1)
    }
}

/// A word ends behind where it starts, within the query.
pub proof fn lemma_word_end(s: Seq<char>, i: int)
    requires
        0 <= i <= s.len(),
    ensures
        i <= word_end(s, i) <= s.len(),
        i < s.len() && !text::white_space(s[i]) && !punctuation(s[i]) ==> i < word_end(s, i),
    decreases s.len() - i,
{
    if i < s.len() && !text::white_space(s[i]) && !punctuation(s[i]) {
        if quote_mark(s[i]) {
            quoting::lemma_quote_end(s, i + 1, s[i]);
            lemma_word_end(s, quoting::quote_end(s, i + 1, s[i]));
        } else {
            lemma_word_end(s, i + 1);
        }
    }
}

/// The tokens of `s` from `i` on: punctuation characters and words, with the
/// white space between them left out.
pub open spec fn tokens_from(s: Seq<char>, i: int) -> Seq<Seq<char>>
    decreases s.len() - i,
{
    if i < 0 || i >= s.len() {
        Seq::empty()
    } else if text::white_space(s[i]) {
        tokens_from(s, i + 1)
    } else if punctuation(s[i]) {
        seq![seq![s[i]]] + tokens_from(s, i + 1)
    } else {
        proof {
            lemma_word_end(s, i);
        }
        seq![s.subrange(i, word_end(s, i))] + tokens_from(s, word_end(s, i))
    }
}

/// The tokens of a query.
pub open spec fn tokens(s: Seq<char>) -> Seq<Seq<char>> {
    tokens_from(s, 0)
}

fn is_punctuation(c: char) -> (r: bool)
    ensures
        r == punctuation(c),
{
    c == ';' || c == '(' || c == ')' || c == ',' || c == '*'
}

/// Finds the end of the word that starts at `start`.
fn skip_word(s: &[char], start: usize) -> (r: usize)
    requires
        start <= s@.len(),
    ensures
        r == word_end(s@, start as int),
        start <= r <= s@.len(),
{
    let mut i: usize = start;
    proof {
        lemma_word_end(s@, start as int);
    }
    while i < s.len() && !text::is_white_space(s[i]) && !is_punctuation(s[i])
        invariant
            start <= i <= s@.len(),
            word_end(s@, i as int) == word_end(s@, start as int),
        decreases s.len() - i,
    {
        let c = s[i];
        if c == '\'' || c == '"' {
            proof {
                quoting::lemma_quote_end(s@, i + 1, c);
            }
            i = quoting::skip_quoted(s, i + 1, c);
        } else {
            i += 1;
        }
    }
    i
}

/// Splits a query into its tokens.
pub fn tokenize(query: &str) -> (r: Vec<String>)
    ensures
        r.deep_view() == tokens(query@),
{
    let s = text::chars_of(query);
    let s = s.as_slice();
    let mut out: Vec<String> = Vec::new();
    let mut i: usize = 0;
    assert(out.deep_view() =~= Seq::<Seq<char>>::empty());
    while i < s.len()
        invariant
            i <= s@.len(),
            out.deep_view() + tokens_from(s@, i as int) == tokens(s@),
        decreases s.len() - i,
    {
        if text::is_white_space(s[i]) {
            i += 1;
        } else {
            let start: usize = i;
            proof {
                lemma_word_end(s@, start as int);
            }
            if is_punctuation(s[i]) {
                i += 1;
            } else {
                i = skip_word(s, i);
            }
            let ghost before = out.deep_view();
            let token = text::string_of(slice_subrange(s, start, i));
            out.push(token);
            proof {
                if punctuation(s@[start as int]) {
                    assert(token@ =~= seq![s@[start as int]]);
                }
                assert(out.deep_view() =~= before.push(token@));
                assert(out.deep_view() + tokens_from(s@, i as int) =~= before + (seq![token@]
                    + tokens_from(s@, i as int)));
            }
        }
    }
    assert(out.deep_view() + tokens_from(s@, i as int) =~= out.deep_view());
    out
}

/// Every token is a punctuation character, or a word that runs to its own end.
pub open spec fn well_formed_token(t: Seq<char>) -> bool {
    ||| t.len() == 1 && punctuation(t[0])
    ||| t.len() > 0 && !text::white_space(t[0]) && !punctuation(t[0]) && word_end(t, 0) == t.len()
}

/// The text of `s` from `i` on, without the white space outside quoted
/// sections.
pub open spec fn without_blanks(s: Seq<char>, i: int) -> Seq<char>
    decreases s.len() - i,
{
    if i < 0 || i >= s.len() {
        Seq::empty()
    } else if text::white_space(s[i]) {
        without_blanks(s, i + 1)
    } else if quote_mark(s[i]) {
        proof {
            quoting::lemma_quote_end(s, i + 1, s[i]);
        }
        s.subrange(i, quoting::quote_end(s, i + 1, s[i])) + without_blanks(
            s,
            quoting::quote_end(s, i + 1, s[i]),
        )
    } else {
        seq![s[i]] + without_blanks(s, i + 1)
    }
}

proof fn lemma_word_without_blanks(s: Seq<char>, i: int)
    requires
        0 <= i <= s.len(),
    ensures
        without_blanks(s, i) == s.subrange(i, word_end(s, i)) + without_blanks(s, word_end(s, i)),
    decreases s.len() - i,
{
    lemma_word_end(s, i);
    let end = word_end(s, i);
    if i < s.len() && !text::white_space(s[i]) && !punctuation(s[i]) {
        let next = if quote_mark(s[i]) {
            quoting::quote_end(s, i + 1, s[i])
        } else {
            i + 1
        };
        if quote_mark(s[i]) {
            quoting::lemma_quote_end(s, i + 1, s[i]);
        }
        lemma_word_without_blanks(s, next);
        lemma_word_end(s, next);
        assert(s.subrange(i, end) =~= s.subrange(i, next) + s.subrange(next, end));
        assert(s.subrange(i, i + 1) =~= seq![s[i]]);
        assert(without_blanks(s, i) =~= s.subrange(i, next) + without_blanks(s, next));
        assert(s.subrange(i, next) + (s.subrange(next, end) + without_blanks(s, end))
            =~= s.subrange(i, end) + without_blanks(s, end));
    } else {
        assert(s.subrange(i, end) + without_blanks(s, end) =~= without_blanks(s, end));
    }
}

proof fn lemma_tokens_keep_text(s: Seq<char>, i: int)
    requires
        0 <= i <= s.len(),
    ensures
        tokens_from(s, i).flatten() == without_blanks(s, i),
    decreases s.len() - i,
{
    if i < s.len() {
        if text::white_space(s[i]) {
            lemma_tokens_keep_text(s, i + 1);
        } else {
            lemma_word_end(s, i);
            let end = if punctuation(s[i]) {
                i + 1
            } else {
                word_end(s, i)
            };
            let first = s.subrange(i, end);
            let rest = tokens_from(s, end);
            lemma_tokens_keep_text(s, end);
            assert(punctuation(s[i]) ==> first =~= seq![s[i]]);
            assert((seq![first] + rest).drop_first() =~= rest);
            assert(tokens_from(s, i).flatten() =~= first + rest.flatten());
            if !punctuation(s[i]) {
                lemma_word_without_blanks(s, i);
            }
        }
    }
}

/// Put one after the other, the tokens of a query are the query itself without
/// the white space outside its quoted sections: nothing is lost and nothing is
/// reordered.
pub proof fn law_tokens_keep_text(s: Seq<char>)
    ensures
        tokens(s).flatten() == without_blanks(s, 0),
{
    lemma_tokens_keep_text(s, 0);
}

proof fn lemma_quote_end_of_section(s: Seq<char>, from: int, to: int, i: int, quote: char)
    requires
        0 <= from <= i <= to <= s.len(),
        quoting::quote_end(s, i, quote) <= to,
        to < s.len() ==> s[to] != quote,
    ensures
        quoting::quote_end(s.subrange(from, to), i - from, quote) == quoting::quote_end(s, i, quote)
            - from,
    decreases to - i,
{
    let t = s.subrange(from, to);
    quoting::lemma_quote_end(s, i, quote);
    if i < to {
        assert(t[i - from] == s[i]);
        if s[i] != quote {
            lemma_quote_end_of_section(s, from, to, i + 1, quote);
        } else if i + 1 < s.len() && s[i + 1] == quote {
            quoting::lemma_quote_end(s, i + 2, quote);
            assert(t[i + 1 - from] == s[i + 1]);
            lemma_quote_end_of_section(s, from, to, i + 2, quote);
        } else if i + 1 < to {
            assert(t[i + 1 - from] == s[i + 1]);
        }
    }
}

proof fn lemma_word_end_of_word(s: Seq<char>, from: int, i: int)
    requires
        0 <= from <= i <= s.len(),
    ensures
        word_end(s.subrange(from, word_end(s, i)), i - from) == word_end(s, i) - from,
    decreases s.len() - i,
{
    lemma_word_end(s, i);
    let to = word_end(s, i);
    let t = s.subrange(from, to);
    if i < to {
        assert(t[i - from] == s[i]);
        if quote_mark(s[i]) {
            let next = quoting::quote_end(s, i + 1, s[i]);
            quoting::lemma_quote_end(s, i + 1, s[i]);
            lemma_word_end(s, next);
            lemma_word_stops(s, i);
            lemma_quote_end_of_section(s, from, to, i + 1, s[i]);
            lemma_word_end_of_word(s, from, next);
        } else {
            lemma_word_end_of_word(s, from, i + 1);
        }
    }
}

proof fn lemma_word_stops(s: Seq<char>, i: int)
    requires
        0 <= i <= s.len(),
    ensures
        word_end(s, i) < s.len() ==> text::white_space(s[word_end(s, i)]) || punctuation(
            s[word_end(s, i)],
        ),
    decreases s.len() - i,
{
    if i < s.len() && !text::white_space(s[i]) && !punctuation(s[i]) {
        if quote_mark(s[i]) {
            quoting::lemma_quote_end(s, i + 1, s[i]);
            lemma_word_stops(s, quoting::quote_end(s, i + 1, s[i]));
        } else {
            lemma_word_stops(s, i + 1);
        }
    }
}

proof fn lemma_tokens_well_formed(s: Seq<char>, i: int, k: int)
    requires
        0 <= i <= s.len(),
        0 <= k < tokens_from(s, i).len(),
    ensures
        well_formed_token(tokens_from(s, i)[k]),
    decreases s.len() - i,
{
    if i < s.len() {
        if text::white_space(s[i]) {
            lemma_tokens_well_formed(s, i + 1, k);
        } else {
            lemma_word_end(s, i);
            let end = if punctuation(s[i]) {
                i + 1
            } else {
                word_end(s, i)
            };
            if k > 0 {
                lemma_tokens_well_formed(s, end, k - 1);
            } else if !punctuation(s[i]) {
                lemma_word_end_of_word(s, i, i);
                assert(s.subrange(i, end)[0] == s[i]);
            }
        }
    }
}

/// No token is empty, and none holds white space or punctuation outside its
/// quoted sections, unless it is a single punctuation character.
pub proof fn law_tokens_well_formed(s: Seq<char>, k: int)
    requires
        0 <= k < tokens(s).len(),
    ensures
        well_formed_token(tokens(s)[k]),
{
    lemma_tokens_well_formed(s, 0, k);
}

/// A token on its own is a query of that one token.
pub proof fn law_token_is_one_token(s: Seq<char>, k: int)
    requires
        0 <= k < tokens(s).len(),
    ensures
        tokens(tokens(s)[k]) == seq![tokens(s)[k]],
{
    let t = tokens(s)[k];
    lemma_tokens_well_formed(s, 0, k);
    assert(tokens_from(t, t.len() as int) =~= Seq::empty());
    if punctuation(t[0]) {
        assert(seq![t[0]] =~= t);
        assert(seq![seq![t[0]]] + tokens_from(t, 1) =~= seq![t]);
    } else {
        assert(t.subrange(0, t.len() as int) =~= t);
        assert(seq![t] + tokens_from(t, t.len() as int) =~= seq![t]);
    }
}

proof fn lemma_quote_end_behind(s: Seq<char>, k: int, i: int, quote: char)
    requires
        0 <= k <= s.len(),
        0 <= i <= s.len() - k,
    ensures
        quoting::quote_end(s, k + i, quote) == k + quoting::quote_end(s.skip(k), i, quote),
    decreases s.len() - k - i,
{
    let t = s.skip(k);
    if i < t.len() {
        assert(t[i] == s[k + i]);
        if t[i] != quote {
            lemma_quote_end_behind(s, k, i + 1, quote);
        } else if i + 1 < t.len() {
            assert(t[i + 1] == s[k + i + 1]);
            if t[i + 1] == quote {
                lemma_quote_end_behind(s, k, i + 2, quote);
            }
        }
    }
}

proof fn lemma_word_end_behind(s: Seq<char>, k: int, i: int)
    requires
        0 <= k <= s.len(),
        0 <= i <= s.len() - k,
    ensures
        word_end(s, k + i) == k + word_end(s.skip(k), i),
    decreases s.len() - k - i,
{
    let t = s.skip(k);
    if i < t.len() {
        assert(t[i] == s[k + i]);
        if !text::white_space(t[i]) && !punctuation(t[i]) {
            if quote_mark(t[i]) {
                lemma_quote_end_behind(s, k, i + 1, t[i]);
                quoting::lemma_quote_end(t, i + 1, t[i]);
                lemma_word_end_behind(s, k, quoting::quote_end(t, i + 1, t[i]));
            } else {
                lemma_word_end_behind(s, k, i + 1);
            }
        }
    }
}

/// The tokens of a query from some position on are those of what stands from
/// there on.
pub proof fn lemma_tokens_behind(s: Seq<char>, k: int, i: int)
    requires
        0 <= k <= s.len(),
        0 <= i <= s.len() - k,
    ensures
        tokens_from(s, k + i) == tokens_from(s.skip(k), i),
    decreases s.len() - k - i,
{
    let t = s.skip(k);
    if i < t.len() {
        assert(t[i] == s[k + i]);
        if text::white_space(t[i]) || punctuation(t[i]) {
            lemma_tokens_behind(s, k, i + 1);
        } else {
            let end = word_end(t, i);
            lemma_word_end(t, i);
            lemma_word_end_behind(s, k, i);
            lemma_tokens_behind(s, k, end);
            assert(t.subrange(i, end) =~= s.subrange(k + i, k + end));
        }
    }
}

/// A quoted section in which the quotes are doubled is one token, wherever it
/// stands between other tokens: nothing that the value holds can end it.
pub proof fn law_quoted_value_is_one_token(
    before: Seq<char>,
    value: Seq<char>,
    quote: char,
    after: Seq<char>,
)
    requires
        quote_mark(quote),
        after.len() == 0 || text::white_space(after.first()) || punctuation(after.first()),
    ensures
        tokens_from(before + quoting::quoted(value, quote) + after, before.len() as int) == seq![
            quoting::quoted(value, quote),
        ] + tokens_from(
            before + quoting::quoted(value, quote) + after,
            (before.len() + quoting::quoted(value, quote).len()) as int,
        ),
{
    let q = quoting::quoted(value, quote);
    let s = before + q + after;
    let start = before.len() as int;
    let end = (before.len() + q.len()) as int;
    quoting::law_escaped_value_stays_inside(before + seq![quote], value, after, quote);
    assert((before + seq![quote]) + quoting::doubled(value, quote) + seq![quote] + after =~= s);
    assert(s[start] == quote);
    assert(after.len() > 0 ==> s[end] == after[0]);
    assert(quoting::quote_end(s, start + 1, quote) == end);
    assert(word_end(s, end) == end);
    assert(word_end(s, start) == end);
    assert(s.subrange(start, end) =~= q);
}

// ---------------------------------------------------------------------------
// Quoted sections
// ---------------------------------------------------------------------------

/// Reading `s` from `from` on, which is outside quoted sections, comes to `i`
/// outside quoted sections. The quote that opens a section is outside it.
pub open spec fn outside_quotes(s: Seq<char>, from: int, i: int) -> bool
    decreases s.len() - from,
{
    if from < 0 || from >= s.len() || from > i {
        false
    } else if from == i {
        true
    } else if quote_mark(s[from]) {
        proof {
            quoting::lemma_quote_end(s, from + 1, s[from]);
        }
        outside_quotes(s, quoting::quote_end(s, from + 1, s[from]), i)
    } else {
        outside_quotes(s, from + 1, i)
    }
}

/// No quoted section of `s`, from `i` on, runs to the end unclosed.
pub open spec fn quotes_closed_from(s: Seq<char>, i: int) -> bool
    decreases s.len() - i,
{
    if i < 0 || i >= s.len() {
        true
    } else if quote_mark(s[i]) {
        proof {
            quoting::lemma_quote_end(s, i + 1, s[i]);
        }
        quoting::quote_closed(s, i + 1, s[i]) && quotes_closed_from(
            s,
            quoting::quote_end(s, i + 1, s[i]),
        )
    } else {
        quotes_closed_from(s, i + 1)
    }
}

/// No quoted section of `s` runs to the end unclosed.
pub open spec fn quotes_closed(s: Seq<char>) -> bool {
    quotes_closed_from(s, 0)
}

/// Tells whether every quoted section ends with a quote.
pub fn are_quotes_closed(s: &[char]) -> (r: bool)
    ensures
        r == quotes_closed(s@),
{
    let mut i: usize = 0;
    while i < s.len()
        invariant
            i <= s@.len(),
            quotes_closed_from(s@, i as int) == quotes_closed(s@),
        decreases s.len() - i,
    {
        let c = s[i];
        if c == '\'' || c == '"' {
            if !quoting::is_quote_closed(s, i + 1, c) {
                return false;
            }
            proof {
                quoting::lemma_quote_end(s@, i + 1, c);
            }
            i = quoting::skip_quoted(s, i + 1, c);
        } else {
            i += 1;
        }
    }
    true
}

/// `start` is the opening quote of a quoted section of `s` that is closed.
pub open spec fn closed_section(s: Seq<char>, start: int) -> bool {
    &&& 0 <= start < s.len()
    &&& outside_quotes(s, 0, start)
    &&& quote_mark(s[start])
    &&& quoting::quote_closed(s, start + 1, s[start])
}

/// The character at `i` stands in a closed quoted section of `s`.
pub open spec fn in_closed_quotes(s: Seq<char>, i: int) -> bool {
    exists|start: int| #[trigger]
        closed_section(s, start) && start < i < quoting::quote_end(s, start + 1, s[start])
}

/// The opening quote of the section that `i` is in, reading from `from` on.
spec fn section_of(s: Seq<char>, from: int, i: int) -> int
    decreases s.len() - from,
{
    if from < 0 || from >= s.len() {
        from
    } else if quote_mark(s[from]) {
        proof {
            quoting::lemma_quote_end(s, from + 1, s[from]);
        }
        if i < quoting::quote_end(s, from + 1, s[from]) {
            from
        } else {
            section_of(s, quoting::quote_end(s, from + 1, s[from]), i)
        }
    } else {
        section_of(s, from + 1, i)
    }
}

proof fn lemma_outside_or_in_section(s: Seq<char>, from: int, i: int)
    requires
        0 <= from <= i < s.len(),
        !outside_quotes(s, from, i),
    ensures
        from <= section_of(s, from, i) < i < quoting::quote_end(
            s,
            section_of(s, from, i) + 1,
            s[section_of(s, from, i)],
        ),
        quote_mark(s[section_of(s, from, i)]),
        outside_quotes(s, from, section_of(s, from, i)),
    decreases s.len() - from,
{
    if quote_mark(s[from]) {
        let end = quoting::quote_end(s, from + 1, s[from]);
        quoting::lemma_quote_end(s, from + 1, s[from]);
        if end <= i {
            lemma_outside_or_in_section(s, end, i);
        }
    } else {
        lemma_outside_or_in_section(s, from + 1, i);
    }
}

proof fn lemma_section_closed(s: Seq<char>, from: int, start: int)
    requires
        0 <= from,
        quotes_closed_from(s, from),
        outside_quotes(s, from, start),
        quote_mark(s[start]),
    ensures
        quoting::quote_closed(s, start + 1, s[start]),
    decreases s.len() - from,
{
    if from < start {
        if quote_mark(s[from]) {
            quoting::lemma_quote_end(s, from + 1, s[from]);
            lemma_section_closed(s, quoting::quote_end(s, from + 1, s[from]), start);
        } else {
            lemma_section_closed(s, from + 1, start);
        }
    }
}

proof fn lemma_outside_past_word(s: Seq<char>, from: int, i: int)
    requires
        0 <= from,
        outside_quotes(s, from, i),
    ensures
        i < word_end(s, from) ==> !punctuation(s[i]),
        i >= word_end(s, from) ==> outside_quotes(s, word_end(s, from), i),
    decreases s.len() - from,
{
    if from < i && !text::white_space(s[from]) && !punctuation(s[from]) {
        let next = if quote_mark(s[from]) {
            quoting::quote_end(s, from + 1, s[from])
        } else {
            from + 1
        };
        if quote_mark(s[from]) {
            quoting::lemma_quote_end(s, from + 1, s[from]);
        }
        lemma_outside_past_word(s, next, i);
    } else {
        lemma_word_end(s, from);
    }
}

proof fn lemma_semicolon_token(s: Seq<char>, from: int, i: int)
    requires
        0 <= from,
        outside_quotes(s, from, i),
        s[i] == ';',
    ensures
        tokens_from(s, from).contains(seq![';']),
    decreases s.len() - from,
{
    let ts = tokens_from(s, from);
    if text::white_space(s[from]) {
        lemma_semicolon_token(s, from + 1, i);
    } else if punctuation(s[from]) && from == i {
        assert(ts[0] == seq![';']);
    } else {
        lemma_word_end(s, from);
        let end = if punctuation(s[from]) {
            from + 1
        } else {
            word_end(s, from)
        };
        if !punctuation(s[from]) {
            lemma_outside_past_word(s, from, i);
        }
        lemma_semicolon_token(s, end, i);
        let rest = tokens_from(s, end);
        let k = choose|k: int| 0 <= k < rest.len() && rest[k] == seq![';'];
        assert(ts[k + 1] == seq![';']);
    }
}

/// A semicolon outside quoted sections is a token.
pub proof fn law_semicolon_outside_quotes_is_token(s: Seq<char>, i: int)
    requires
        outside_quotes(s, 0, i),
        s[i] == ';',
    ensures
        tokens(s).contains(seq![';']),
{
    lemma_semicolon_token(s, 0, i);
}

/// Where no token is a semicolon and every quoted section is closed, a
/// semicolon stands in a closed quoted section.
pub proof fn law_semicolon_in_closed_quotes(s: Seq<char>, i: int)
    requires
        0 <= i < s.len(),
        s[i] == ';',
        !tokens(s).contains(seq![';']),
        quotes_closed(s),
    ensures
        in_closed_quotes(s, i),
{
    if outside_quotes(s, 0, i) {
        lemma_semicolon_token(s, 0, i);
    }
    let start = section_of(s, 0, i);
    lemma_outside_or_in_section(s, 0, i);
    lemma_section_closed(s, 0, start);
    assert(closed_section(s, start));
}

// ---------------------------------------------------------------------------
// Identifiers
// ---------------------------------------------------------------------------

/// The end of the part of a qualified identifier that starts at `i`: a part
/// runs up to a dot outside its double-quoted sections.
pub open spec fn part_end(s: Seq<char>, i: int) -> int
    decreases s.len() - i,
{
    if i < 0 || i >= s.len() || s[i] == '.' {
        i
    } else if s[i] == '"' {
        proof {
            quoting::lemma_quote_end(s, i + 1, '"');
        }
        part_end(s, quoting::quote_end(s, i + 1, '"'))
    } else {
        part_end(s, i + 1)
    }
}

/// A part ends at a dot or at the end of the identifier.
pub proof fn lemma_part_end(s: Seq<char>, i: int)
    requires
        0 <= i <= s.len(),
    ensures
        i <= part_end(s, i) <= s.len(),
        part_end(s, i) < s.len() ==> s[part_end(s, i)] == '.',
    decreases s.len() - i,
{
    if i < s.len() && s[i] != '.' {
        if s[i] == '"' {
            quoting::lemma_quote_end(s, i + 1, '"');
            lemma_part_end(s, quoting::quote_end(s, i + 1, '"'));
        } else {
            lemma_part_end(s, i + 1);
        }
    }
}

/// The parts of a qualified identifier from `i` on.
pub open spec fn ident_parts_from(s: Seq<char>, i: int) -> Seq<Seq<char>>
    decreases s.len() - i,
{
    if i < 0 || i > s.len() {
        Seq::empty()
    } else {
        proof {
            lemma_part_end(s, i);
        }
        let end = part_end(s, i);
        if end < s.len() {
            seq![s.subrange(i, end)] + ident_parts_from(s, end + 1)
        } else {
            seq![s.subrange(i, end)]
        }
    }
}

/// The parts of a qualified identifier, in order.
pub open spec fn ident_parts(s: Seq<char>) -> Seq<Seq<char>> {
    ident_parts_from(s, 0)
}

/// Parts written one after the other with a dot between each two of them.
pub open spec fn dotted(parts: Seq<Seq<char>>) -> Seq<char>
    decreases parts.len(),
{
    if parts.len() == 0 {
        Seq::empty()
    } else if parts.len() == 1 {
        parts[0]
    } else {
        parts[0] + seq!['.'] + dotted(parts.drop_first())
    }
}

proof fn lemma_ident_parts(s: Seq<char>, i: int)
    requires
        0 <= i <= s.len(),
    ensures
        ident_parts_from(s, i).len() > 0,
        dotted(ident_parts_from(s, i)) == s.subrange(i, s.len() as int),
    decreases s.len() - i,
{
    lemma_part_end(s, i);
    let end = part_end(s, i);
    if end < s.len() {
        let first = s.subrange(i, end);
        let rest = ident_parts_from(s, end + 1);
        lemma_ident_parts(s, end + 1);
        assert((seq![first] + rest).drop_first() =~= rest);
        assert(first + seq!['.'] + s.subrange(end + 1, s.len() as int) =~= s.subrange(
            i,
            s.len() as int,
        ));
    }
}

/// The parts of an identifier, joined by dots, are the identifier; there is
/// always at least one.
pub proof fn law_ident_parts_join(s: Seq<char>)
    ensures
        ident_parts(s).len() > 0,
        dotted(ident_parts(s)) == s,
{
    lemma_ident_parts(s, 0);
    assert(s.subrange(0, s.len() as int) =~= s);
}

/// Finds the end of the part that starts at `start`.
fn skip_part(s: &[char], start: usize) -> (r: usize)
    requires
        start <= s@.len(),
    ensures
        r == part_end(s@, start as int),
        start <= r <= s@.len(),
{
    let mut i: usize = start;
    proof {
        lemma_part_end(s@, start as int);
    }
    while i < s.len() && s[i] != '.'
        invariant
            start <= i <= s@.len(),
            part_end(s@, i as int) == part_end(s@, start as int),
        decreases s.len() - i,
    {
        if s[i] == '"' {
            proof {
                quoting::lemma_quote_end(s@, i + 1, '"');
            }
            i = quoting::skip_quoted(s, i + 1, '"');
        } else {
            i += 1;
        }
    }
    i
}

/// Splits a qualified identifier into its parts.
pub fn split_qualified_ident(s: &str) -> (r: Vec<String>)
    ensures
        r.deep_view() == ident_parts(s@),
        r@.len() > 0,
{
    let s = text::chars_of(s);
    let s = s.as_slice();
    let mut out: Vec<String> = Vec::new();
    let mut start: usize = 0;
    let mut end: usize = skip_part(s, start);
    assert(out.deep_view() =~= Seq::<Seq<char>>::empty());
    while end < s.len()
        invariant
            start <= end <= s@.len(),
            end == part_end(s@, start as int),
            out.deep_view() + ident_parts_from(s@, start as int) == ident_parts(s@),
        decreases s.len() - end,
    {
        let ghost before = out.deep_view();
        let part = text::string_of(slice_subrange(s, start, end));
        out.push(part);
        assert(out.deep_view() =~= before.push(part@));
        assert(out.deep_view() + ident_parts_from(s@, end + 1) =~= before + (seq![part@]
            + ident_parts_from(s@, end + 1)));
        start = end + 1;
        end = skip_part(s, start);
    }
    let ghost before = out.deep_view();
    let part = text::string_of(slice_subrange(s, start, end));
    out.push(part);
    assert(out.deep_view() =~= before.push(part@));
    assert(out.deep_view() =~= before + seq![part@]);
    out
}

/// The name that one part of an identifier stands for. White space around it
/// is not part of the name. In a double-quoted part each pair of quotes is one
/// quote of the name; from any other part single quotes at its ends are
/// stripped.
pub open spec fn unquoted(s: Seq<char>) -> Seq<char> {
    let t = text::trimmed(s, CharClass::WhiteSpace);
    if t.len() >= 2 && t.first() == '"' && t.last() == '"' {
        quoting::undoubled(t.subrange(1, t.len() - 1), '"')
    } else {
        text::trimmed(t, CharClass::Is('\''))
    }
}

/// Reads the name that one part of an identifier stands for.
pub fn unquote_ident(s: &str) -> (r: String)
    ensures
        r@ == unquoted(s@),
{
    let s = text::chars_of(s);
    let t = text::trim(s.as_slice(), CharClass::WhiteSpace);
    let n: usize = t.len();
    if n >= 2 && t[0] == '"' && t[n - 1] == '"' {
        let name = quoting::undouble(slice_subrange(t, 1, n - 1), '"');
        text::string_of(name.as_slice())
    } else {
        text::string_of(text::trim(t, CharClass::Is('\'')))
    }
}

/// A name comes back unchanged when it is read from a double-quoted part with
/// its quotes doubled.
pub proof fn law_unquoted_quoted(name: Seq<char>)
    ensures
        unquoted(quoting::quoted(name, '"')) == name,
{
    let t = quoting::quoted(name, '"');
    assert(t.first() == '"' && t.last() == '"');
    assert(t.subrange(1, t.len() - 1) =~= quoting::doubled(name, '"'));
    quoting::law_undoubled_doubled(name, '"');
}

/// A double-quoted identifier has one part, whatever it holds.
pub proof fn law_quoted_is_one_part(name: Seq<char>)
    ensures
        ident_parts(quoting::quoted(name, '"')) == seq![quoting::quoted(name, '"')],
{
    let q = quoting::quoted(name, '"');
    let none = Seq::<char>::empty();
    quoting::law_escaped_value_stays_inside(seq!['"'], name, none, '"');
    assert(seq!['"'] + quoting::doubled(name, '"') + seq!['"'] + none =~= q);
    assert(part_end(q, q.len() as int) == q.len());
    assert(part_end(q, 0) == q.len());
    assert(q.subrange(0, q.len() as int) =~= q);
}

/// A double-quoted schema and a double-quoted name, with a dot between them,
/// are the two parts of the identifier.
pub proof fn law_quoted_pair_is_two_parts(schema: Seq<char>, name: Seq<char>)
    ensures
        ident_parts(quoting::quoted(schema, '"') + seq!['.'] + quoting::quoted(name, '"')) == seq![
            quoting::quoted(schema, '"'),
            quoting::quoted(name, '"'),
        ],
{
    let a = quoting::quoted(schema, '"');
    let b = quoting::quoted(name, '"');
    let s = a + seq!['.'] + b;
    let none = Seq::<char>::empty();
    let dot = a.len() as int;
    quoting::law_escaped_value_stays_inside(seq!['"'], schema, seq!['.'] + b, '"');
    assert(seq!['"'] + quoting::doubled(schema, '"') + seq!['"'] + (seq!['.'] + b) =~= s);
    assert(s[0] == '"');
    assert(s[dot] == '.');
    assert(part_end(s, dot) == dot);
    assert(part_end(s, 0) == dot);
    assert(s.subrange(0, dot) =~= a);
    quoting::law_escaped_value_stays_inside(a + seq!['.'] + seq!['"'], name, none, '"');
    assert((a + seq!['.'] + seq!['"']) + quoting::doubled(name, '"') + seq!['"'] + none =~= s);
    assert(s[dot + 1] == '"');
    assert(part_end(s, s.len() as int) == s.len());
    assert(part_end(s, dot + 1) == s.len());
    assert(s.subrange(dot + 1, s.len() as int) =~= b);
    assert(ident_parts_from(s, dot + 1) =~= seq![b]);
    assert(ident_parts(s) =~= seq![a, b]);
}

proof fn lemma_plain_part_end(s: Seq<char>, i: int)
    requires
        0 <= i <= s.len(),
        !s.contains('.'),
        !s.contains('"'),
    ensures
        part_end(s, i) == s.len(),
    decreases s.len() - i,
{
    if i < s.len() {
        assert(s.contains(s[i]));
        lemma_plain_part_end(s, i + 1);
    }
}

/// An identifier without dots and double quotes has one part.
pub proof fn law_plain_is_one_part(s: Seq<char>)
    requires
        !s.contains('.'),
        !s.contains('"'),
    ensures
        ident_parts(s) == seq![s],
{
    lemma_plain_part_end(s, 0);
    assert(s.subrange(0, s.len() as int) =~= s);
}

// ---------------------------------------------------------------------------
// Laws of reading from the front
// ---------------------------------------------------------------------------

/// The punctuation of SQL that is a token of its own, and its quotes.
pub proof fn law_special_characters(c: char)
    ensures
        punctuation(c) <==> c == ';' || c == '(' || c == ')' || c == ',' || c == '*',
        quote_mark(c) <==> c == '\'' || c == '"',
{
}

/// No text, no tokens.
pub proof fn law_tokens_of_nothing()
    ensures
        tokens(Seq::empty()).len() == 0,
{
}

/// White space in front of a query changes nothing in its tokens.
pub proof fn law_tokens_after_blank(c: char, rest: Seq<char>)
    requires
        text::white_space(c),
    ensures
        tokens(seq![c] + rest) == tokens(rest),
{
    let s = seq![c] + rest;
    lemma_tokens_behind(s, 1, 0);
    assert(s.skip(1) =~= rest);
}

/// Punctuation in front of a query is one more token.
pub proof fn law_tokens_after_punctuation(c: char, rest: Seq<char>)
    requires
        c == ';' || c == '(' || c == ')' || c == ',' || c == '*',
    ensures
        tokens(seq![c] + rest) == seq![seq![c]] + tokens(rest),
{
    let s = seq![c] + rest;
    lemma_tokens_behind(s, 1, 0);
    assert(s.skip(1) =~= rest);
}

/// A query goes on with the word in front of it.
pub open spec fn continues_word(rest: Seq<char>) -> bool {
    rest.len() > 0 && !text::white_space(rest[0]) && rest[0] != ';' && rest[0] != '(' && rest[0]
        != ')' && rest[0] != ',' && rest[0] != '*'
}

proof fn lemma_tokens_after_piece(piece: Seq<char>, rest: Seq<char>)
    requires
        piece.len() > 0,
        !text::white_space(piece[0]),
        !punctuation(piece[0]),
        word_end(piece + rest, 0) == word_end(piece + rest, piece.len() as int),
    ensures
        !continues_word(rest) ==> tokens(piece + rest) == seq![piece] + tokens(rest),
        continues_word(rest) ==> tokens(rest).len() > 0 && tokens(piece + rest) == seq![piece
            + tokens(rest)[0]] + tokens(rest).drop_first(),
{
    let s = piece + rest;
    let n = piece.len() as int;
    assert(s[0] == piece[0]);
    assert(s.skip(n) =~= rest);
    lemma_tokens_behind(s, n, 0);
    lemma_word_end_behind(s, n, 0);
    lemma_word_end(rest, 0);
    let end = word_end(rest, 0);
    lemma_tokens_behind(s, n, end);
    if continues_word(rest) {
        assert(s.subrange(0, n + end) =~= piece + rest.subrange(0, end));
        assert(tokens(rest).drop_first() =~= tokens_from(rest, end));
    } else {
        assert(end == 0);
        assert(s.subrange(0, n) =~= piece);
    }
}

/// A character that is none of these, in front of a query, starts a word there,
/// which the first token of the query goes on with where the query begins with
/// a word.
pub proof fn law_tokens_after_character(c: char, rest: Seq<char>)
    requires
        !text::white_space(c),
        c != ';' && c != '(' && c != ')' && c != ',' && c != '*' && c != '\'' && c != '"',
    ensures
        !continues_word(rest) ==> tokens(seq![c] + rest) == seq![seq![c]] + tokens(rest),
        continues_word(rest) ==> tokens(rest).len() > 0 && tokens(seq![c] + rest) == seq![seq![c]
            + tokens(rest)[0]] + tokens(rest).drop_first(),
{
    assert((seq![c] + rest)[0] == c);
    lemma_tokens_after_piece(seq![c], rest);
}

/// A quoted value in front of a query is a word there, or the start of one,
/// whatever the value holds.
pub proof fn law_tokens_after_quoted(value: Seq<char>, quote: char, rest: Seq<char>)
    requires
        quote == '\'' || quote == '"',
        rest.len() == 0 || rest[0] != quote,
    ensures
        !continues_word(rest) ==> tokens(quoting::quoted(value, quote) + rest) == seq![
            quoting::quoted(value, quote),
        ] + tokens(rest),
        continues_word(rest) ==> tokens(rest).len() > 0 && tokens(
            quoting::quoted(value, quote) + rest,
        ) == seq![quoting::quoted(value, quote) + tokens(rest)[0]] + tokens(rest).drop_first(),
{
    let q = quoting::quoted(value, quote);
    let s = q + rest;
    quoting::law_escaped_value_stays_inside(seq![quote], value, rest, quote);
    assert(seq![quote] + quoting::doubled(value, quote) + seq![quote] + rest =~= s);
    assert(s[0] == quote);
    lemma_tokens_after_piece(q, rest);
}

/// A quote that is never closed makes one token of all that follows.
pub proof fn law_tokens_of_unclosed_quote(value: Seq<char>, quote: char)
    requires
        quote == '\'' || quote == '"',
    ensures
        tokens(seq![quote] + quoting::doubled(value, quote)) == seq![seq![quote]
            + quoting::doubled(value, quote)],
{
    let s = seq![quote] + quoting::doubled(value, quote);
    quoting::law_section_unclosed(seq![quote], value, quote);
    assert(s[0] == quote);
    assert(word_end(s, s.len() as int) == s.len());
    assert(word_end(s, 0) == s.len());
    assert(s.subrange(0, s.len() as int) =~= s);
    assert(tokens_from(s, s.len() as int) =~= Seq::empty());
    assert(tokens(s) =~= seq![s]);
}

/// Queries put together with a blank between them have the tokens of both,
/// where the first has no quotes.
pub proof fn law_tokens_of_two(a: Seq<char>, c: char, b: Seq<char>)
    requires
        text::white_space(c),
        forall|k: int| 0 <= k < a.len() ==> !quote_mark(#[trigger] a[k]),
    ensures
        tokens(a + (seq![c] + b)) == tokens(a) + tokens(b),
    decreases a.len(),
{
    let tail = seq![c] + b;
    law_tokens_after_blank(c, b);
    if a.len() == 0 {
        assert(a + tail =~= tail);
        assert(tokens(a) + tokens(b) =~= tokens(b));
    } else {
        let d = a[0];
        let rest = a.drop_first();
        assert(!quote_mark(d));
        assert forall|k: int| 0 <= k < rest.len() implies !quote_mark(#[trigger] rest[k]) by {
            assert(!quote_mark(a[k + 1]));
        }
        law_tokens_of_two(rest, c, b);
        assert(a =~= seq![d] + rest);
        assert(a + tail =~= seq![d] + (rest + tail));
        if rest.len() > 0 {
            assert((rest + tail)[0] == rest[0]);
        }
        if text::white_space(d) {
            law_tokens_after_blank(d, rest);
            law_tokens_after_blank(d, rest + tail);
        } else if punctuation(d) {
            law_tokens_after_punctuation(d, rest);
            law_tokens_after_punctuation(d, rest + tail);
            assert(tokens(a + tail) =~= tokens(a) + tokens(b));
        } else {
            law_tokens_after_character(d, rest);
            law_tokens_after_character(d, rest + tail);
            assert(tokens(a + tail) =~= tokens(a) + tokens(b));
        }
    }
}

proof fn lemma_quote_closed_behind(s: Seq<char>, k: int, i: int, quote: char)
    requires
        0 <= k <= s.len(),
        0 <= i <= s.len() - k,
    ensures
        quoting::quote_closed(s, k + i, quote) == quoting::quote_closed(s.skip(k), i, quote),
    decreases s.len() - k - i,
{
    let t = s.skip(k);
    if i < t.len() {
        assert(t[i] == s[k + i]);
        if t[i] != quote {
            lemma_quote_closed_behind(s, k, i + 1, quote);
        } else if i + 1 < t.len() {
            assert(t[i + 1] == s[k + i + 1]);
            if t[i + 1] == quote {
                lemma_quote_closed_behind(s, k, i + 2, quote);
            }
        }
    }
}

proof fn lemma_quotes_closed_behind(s: Seq<char>, k: int, i: int)
    requires
        0 <= k <= s.len(),
        0 <= i <= s.len() - k,
    ensures
        quotes_closed_from(s, k + i) == quotes_closed_from(s.skip(k), i),
    decreases s.len() - k - i,
{
    let t = s.skip(k);
    if i < t.len() {
        assert(t[i] == s[k + i]);
        if quote_mark(t[i]) {
            lemma_quote_closed_behind(s, k, i + 1, t[i]);
            lemma_quote_end_behind(s, k, i + 1, t[i]);
            quoting::lemma_quote_end(t, i + 1, t[i]);
            lemma_quotes_closed_behind(s, k, quoting::quote_end(t, i + 1, t[i]));
        } else {
            lemma_quotes_closed_behind(s, k, i + 1);
        }
    }
}

/// The quotes of a text without quotes are closed, and a character that is no
/// quote changes nothing in that.
pub proof fn law_quotes_closed_after_character(c: char, rest: Seq<char>)
    requires
        c != '\'' && c != '"',
    ensures
        quotes_closed(Seq::empty()),
        quotes_closed(seq![c] + rest) <==> quotes_closed(rest),
{
    let s = seq![c] + rest;
    lemma_quotes_closed_behind(s, 1, 0);
    assert(s.skip(1) =~= rest);
}

/// A quoted value in front of a text changes nothing in whether its quotes are
/// closed, and a quote without an end is not closed.
pub proof fn law_quotes_closed_after_quoted(value: Seq<char>, quote: char, rest: Seq<char>)
    requires
        quote == '\'' || quote == '"',
        rest.len() == 0 || rest[0] != quote,
    ensures
        quotes_closed(quoting::quoted(value, quote) + rest) <==> quotes_closed(rest),
        !quotes_closed(seq![quote] + quoting::doubled(value, quote)),
{
    let q = quoting::quoted(value, quote);
    let s = q + rest;
    quoting::law_escaped_value_stays_inside(seq![quote], value, rest, quote);
    quoting::law_section_closed(seq![quote], value, rest, quote);
    assert(seq![quote] + quoting::doubled(value, quote) + seq![quote] + rest =~= s);
    assert(s[0] == quote);
    lemma_quotes_closed_behind(s, q.len() as int, 0);
    assert(s.skip(q.len() as int) =~= rest);
    quoting::law_section_unclosed(seq![quote], value, quote);
    assert((seq![quote] + quoting::doubled(value, quote))[0] == quote);
}

proof fn lemma_part_end_behind(s: Seq<char>, k: int, i: int)
    requires
        0 <= k <= s.len(),
        0 <= i <= s.len() - k,
    ensures
        part_end(s, k + i) == k + part_end(s.skip(k), i),
    decreases s.len() - k - i,
{
    let t = s.skip(k);
    if i < t.len() {
        assert(t[i] == s[k + i]);
        if t[i] == '"' {
            lemma_quote_end_behind(s, k, i + 1, '"');
            quoting::lemma_quote_end(t, i + 1, '"');
            lemma_part_end_behind(s, k, quoting::quote_end(t, i + 1, '"'));
        } else if t[i] != '.' {
            lemma_part_end_behind(s, k, i + 1);
        }
    }
}

proof fn lemma_ident_parts_behind(s: Seq<char>, k: int, i: int)
    requires
        0 <= k <= s.len(),
        0 <= i <= s.len() - k,
    ensures
        ident_parts_from(s, k + i) == ident_parts_from(s.skip(k), i),
    decreases s.len() - k - i,
{
    let t = s.skip(k);
    let end = part_end(t, i);
    lemma_part_end(t, i);
    lemma_part_end_behind(s, k, i);
    assert(t.subrange(i, end) =~= s.subrange(k + i, k + end));
    if end < t.len() {
        lemma_ident_parts_behind(s, k, end + 1);
    }
}

/// An empty identifier is one empty part, and a dot in front of an identifier
/// is an empty part in front of its parts.
pub proof fn law_ident_parts_after_dot(rest: Seq<char>)
    ensures
        ident_parts(Seq::empty()) == seq![Seq::<char>::empty()],
        ident_parts(seq!['.'] + rest) == seq![Seq::<char>::empty()] + ident_parts(rest),
{
    let s = seq!['.'] + rest;
    let none = Seq::<char>::empty();
    assert(none.subrange(0, 0) =~= none);
    assert(ident_parts(none) =~= seq![none]);
    assert(s[0] == '.');
    lemma_ident_parts_behind(s, 1, 0);
    assert(s.skip(1) =~= rest);
    assert(s.subrange(0, 0) =~= none);
}

proof fn lemma_ident_parts_after_piece(piece: Seq<char>, rest: Seq<char>)
    requires
        part_end(piece + rest, 0) == part_end(piece + rest, piece.len() as int),
    ensures
        ident_parts(rest).len() > 0,
        ident_parts(piece + rest) == seq![piece + ident_parts(rest)[0]] + ident_parts(
            rest,
        ).drop_first(),
{
    let s = piece + rest;
    let n = piece.len() as int;
    assert(s.skip(n) =~= rest);
    lemma_part_end_behind(s, n, 0);
    lemma_part_end(rest, 0);
    let end = part_end(rest, 0);
    assert(s.subrange(0, n + end) =~= piece + rest.subrange(0, end));
    if end < rest.len() {
        lemma_ident_parts_behind(s, n, end + 1);
        assert(ident_parts(rest).drop_first() =~= ident_parts_from(rest, end + 1));
    } else {
        assert(ident_parts(rest).drop_first() =~= Seq::empty());
        assert(ident_parts(s) =~= seq![piece + ident_parts(rest)[0]] + ident_parts(
            rest,
        ).drop_first());
    }
}

/// Any other character, or a double-quoted section, in front of an identifier
/// belongs to its first part.
pub proof fn law_ident_parts_after_character(c: char, rest: Seq<char>)
    requires
        c != '.' && c != '"',
    ensures
        ident_parts(rest).len() > 0,
        ident_parts(seq![c] + rest) == seq![seq![c] + ident_parts(rest)[0]] + ident_parts(
            rest,
        ).drop_first(),
{
    assert((seq![c] + rest)[0] == c);
    lemma_ident_parts_after_piece(seq![c], rest);
}

/// A double-quoted section in front of an identifier belongs to its first part,
/// whatever it holds; one that is never closed is all there is.
pub proof fn law_ident_parts_after_quoted(value: Seq<char>, rest: Seq<char>)
    requires
        rest.len() == 0 || rest[0] != '"',
    ensures
        ident_parts(rest).len() > 0,
        ident_parts(quoting::quoted(value, '"') + rest) == seq![quoting::quoted(value, '"')
            + ident_parts(rest)[0]] + ident_parts(rest).drop_first(),
        ident_parts(seq!['"'] + quoting::doubled(value, '"')) == seq![seq!['"']
            + quoting::doubled(value, '"')],
{
    let q = quoting::quoted(value, '"');
    let s = q + rest;
    quoting::law_escaped_value_stays_inside(seq!['"'], value, rest, '"');
    assert(seq!['"'] + quoting::doubled(value, '"') + seq!['"'] + rest =~= s);
    assert(s[0] == '"');
    lemma_ident_parts_after_piece(q, rest);
    let u = seq!['"'] + quoting::doubled(value, '"');
    quoting::law_section_unclosed(seq!['"'], value, '"');
    assert(u[0] == '"');
    assert(part_end(u, u.len() as int) == u.len());
    assert(part_end(u, 0) == u.len());
    assert(u.subrange(0, u.len() as int) =~= u);
}

/// A qualifier without dots and double quotes is the first part of what it
/// qualifies.
pub proof fn law_qualifier_is_first_part(qualifier: Seq<char>, rest: Seq<char>)
    requires
        !qualifier.contains('.'),
        !qualifier.contains('"'),
    ensures
        ident_parts(qualifier + (seq!['.'] + rest)) == seq![qualifier] + ident_parts(rest),
    decreases qualifier.len(),
{
    let tail = seq!['.'] + rest;
    law_ident_parts_after_dot(rest);
    if qualifier.len() == 0 {
        assert(qualifier + tail =~= tail);
        assert(qualifier =~= Seq::<char>::empty());
    } else {
        let c = qualifier[0];
        let more = qualifier.drop_first();
        assert(qualifier.contains(c));
        assert forall|k: int| 0 <= k < more.len() implies more[k] != '.' && more[k] != '"' by {
            assert(qualifier.contains(qualifier[k + 1]));
        }
        law_qualifier_is_first_part(more, rest);
        assert(qualifier + tail =~= seq![c] + (more + tail));
        law_ident_parts_after_character(c, more + tail);
        assert((seq![more] + ident_parts(rest)).drop_first() =~= ident_parts(rest));
        assert(seq![c] + more =~= qualifier);
    }
}

/// White space around a part is not part of the name.
pub proof fn law_unquoted_blanks_around(before: Seq<char>, s: Seq<char>, after: Seq<char>)
    requires
        forall|k: int| 0 <= k < before.len() ==> text::white_space(#[trigger] before[k]),
        forall|k: int| 0 <= k < after.len() ==> text::white_space(#[trigger] after[k]),
        s.len() > 0,
        !text::white_space(s.first()),
        !text::white_space(s.last()),
    ensures
        text::trimmed(before + s + after, CharClass::WhiteSpace) == s,
        unquoted(before + s + after) == unquoted(s),
{
    assert forall|k: int| 0 <= k < before.len() implies CharClass::WhiteSpace.has(
        #[trigger] before[k],
    ) by {
        assert(text::white_space(before[k]));
    }
    assert forall|k: int| 0 <= k < after.len() implies CharClass::WhiteSpace.has(
        #[trigger] after[k],
    ) by {
        assert(text::white_space(after[k]));
    }
    assert(before + s + after =~= before + (s + after));
    assert((s + after).first() == s.first());
    text::law_trimmed_start_of(before, s + after, CharClass::WhiteSpace);
    text::law_trimmed_end_of(s, after, CharClass::WhiteSpace);
    let none = Seq::<char>::empty();
    text::law_trimmed_start_of(none, s, CharClass::WhiteSpace);
    text::law_trimmed_end_of(s, none, CharClass::WhiteSpace);
    assert(none + s =~= s);
    assert(s + none =~= s);
}

/// A part in double quotes names its text with each pair of quotes read as one,
/// also where a quote in it is not one of a pair.
pub proof fn law_unquoted_of_double_quoted(inner: Seq<char>)
    ensures
        unquoted(seq!['"'] + inner + seq!['"']) == quoting::undoubled(inner, '"'),
{
    let s = seq!['"'] + inner + seq!['"'];
    let none = Seq::<char>::empty();
    let quote = '"';
    text::law_white_space_code_points(quote);
    assert(s.first() == '"' && s.last() == '"');
    assert(none + s + none =~= s);
    law_unquoted_blanks_around(none, s, none);
    assert(s.subrange(1, s.len() - 1) =~= inner);
}

/// A part that is not double-quoted names what is left of it without the single
/// quotes at its ends: itself, where there are none.
pub proof fn law_unquoted_of_plain(before: Seq<char>, name: Seq<char>, after: Seq<char>)
    requires
        forall|k: int| 0 <= k < before.len() ==> #[trigger] before[k] == '\'',
        forall|k: int| 0 <= k < after.len() ==> #[trigger] after[k] == '\'',
        name.len() > 0 ==> {
            &&& name.first() != '\''
            &&& name.last() != '\''
            &&& before.len() > 0 || !text::white_space(name.first())
            &&& after.len() > 0 || !text::white_space(name.last())
        },
        !(before.len() == 0 && after.len() == 0 && name.len() >= 2 && name.first() == '"'
            && name.last() == '"'),
    ensures
        unquoted(before + name + after) == name,
{
    let s = before + name + after;
    let none = Seq::<char>::empty();
    let quote = '\'';
    text::law_white_space_code_points(quote);
    if s.len() == 0 {
        assert(s =~= none && name =~= none);
        text::law_trimmed_start_of(none, none, CharClass::WhiteSpace);
        text::law_trimmed_end_of(none, none, CharClass::WhiteSpace);
        text::law_trimmed_start_of(none, none, CharClass::Is('\''));
        text::law_trimmed_end_of(none, none, CharClass::Is('\''));
        assert(none + none =~= none);
    } else {
        assert(s.first() == if before.len() > 0 {
            before[0]
        } else if name.len() > 0 {
            name[0]
        } else {
            after[0]
        });
        assert(s.last() == if after.len() > 0 {
            after[after.len() - 1]
        } else if name.len() > 0 {
            name[name.len() - 1]
        } else {
            before[before.len() - 1]
        });
        assert(none + s + none =~= s);
        law_unquoted_blanks_around(none, s, none);
        if name.len() == 0 {
            assert forall|k: int| 0 <= k < s.len() implies CharClass::Is('\'').has(
                #[trigger] s[k],
            ) by {
                if k < before.len() {
                    assert(s[k] == before[k]);
                } else {
                    assert(s[k] == after[k - before.len()]);
                }
            }
            text::law_trimmed_start_of(s, none, CharClass::Is('\''));
            text::law_trimmed_end_of(none, none, CharClass::Is('\''));
            assert(s + none =~= s);
            assert(none + none =~= none);
            assert(name =~= none);
        } else {
            assert(s =~= before + (name + after));
            assert((name + after).first() == name.first());
            text::law_trimmed_start_of(before, name + after, CharClass::Is('\''));
            text::law_trimmed_end_of(name, after, CharClass::Is('\''));
        }
    }
}

/// A part of white space alone names nothing.
pub proof fn law_unquoted_of_blanks(blanks: Seq<char>)
    requires
        forall|k: int| 0 <= k < blanks.len() ==> text::white_space(#[trigger] blanks[k]),
    ensures
        unquoted(blanks).len() == 0,
{
    let none = Seq::<char>::empty();
    assert forall|k: int| 0 <= k < blanks.len() implies CharClass::WhiteSpace.has(
        #[trigger] blanks[k],
    ) by {
        assert(text::white_space(blanks[k]));
    }
    text::law_trimmed_start_of(blanks, none, CharClass::WhiteSpace);
    text::law_trimmed_end_of(none, none, CharClass::WhiteSpace);
    text::law_trimmed_start_of(none, none, CharClass::Is('\''));
    text::law_trimmed_end_of(none, none, CharClass::Is('\''));
    assert(blanks + none =~= blanks);
    assert(none + none =~= none);
}

} // verus!
