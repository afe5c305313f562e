//! Quoted SQL text, in which a quote character stands for itself when it is
//! written twice.

use vstd::prelude::*;

use crate::text::{chars_of, string_of};

verus! {

// ---------------------------------------------------------------------------
// Writing a quote twice, and once again
// ---------------------------------------------------------------------------

/// `s` with every `quote` in it written twice.
pub open spec fn doubled(s: Seq<char>, quote: char) -> Seq<char>
    decreases s.len(),
{
    if s.len() == 0 {
        s
    } else if s.first() == quote {
        seq![quote, quote] + doubled(s.drop_first(), quote)
    } else {
        seq![s.first()] + doubled(s.drop_first(), quote)
    }
}

/// `s` with every pair of adjacent `quote`s, taken from the left, written as
/// one.
pub open spec fn undoubled(s: Seq<char>, quote: char) -> Seq<char>
    decreases s.len(),
{
    if s.len() == 0 {
        s
    } else if s.len() >= 2 && s[0] == quote && s[1] == quote {
        seq![quote] + undoubled(s.skip(2), quote)
    } else {
        seq![s.first()] + undoubled(s.drop_first(), quote)
    }
}

/// `s` between two `quote`s, with every `quote` in it written twice.
pub open spec fn quoted(s: Seq<char>, quote: char) -> Seq<char> {
    seq![quote] + doubled(s, quote) + seq![quote]
}

/// Escape a value for use inside a SQL string literal (single-quoted context),
/// such as the `'$1'` of a meta query. Every single quote is written twice.
pub fn escape_sql_string_literal(s: &str) -> (r: String)
    ensures
        r@ == doubled(s@, '\''),
{
    let cs = chars_of(s);
    let mut out: Vec<char> = Vec::new();
    let mut i: usize = 0;
    assert(cs@.skip(0) =~= cs@);
    while i < cs.len()
        invariant
            i <= cs@.len(),
            out@ + doubled(cs@.skip(i as int), '\'') == doubled(cs@, '\''),
        decreases cs.len() - i,
    {
        let ghost before = out@;
        let ghost rest = doubled(cs@.skip(i + 1), '\'');
        assert(cs@.skip(i as int).drop_first() =~= cs@.skip(i + 1));
        let c = cs[i];
        if c == '\'' {
            out.push(c);
        }
        out.push(c);
        proof {
            if c == '\'' {
                assert(out@ + rest =~= before + (seq!['\'', '\''] + rest));
            } else {
                assert(out@ + rest =~= before + (seq![c] + rest));
            }
        }
        i += 1;
    }
    assert(cs@.skip(i as int) =~= Seq::<char>::empty());
    assert(out@ + doubled(cs@.skip(i as int), '\'') =~= out@);
    string_of(out.as_slice())
}

/// Writes every pair of adjacent quotes as one.
pub fn undouble(s: &[char], quote: char) -> (r: Vec<char>)
    ensures
        r@ == undoubled(s@, quote),
{
    let mut out: Vec<char> = Vec::new();
    let mut i: usize = 0;
    assert(s@.skip(0) =~= s@);
    while i < s.len()
        invariant
            i <= s@.len(),
            out@ + undoubled(s@.skip(i as int), quote) == undoubled(s@, quote),
        decreases s.len() - i,
    {
        let ghost before = out@;
        let ghost here = s@.skip(i as int);
        let c = s[i];
        out.push(c);
        if s.len() - i >= 2 && c == quote && s[i + 1] == quote {
            assert(here.skip(2) =~= s@.skip(i + 2));
            i += 2;
        } else {
            assert(here.drop_first() =~= s@.skip(i + 1));
            i += 1;
        }
        let ghost rest = undoubled(s@.skip(i as int), quote);
        assert(out@ + rest =~= before + (seq![c] + rest));
    }
    assert(s@.skip(i as int) =~= Seq::<char>::empty());
    assert(out@ + undoubled(s@.skip(i as int), quote) =~= out@);
    out
}

/// Reading pairs of quotes as one gives back what doubling them wrote.
pub proof fn law_undoubled_doubled(s: Seq<char>, quote: char)
    ensures
        undoubled(doubled(s, quote), quote) == s,
    decreases s.len(),
{
    if s.len() > 0 {
        let rest = s.drop_first();
        let d = doubled(s, quote);
        law_undoubled_doubled(rest, quote);
        if s.first() == quote {
            assert(d.skip(2) =~= doubled(rest, quote));
        } else {
            assert(d.drop_first() =~= doubled(rest, quote));
        }
        assert(seq![s.first()] + rest =~= s);
    }
}

/// Two different values are never escaped to the same text.
pub proof fn law_doubled_injective(a: Seq<char>, b: Seq<char>, quote: char)
    requires
        doubled(a, quote) == doubled(b, quote),
    ensures
        a == b,
{
    law_undoubled_doubled(a, quote);
    law_undoubled_doubled(b, quote);
}

// ---------------------------------------------------------------------------
// The end of a quoted section
// ---------------------------------------------------------------------------

/// The position after the quoted section of `s` whose text starts at `i`: that
/// after the first `quote` which is not one of a pair, or the end of `s` where
/// there is none.
pub open spec fn quote_end(s: Seq<char>, i: int, quote: char) -> int
    decreases s.len() - i,
{
    if i < 0 || i >= s.len() {
        s.len() as int
    } else if s[i] != quote {
        quote_end(s, i + 1, quote)
    } else if i + 1 < s.len() && s[i + 1] == quote {
        quote_end(s, i + 2, quote)
    } else {
        i + 1
    }
}

/// A quoted section ends behind where its text starts, within the string.
pub proof fn lemma_quote_end(s: Seq<char>, i: int, quote: char)
    requires
        0 <= i <= s.len(),
    ensures
        i <= quote_end(s, i, quote) <= s.len(),
        i < s.len() ==> i < quote_end(s, i, quote),
    decreases s.len() - i,
{
    if i < s.len() {
        if s[i] != quote {
            lemma_quote_end(s, i + 1, quote);
        } else if i + 1 < s.len() && s[i + 1] == quote {
            lemma_quote_end(s, i + 2, quote);
        }
    }
}

/// Finds the position after the quoted section whose text starts at `start`.
pub fn skip_quoted(s: &[char], start: usize, quote: char) -> (r: usize)
    requires
        start <= s@.len(),
    ensures
        r == quote_end(s@, start as int, quote),
        start <= r <= s@.len(),
{
    let mut i: usize = start;
    proof {
        lemma_quote_end(s@, start as int, quote);
    }
    while i < s.len()
        invariant
            start <= i <= s@.len(),
            quote_end(s@, i as int, quote) == quote_end(s@, start as int, quote),
        decreases s.len() - i,
    {
        if s[i] != quote {
            i += 1;
        } else if s.len() - i >= 2 && s[i + 1] == quote {
            i += 2;
        } else {
            return i + 1;
        }
    }
    i
}

/// The quoted section of `s` whose text starts at `i` ends with a quote, not
/// with the end of `s`.
pub open spec fn quote_closed(s: Seq<char>, i: int, quote: char) -> bool
    decreases s.len() - i,
{
    if i < 0 || i >= s.len() {
        false
    } else if s[i] != quote {
        quote_closed(s, i + 1, quote)
    } else if i + 1 < s.len() && s[i + 1] == quote {
        quote_closed(s, i + 2, quote)
    } else {
        true
    }
}

/// Tells whether the quoted section whose text starts at `start` ends with a
/// quote.
pub fn is_quote_closed(s: &[char], start: usize, quote: char) -> (r: bool)
    requires
        start <= s@.len(),
    ensures
        r == quote_closed(s@, start as int, quote),
{
    let mut i: usize = start;
    while i < s.len()
        invariant
            start <= i <= s@.len(),
            quote_closed(s@, i as int, quote) == quote_closed(s@, start as int, quote),
        decreases s.len() - i,
    {
        if s[i] != quote {
            i += 1;
        } else if s.len() - i >= 2 && s[i + 1] == quote {
            i += 2;
        } else {
            return true;
        }
    }
    false
}

/// An escaped value cannot end the literal that it stands in: the literal ends
/// with the quote that follows the value, as long as that quote is not the
/// first of a pair.
pub proof fn law_escaped_value_stays_inside(
    before: Seq<char>,
    value: Seq<char>,
    after: Seq<char>,
    quote: char,
)
    requires
        after.len() == 0 || after.first() != quote,
    ensures
        quote_end(
            before + doubled(value, quote) + seq![quote] + after,
            before.len() as int,
            quote,
        ) == before.len() + doubled(value, quote).len() + 1,
    decreases value.len(),
{
    let text = before + doubled(value, quote) + seq![quote] + after;
    if value.len() > 0 {
        let rest = value.drop_first();
        let head = if value.first() == quote {
            seq![quote, quote]
        } else {
            seq![value.first()]
        };
        law_escaped_value_stays_inside(before + head, rest, after, quote);
        assert(before + head + doubled(rest, quote) + seq![quote] + after =~= text);
        assert(text[before.len() as int] == head[0]);
        if value.first() == quote {
            assert(text[before.len() as int + 1] == quote);
        }
    } else {
        assert(text[before.len() as int] == quote);
        if after.len() > 0 {
            assert(text[before.len() as int + 1] == after[0]);
        }
    }
}

// ---------------------------------------------------------------------------
// Laws of doubled quotes
// ---------------------------------------------------------------------------

/// A value without the quote is written as it is.
pub proof fn law_value_without_quote_unchanged(s: Seq<char>, quote: char)
    requires
        !s.contains(quote),
    ensures
        doubled(s, quote) == s,
        undoubled(s, quote) == s,
    decreases s.len(),
{
    if s.len() > 0 {
        assert(s.contains(s[0]));
        assert forall|k: int| 0 <= k < s.len() - 1 implies s.drop_first()[k] != quote by {
            assert(s.contains(s[k + 1]));
        }
        law_value_without_quote_unchanged(s.drop_first(), quote);
        assert(seq![s[0]] + s.drop_first() =~= s);
    }
}

/// Values put together are escaped one by one.
pub proof fn law_doubled_concat(a: Seq<char>, b: Seq<char>, quote: char)
    ensures
        doubled(a + b, quote) == doubled(a, quote) + doubled(b, quote),
    decreases a.len(),
{
    if a.len() == 0 {
        assert(a + b =~= b);
        assert(doubled(a, quote) + doubled(b, quote) =~= doubled(b, quote));
    } else {
        law_doubled_concat(a.drop_first(), b, quote);
        assert((a + b).drop_first() =~= a.drop_first() + b);
        assert(doubled(a + b, quote) =~= doubled(a, quote) + doubled(b, quote));
    }
}

/// A quote in a value is written twice, with what stands around it escaped on
/// its own.
pub proof fn law_doubled_at_quote(a: Seq<char>, b: Seq<char>, quote: char)
    ensures
        doubled(a + seq![quote] + b, quote) == doubled(a, quote) + seq![quote, quote] + doubled(
            b,
            quote,
        ),
{
    law_doubled_concat(a + seq![quote], b, quote);
    law_doubled_concat(a, seq![quote], quote);
    reveal_with_fuel(doubled, 2);
    assert(doubled(seq![quote], quote) =~= seq![quote, quote]);
}

proof fn lemma_undoubled_plain_head(a: Seq<char>, b: Seq<char>, quote: char)
    requires
        !a.contains(quote),
    ensures
        undoubled(a + b, quote) == a + undoubled(b, quote),
    decreases a.len(),
{
    if a.len() == 0 {
        assert(a + b =~= b);
        assert(a + undoubled(b, quote) =~= undoubled(b, quote));
    } else {
        assert(a.contains(a[0]));
        assert forall|k: int| 0 <= k < a.len() - 1 implies a.drop_first()[k] != quote by {
            assert(a.contains(a[k + 1]));
        }
        lemma_undoubled_plain_head(a.drop_first(), b, quote);
        assert((a + b).drop_first() =~= a.drop_first() + b);
        assert((a + b)[0] == a[0]);
        assert(undoubled(a + b, quote) =~= a + undoubled(b, quote));
    }
}

/// A pair of quotes is read as one quote, and a quote that is not one of a pair
/// as itself.
pub proof fn law_undoubled_at_quote(a: Seq<char>, b: Seq<char>, quote: char)
    requires
        !a.contains(quote),
    ensures
        undoubled(a + (seq![quote, quote] + b), quote) == a + (seq![quote] + undoubled(b, quote)),
        b.len() == 0 || b[0] != quote ==> undoubled(a + (seq![quote] + b), quote) == a + (
        seq![quote] + undoubled(b, quote)),
{
    lemma_undoubled_plain_head(a, seq![quote, quote] + b, quote);
    lemma_undoubled_plain_head(a, seq![quote] + b, quote);
    assert((seq![quote, quote] + b).skip(2) =~= b);
    assert((seq![quote] + b).drop_first() =~= b);
    if b.len() > 0 {
        assert((seq![quote] + b)[1] == b[0]);
    }
}

/// A quoted value stands between two quotes.
pub proof fn law_quoted_between_quotes(s: Seq<char>, quote: char)
    ensures
        quoted(s, quote) == seq![quote] + doubled(s, quote) + seq![quote],
{
}

/// A section whose text is an escaped value and ends with a quote is closed.
pub proof fn law_section_closed(
    before: Seq<char>,
    value: Seq<char>,
    after: Seq<char>,
    quote: char,
)
    requires
        after.len() == 0 || after.first() != quote,
    ensures
        quote_closed(
            before + doubled(value, quote) + seq![quote] + after,
            before.len() as int,
            quote,
        ),
    decreases value.len(),
{
    let text = before + doubled(value, quote) + seq![quote] + after;
    if value.len() > 0 {
        let rest = value.drop_first();
        let head = if value.first() == quote {
            seq![quote, quote]
        } else {
            seq![value.first()]
        };
        law_section_closed(before + head, rest, after, quote);
        assert(before + head + doubled(rest, quote) + seq![quote] + after =~= text);
        assert(text[before.len() as int] == head[0]);
        if value.first() == quote {
            assert(text[before.len() as int + 1] == quote);
        }
    } else {
        assert(text[before.len() as int] == quote);
        if after.len() > 0 {
            assert(text[before.len() as int + 1] == after[0]);
        }
    }
}

/// A section whose text is an escaped value with nothing behind it runs to the
/// end, and is not closed.
pub proof fn law_section_unclosed(before: Seq<char>, value: Seq<char>, quote: char)
    ensures
        quote_end(before + doubled(value, quote), before.len() as int, quote) == before.len()
            + doubled(value, quote).len(),
        !quote_closed(before + doubled(value, quote), before.len() as int, quote),
    decreases value.len(),
{
    let text = before + doubled(value, quote);
    if value.len() > 0 {
        let rest = value.drop_first();
        let head = if value.first() == quote {
            seq![quote, quote]
        } else {
            seq![value.first()]
        };
        law_section_unclosed(before + head, rest, quote);
        assert(before + head + doubled(rest, quote) =~= text);
        assert(text[before.len() as int] == head[0]);
        if value.first() == quote {
            assert(text[before.len() as int + 1] == quote);
        }
    }
}

} // verus!
