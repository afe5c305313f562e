//! Strings as sequences of characters: classes of characters, comparison,
//! trimming and splitting.
//!
//! A string is modelled by its view, a `Seq<char>`. The executable functions
//! work on slices of characters, which `chars_of` and `string_of` convert from
//! and to strings.

use vstd::prelude::*;
use vstd::slice::{slice_subrange, slice_to_vec};

verus! {

/// `String::push` appends one character to the end of the string.
pub assume_specification[ String::push ](s: &mut String, c: char)
    ensures
        final(s)@ == old(s)@.push(c),
;

// ---------------------------------------------------------------------------
// Characters
// ---------------------------------------------------------------------------

/// The characters with the Unicode property `White_Space`.
pub open spec fn white_space(c: char) -> bool {
    ||| '\u{9}' <= c <= '\u{d}'
    ||| c == ' '
    ||| c == '\u{85}'
    ||| c == '\u{a0}'
    ||| c == '\u{1680}'
    ||| '\u{2000}' <= c <= '\u{200a}'
    ||| c == '\u{2028}'
    ||| c == '\u{2029}'
    ||| c == '\u{202f}'
    ||| c == '\u{205f}'
    ||| c == '\u{3000}'
}

/// Tells whether a character has the Unicode property `White_Space`.
pub fn is_white_space(c: char) -> (r: bool)
    ensures
        r == white_space(c),
{
    ('\u{9}' <= c && c <= '\u{d}') || c == ' ' || c == '\u{85}' || c == '\u{a0}' || c == '\u{1680}'
        || ('\u{2000}' <= c && c <= '\u{200a}') || c == '\u{2028}' || c == '\u{2029}' || c
        == '\u{202f}' || c == '\u{205f}' || c == '\u{3000}'
}

/// The lower-case form of an ASCII letter; every other character is its own.
pub open spec fn ascii_lower(c: char) -> char {
    if 'A' <= c <= 'Z' {
        (c as u32 + 32) as char
    } else {
        c
    }
}

/// Maps an ASCII letter to lower case and leaves every other character alone.
pub fn to_ascii_lower(c: char) -> (r: char)
    ensures
        r == ascii_lower(c),
{
    if 'A' <= c && c <= 'Z' {
        (c as u8 + 32) as char
    } else {
        c
    }
}

/// What a trimming function strips: white space, or one given character.
#[derive(Clone, Copy)]
pub enum CharClass {
    WhiteSpace,
    Is(char),
}

impl CharClass {
    /// The members of the class.
    pub open spec fn has(self, c: char) -> bool {
        match self {
            CharClass::WhiteSpace => white_space(c),
            CharClass::Is(x) => c == x,
        }
    }

    /// Tells whether a character is a member of the class.
    pub fn contains(self, c: char) -> (r: bool)
        ensures
            r == self.has(c),
    {
        match self {
            CharClass::WhiteSpace => is_white_space(c),
            CharClass::Is(x) => c == x,
        }
    }
}

// ---------------------------------------------------------------------------
// Conversion
// ---------------------------------------------------------------------------

/// The characters of a string.
pub fn chars_of(s: &str) -> (r: Vec<char>)
    ensures
        r@ == s@,
{
    let mut out: Vec<char> = Vec::new();
    for c in it: s.chars()
        invariant
            it.seq() == s@,
            out@ == s@.take(it.index() as int),
    {
        out.push(c);
    }
    out
}

/// The string made of the given characters.
pub fn string_of(cs: &[char]) -> (r: String)
    ensures
        r@ == cs@,
{
    let mut out = String::new();
    let mut i: usize = 0;
    while i < cs.len()
        invariant
            i <= cs@.len(),
            out@ == cs@.take(i as int),
        decreases cs.len() - i,
    {
        out.push(cs[i]);
        i += 1;
    }
    out
}

// ---------------------------------------------------------------------------
// Comparison
// ---------------------------------------------------------------------------

/// Equality of two strings up to the case of their ASCII letters.
pub open spec fn same_ignoring_case(a: Seq<char>, b: Seq<char>) -> bool {
    &&& a.len() == b.len()
    &&& forall|i: int| 0 <= i < a.len() ==> ascii_lower(#[trigger] a[i]) == ascii_lower(b[i])
}

/// Compares two strings, taking upper and lower case ASCII letters as equal.
pub fn eq_ignore_ascii_case(a: &str, b: &str) -> (r: bool)
    ensures
        r == same_ignoring_case(a@, b@),
{
    let left = chars_of(a);
    let right = chars_of(b);
    if left.len() != right.len() {
        return false;
    }
    let mut i: usize = 0;
    while i < left.len()
        invariant
            left@ == a@,
            right@ == b@,
            left@.len() == right@.len(),
            i <= left@.len(),
            forall|k: int| 0 <= k < i ==> ascii_lower(#[trigger] a@[k]) == ascii_lower(b@[k]),
        decreases left.len() - i,
    {
        if to_ascii_lower(left[i]) != to_ascii_lower(right[i]) {
            assert(ascii_lower(a@[i as int]) != ascii_lower(b@[i as int]));
            return false;
        }
        i += 1;
    }
    true
}

/// Tells whether two strings hold the same characters.
pub fn same_chars(a: &[char], b: &[char]) -> (r: bool)
    ensures
        r == (a@ == b@),
{
    if a.len() != b.len() {
        return false;
    }
    let mut i: usize = 0;
    while i < a.len()
        invariant
            i <= a@.len(),
            a@.len() == b@.len(),
            forall|k: int| 0 <= k < i ==> a@[k] == b@[k],
        decreases a.len() - i,
    {
        if a[i] != b[i] {
            return false;
        }
        i += 1;
    }
    assert(a@ =~= b@);
    true
}

/// What follows a prefix, in a string that begins with it.
pub open spec fn after_prefix(s: Seq<char>, prefix: Seq<char>) -> Option<Seq<char>> {
    if prefix.is_prefix_of(s) {
        Some(s.skip(prefix.len() as int))
    } else {
        None
    }
}

/// Takes a prefix off a string that begins with it.
pub fn strip_prefix<'a>(s: &'a [char], prefix: &str) -> (r: Option<&'a [char]>)
    ensures
        match r {
            Some(rest) => after_prefix(s@, prefix@) == Some(rest@),
            None => after_prefix(s@, prefix@) is None,
        },
{
    let prefix = chars_of(prefix);
    let n: usize = prefix.len();
    if s.len() >= n && same_chars(slice_subrange(s, 0, n), prefix.as_slice()) {
        assert(s@.skip(n as int) =~= s@.subrange(n as int, s@.len() as int));
        Some(slice_subrange(s, n, s.len()))
    } else {
        None
    }
}

/// The position of the first occurrence of a character.
pub fn find_char(s: &[char], c: char) -> (r: Option<usize>)
    ensures
        match r {
            Some(i) => i < s@.len() && s@[i as int] == c && !s@.take(i as int).contains(c),
            None => !s@.contains(c),
        },
{
    let mut i: usize = 0;
    while i < s.len()
        invariant
            i <= s@.len(),
            forall|k: int| 0 <= k < i ==> s@[k] != c,
        decreases s.len() - i,
    {
        if s[i] == c {
            return Some(i);
        }
        i += 1;
    }
    None
}

// ---------------------------------------------------------------------------
// Trimming
// ---------------------------------------------------------------------------

/// `s` without the longest prefix of members of `class`.
pub open spec fn trimmed_start(s: Seq<char>, class: CharClass) -> Seq<char>
    decreases s.len(),
{
    if s.len() > 0 && class.has(s.first()) {
        trimmed_start(s.drop_first(), class)
    } else {
        s
    }
}

/// `s` without the longest suffix of members of `class`.
pub open spec fn trimmed_end(s: Seq<char>, class: CharClass) -> Seq<char>
    decreases s.len(),
{
    if s.len() > 0 && class.has(s.last()) {
        trimmed_end(s.drop_last(), class)
    } else {
        s
    }
}

/// `s` without the members of `class` at its two ends.
pub open spec fn trimmed(s: Seq<char>, class: CharClass) -> Seq<char> {
    trimmed_end(trimmed_start(s, class), class)
}

/// What trimming takes off the start is a run of members, and what it leaves
/// does not begin with one.
pub proof fn lemma_trimmed_start(s: Seq<char>, class: CharClass)
    ensures
        trimmed_start(s, class).len() <= s.len(),
        trimmed_start(s, class) == s.skip(s.len() - trimmed_start(s, class).len()),
        forall|i: int|
            0 <= i < s.len() - trimmed_start(s, class).len() ==> class.has(#[trigger] s[i]),
        trimmed_start(s, class).len() > 0 ==> !class.has(trimmed_start(s, class).first()),
    decreases s.len(),
{
    if s.len() > 0 && class.has(s.first()) {
        let rest = s.drop_first();
        let t = trimmed_start(rest, class);
        lemma_trimmed_start(rest, class);
        assert(rest.skip(rest.len() - t.len()) =~= s.skip(s.len() - t.len()));
        assert forall|i: int| 0 <= i < s.len() - t.len() implies class.has(#[trigger] s[i]) by {
            if i > 0 {
                assert(class.has(rest[i - 1]));
            }
        }
    } else {
        assert(s.skip(0) =~= s);
    }
}

/// What trimming takes off the end is a run of members, and what it leaves does
/// not end with one.
pub proof fn lemma_trimmed_end(s: Seq<char>, class: CharClass)
    ensures
        trimmed_end(s, class).len() <= s.len(),
        trimmed_end(s, class) == s.take(trimmed_end(s, class).len() as int),
        forall|i: int| trimmed_end(s, class).len() <= i < s.len() ==> class.has(#[trigger] s[i]),
        trimmed_end(s, class).len() > 0 ==> !class.has(trimmed_end(s, class).last()),
    decreases s.len(),
{
    if s.len() > 0 && class.has(s.last()) {
        let rest = s.drop_last();
        let t = trimmed_end(rest, class);
        lemma_trimmed_end(rest, class);
        assert(rest.take(t.len() as int) =~= s.take(t.len() as int));
        assert forall|i: int| t.len() <= i < s.len() implies class.has(#[trigger] s[i]) by {
            if i < s.len() - 1 {
                assert(class.has(rest[i]));
            }
        }
    } else {
        assert(s.take(s.len() as int) =~= s);
    }
}

/// Strips the members of a class from the start.
pub fn trim_start(s: &[char], class: CharClass) -> (r: &[char])
    ensures
        r@ == trimmed_start(s@, class),
{
    let mut i: usize = 0;
    assert(s@.skip(0) =~= s@);
    while i < s.len() && class.contains(s[i])
        invariant
            i <= s@.len(),
            trimmed_start(s@.skip(i as int), class) == trimmed_start(s@, class),
        decreases s.len() - i,
    {
        assert(s@.skip(i as int).drop_first() =~= s@.skip(i + 1));
        i += 1;
    }
    assert(s@.skip(i as int) =~= s@.subrange(i as int, s@.len() as int));
    slice_subrange(s, i, s.len())
}

/// Strips the members of a class from the end.
pub fn trim_end(s: &[char], class: CharClass) -> (r: &[char])
    ensures
        r@ == trimmed_end(s@, class),
{
    let mut n: usize = s.len();
    assert(s@.take(n as int) =~= s@);
    while n > 0 && class.contains(s[n - 1])
        invariant
            n <= s@.len(),
            trimmed_end(s@.take(n as int), class) == trimmed_end(s@, class),
        decreases n,
    {
        assert(s@.take(n as int).drop_last() =~= s@.take(n - 1));
        n -= 1;
    }
    assert(s@.take(n as int) =~= s@.subrange(0, n as int));
    slice_subrange(s, 0, n)
}

/// Strips the members of a class from both ends.
pub fn trim(s: &[char], class: CharClass) -> (r: &[char])
    ensures
        r@ == trimmed(s@, class),
{
    trim_end(trim_start(s, class), class)
}

// ---------------------------------------------------------------------------
// Splitting
// ---------------------------------------------------------------------------

/// The two sides of the first occurrence of a character, if there is one.
pub open spec fn split_at_first(s: Seq<char>, c: char) -> Option<(Seq<char>, Seq<char>)>
    decreases s.len(),
{
    if s.len() == 0 {
        None
    } else if s.first() == c {
        Some((Seq::empty(), s.drop_first()))
    } else {
        match split_at_first(s.drop_first(), c) {
            Some((before, after)) => Some((seq![s.first()] + before, after)),
            None => None,
        }
    }
}

/// `split_at_first` finds the first occurrence of the character, and nothing
/// when there is none.
pub proof fn lemma_split_at_first(s: Seq<char>, c: char)
    ensures
        match split_at_first(s, c) {
            Some((before, after)) => s == before + seq![c] + after && !before.contains(c),
            None => !s.contains(c),
        },
    decreases s.len(),
{
    if s.len() > 0 && s.first() != c {
        lemma_split_at_first(s.drop_first(), c);
        assert(s =~= seq![s.first()] + s.drop_first());
        match split_at_first(s.drop_first(), c) {
            Some((before, after)) => {
                assert(s =~= (seq![s.first()] + before) + seq![c] + after);
                if (seq![s.first()] + before).contains(c) {
                    let k = choose|k: int|
                        0 <= k < before.len() + 1 && (seq![s.first()] + before)[k] == c;
                    assert(before[k - 1] == c);
                }
            },
            None => {
                if s.contains(c) {
                    let k = choose|k: int| 0 <= k < s.len() && s[k] == c;
                    assert(s.drop_first()[k - 1] == c);
                }
            },
        }
    } else if s.len() > 0 {
        assert(s =~= Seq::<char>::empty() + seq![c] + s.drop_first());
    }
}

/// What stands before and after the first occurrence of the character is all
/// that `split_at_first` can return.
pub proof fn lemma_split_at_first_of(before: Seq<char>, c: char, after: Seq<char>)
    requires
        !before.contains(c),
    ensures
        split_at_first(before + seq![c] + after, c) == Some((before, after)),
    decreases before.len(),
{
    let s = before + seq![c] + after;
    if before.len() == 0 {
        assert(s.drop_first() =~= after);
        assert(before =~= Seq::<char>::empty());
    } else {
        assert(before[0] != c);
        assert forall|k: int| 0 <= k < before.len() - 1 implies before.drop_first()[k] != c by {
            assert(before[k + 1] != c);
        }
        lemma_split_at_first_of(before.drop_first(), c, after);
        assert(s.drop_first() =~= before.drop_first() + seq![c] + after);
        assert(seq![s.first()] + before.drop_first() =~= before);
    }
}

/// Splits a string at the first occurrence of a character.
pub fn split_once<'a>(s: &'a [char], c: char) -> (r: Option<(&'a [char], &'a [char])>)
    ensures
        match r {
            Some((before, after)) => split_at_first(s@, c) == Some((before@, after@)),
            None => split_at_first(s@, c) is None,
        },
{
    proof {
        lemma_split_at_first(s@, c);
    }
    let n: usize = s.len();
    match find_char(s, c) {
        Some(i) => {
            let before = slice_subrange(s, 0, i);
            let after = slice_subrange(s, i + 1, n);
            proof {
                assert(before@ =~= s@.take(i as int));
                assert(s@ =~= before@ + seq![c] + after@);
                lemma_split_at_first_of(before@, c, after@);
            }
            Some((before, after))
        },
        None => {
            proof {
                if let Some((before, after)) = split_at_first(s@, c) {
                    assert(s@[before.len() as int] == c);
                }
            }
            None
        },
    }
}

/// The first position from `i` on that holds white space, or the end of `s`.
pub open spec fn blank_from(s: Seq<char>, i: int) -> int
    decreases s.len() - i,
{
    if 0 <= i < s.len() && !white_space(s[i]) {
        blank_from(s, i + 1)
    } else {
        i
    }
}

/// A word that starts at `i` ends behind it, within the string.
pub proof fn lemma_blank_from(s: Seq<char>, i: int)
    requires
        0 <= i <= s.len(),
    ensures
        i <= blank_from(s, i) <= s.len(),
        i < s.len() && !white_space(s[i]) ==> i < blank_from(s, i),
    decreases s.len() - i,
{
    if i < s.len() && !white_space(s[i]) {
        lemma_blank_from(s, i + 1);
    }
}

/// The maximal runs of characters other than white space in `s` from `i` on,
/// in order.
pub open spec fn words_from(s: Seq<char>, i: int) -> Seq<Seq<char>>
    decreases s.len() - i,
{
    if i < 0 || i >= s.len() {
        Seq::empty()
    } else if white_space(s[i]) {
        words_from(s, i + 1)
    } else {
        proof {
            lemma_blank_from(s, i);
        }
        seq![s.subrange(i, blank_from(s, i))] + words_from(s, blank_from(s, i))
    }
}

/// The words of a string: its maximal runs of characters other than white
/// space.
pub open spec fn words(s: Seq<char>) -> Seq<Seq<char>> {
    words_from(s, 0)
}

/// Splits a string into its words.
pub fn split_whitespace(s: &[char]) -> (r: Vec<Vec<char>>)
    ensures
        r.deep_view() == words(s@),
{
    let mut out: Vec<Vec<char>> = Vec::new();
    let mut i: usize = 0;
    assert(out.deep_view() =~= Seq::<Seq<char>>::empty());
    while i < s.len()
        invariant
            i <= s@.len(),
            out.deep_view() + words_from(s@, i as int) == words(s@),
        decreases s.len() - i,
    {
        if is_white_space(s[i]) {
            i += 1;
        } else {
            let start: usize = i;
            proof {
                lemma_blank_from(s@, start as int);
            }
            while i < s.len() && !is_white_space(s[i])
                invariant
                    start <= i <= s@.len(),
                    blank_from(s@, i as int) == blank_from(s@, start as int),
                decreases s.len() - i,
            {
                i += 1;
            }
            let ghost before = out.deep_view();
            let word = slice_to_vec(slice_subrange(s, start, i));
            out.push(word);
            proof {
                assert(word.deep_view() =~= s@.subrange(start as int, i as int));
                assert(out.deep_view() =~= before.push(word.deep_view()));
                assert(out.deep_view() + words_from(s@, i as int) =~= before + (seq![
                    word.deep_view(),
                ] + words_from(s@, i as int)));
            }
        }
    }
    assert(out.deep_view() + words_from(s@, i as int) =~= out.deep_view());
    out
}

// ---------------------------------------------------------------------------
// Laws
// ---------------------------------------------------------------------------

/// The code points of white space.
pub proof fn law_white_space_code_points(c: char)
    ensures
        white_space(c) <==> {
            ||| 9 <= c as u32 <= 13
            ||| c as u32 == 32
            ||| c as u32 == 0x85
            ||| c as u32 == 0xa0
            ||| c as u32 == 0x1680
            ||| 0x2000 <= c as u32 <= 0x200a
            ||| c as u32 == 0x2028
            ||| c as u32 == 0x2029
            ||| c as u32 == 0x202f
            ||| c as u32 == 0x205f
            ||| c as u32 == 0x3000
        },
{
}

/// A class of white space has the white space, and a class of one character
/// has that character.
pub proof fn law_class_members(c: char, x: char)
    ensures
        CharClass::WhiteSpace.has(c) <==> white_space(c),
        CharClass::Is(x).has(c) <==> c == x,
{
}

/// The letters of ASCII are 32 apart from their lower-case forms, and no other
/// character changes.
pub proof fn law_ascii_lower_code_points(c: char)
    ensures
        65 <= c as u32 <= 90 ==> ascii_lower(c) as u32 == c as u32 + 32,
        !(65 <= c as u32 <= 90) ==> ascii_lower(c) == c,
{
}

proof fn lemma_same_letter(x: char, y: char)
    ensures
        ascii_lower(x) == ascii_lower(y) <==> {
            ||| x == y
            ||| 65 <= x as u32 <= 90 && y as u32 == x as u32 + 32
            ||| 65 <= y as u32 <= 90 && x as u32 == y as u32 + 32
        },
{
}

/// Two strings are the same up to case where they have the same letters at the
/// same positions.
pub proof fn law_same_ignoring_case_letters(a: Seq<char>, b: Seq<char>)
    ensures
        same_ignoring_case(a, b) <==> a.len() == b.len() && forall|i: int|
            0 <= i < a.len() ==> {
                ||| #[trigger] a[i] == b[i]
                ||| 65 <= a[i] as u32 <= 90 && b[i] as u32 == a[i] as u32 + 32
                ||| 65 <= b[i] as u32 <= 90 && a[i] as u32 == b[i] as u32 + 32
            },
{
    assert forall|i: int| 0 <= i < a.len() && a.len() == b.len() implies (ascii_lower(
        #[trigger] a[i],
    ) == ascii_lower(b[i]) <==> {
        ||| a[i] == b[i]
        ||| 65 <= a[i] as u32 <= 90 && b[i] as u32 == a[i] as u32 + 32
        ||| 65 <= b[i] as u32 <= 90 && a[i] as u32 == b[i] as u32 + 32
    }) by {
        lemma_same_letter(a[i], b[i]);
    }
}

/// What follows a prefix is what makes the string with it, and a string that no
/// text makes with the prefix does not begin with it.
pub proof fn law_after_prefix(s: Seq<char>, prefix: Seq<char>, rest: Seq<char>)
    ensures
        after_prefix(s, prefix) == Some(rest) <==> s == prefix + rest,
        after_prefix(prefix + rest, prefix) == Some(rest),
{
    assert((prefix + rest).skip(prefix.len() as int) =~= rest);
    assert(prefix.is_prefix_of(prefix + rest));
    if after_prefix(s, prefix) == Some(rest) {
        assert(s =~= prefix + rest);
    }
}

/// Trimming the end takes off exactly what was added of the class.
pub proof fn law_trimmed_end_of(s: Seq<char>, tail: Seq<char>, class: CharClass)
    requires
        s.len() > 0 ==> !class.has(s.last()),
        forall|k: int| 0 <= k < tail.len() ==> class.has(#[trigger] tail[k]),
    ensures
        trimmed_end(s + tail, class) == s,
    decreases tail.len(),
{
    if tail.len() == 0 {
        assert(s + tail =~= s);
    } else {
        assert((s + tail).drop_last() =~= s + tail.drop_last());
        assert(class.has(tail[tail.len() - 1]));
        law_trimmed_end_of(s, tail.drop_last(), class);
    }
}

/// Trimming the start takes off exactly what was added of the class.
pub proof fn law_trimmed_start_of(head: Seq<char>, s: Seq<char>, class: CharClass)
    requires
        s.len() > 0 ==> !class.has(s.first()),
        forall|k: int| 0 <= k < head.len() ==> class.has(#[trigger] head[k]),
    ensures
        trimmed_start(head + s, class) == s,
    decreases head.len(),
{
    if head.len() == 0 {
        assert(head + s =~= s);
    } else {
        assert((head + s).drop_first() =~= head.drop_first() + s);
        assert(class.has(head[0]));
        assert forall|k: int| 0 <= k < head.len() - 1 implies class.has(
            #[trigger] head.drop_first()[k],
        ) by {
            assert(class.has(head[k + 1]));
        }
        law_trimmed_start_of(head.drop_first(), s, class);
    }
}

/// Trimming both ends takes off exactly what was added of the class at either,
/// and leaves nothing of a text that is all of the class.
pub proof fn law_trimmed_of(head: Seq<char>, s: Seq<char>, tail: Seq<char>, class: CharClass)
    requires
        s.len() > 0 ==> !class.has(s.first()) && !class.has(s.last()),
        forall|k: int| 0 <= k < head.len() ==> class.has(#[trigger] head[k]),
        forall|k: int| 0 <= k < tail.len() ==> class.has(#[trigger] tail[k]),
    ensures
        trimmed(head + (s + tail), class) == s,
{
    if s.len() > 0 {
        assert((s + tail).first() == s.first());
        law_trimmed_start_of(head, s + tail, class);
        law_trimmed_end_of(s, tail, class);
    } else {
        let none = Seq::<char>::empty();
        let all = head + tail;
        assert(head + (s + tail) =~= all + none);
        assert forall|k: int| 0 <= k < all.len() implies class.has(#[trigger] all[k]) by {
            if k < head.len() {
                assert(class.has(head[k]));
            } else {
                assert(class.has(tail[k - head.len()]));
            }
        }
        law_trimmed_start_of(all, none, class);
        law_trimmed_end_of(none, none, class);
        assert(none + none =~= none);
        assert(s =~= none);
    }
}

proof fn lemma_blank_behind(s: Seq<char>, k: int, i: int)
    requires
        0 <= k <= s.len(),
        0 <= i <= s.len() - k,
    ensures
        blank_from(s, k + i) == k + blank_from(s.skip(k), i),
    decreases s.len() - k - i,
{
    if i < s.len() - k {
        assert(s.skip(k)[i] == s[k + i]);
        lemma_blank_behind(s, k, i + 1);
    }
}

proof fn lemma_words_behind(s: Seq<char>, k: int, i: int)
    requires
        0 <= k <= s.len(),
        0 <= i <= s.len() - k,
    ensures
        words_from(s, k + i) == words_from(s.skip(k), i),
    decreases s.len() - k - i,
{
    let t = s.skip(k);
    if i < t.len() {
        assert(t[i] == s[k + i]);
        if white_space(t[i]) {
            lemma_words_behind(s, k, i + 1);
        } else {
            let end = blank_from(t, i);
            lemma_blank_from(t, i);
            lemma_blank_behind(s, k, i);
            lemma_words_behind(s, k, end);
            assert(t.subrange(i, end) =~= s.subrange(k + i, k + end));
        }
    }
}

/// No text, no words.
pub proof fn law_words_of_nothing()
    ensures
        words(Seq::empty()).len() == 0,
{
}

/// White space in front of a text changes nothing in its words.
pub proof fn law_words_after_blank(c: char, rest: Seq<char>)
    requires
        white_space(c),
    ensures
        words(seq![c] + rest) == words(rest),
{
    let s = seq![c] + rest;
    lemma_words_behind(s, 1, 0);
    assert(s.skip(1) =~= rest);
}

/// Any other character in front of a text starts a word there, which the first
/// word of the text goes on with where the text begins with one.
pub proof fn law_words_after_character(c: char, rest: Seq<char>)
    requires
        !white_space(c),
    ensures
        rest.len() == 0 || white_space(rest[0]) ==> words(seq![c] + rest) == seq![seq![c]] + words(
            rest,
        ),
        rest.len() > 0 && !white_space(rest[0]) ==> words(rest).len() > 0 && words(seq![c] + rest)
            == seq![seq![c] + words(rest)[0]] + words(rest).drop_first(),
{
    let s = seq![c] + rest;
    lemma_words_behind(s, 1, 0);
    lemma_blank_behind(s, 1, 0);
    assert(s.skip(1) =~= rest);
    let end = blank_from(rest, 0);
    lemma_blank_from(rest, 0);
    lemma_words_behind(s, 1, end);
    assert(blank_from(s, 0) == 1 + end);
    if rest.len() == 0 || white_space(rest[0]) {
        assert(s.subrange(0, 1) =~= seq![c]);
    } else {
        assert(s.subrange(0, 1 + end) =~= seq![c] + rest.subrange(0, end));
        assert(words(rest).drop_first() =~= words_from(rest, end));
    }
}

/// A text without white space is one word, with what stands behind white space
/// after it.
pub proof fn law_first_word(word: Seq<char>, rest: Seq<char>)
    requires
        word.len() > 0,
        forall|k: int| 0 <= k < word.len() ==> !white_space(#[trigger] word[k]),
        rest.len() == 0 || white_space(rest[0]),
    ensures
        words(word + rest) == seq![word] + words(rest),
    decreases word.len(),
{
    let c = word[0];
    let tail = word.drop_first();
    assert(word + rest =~= seq![c] + (tail + rest));
    if tail.len() == 0 {
        assert(tail + rest =~= rest);
        assert(word =~= seq![c]);
        law_words_after_character(c, rest);
    } else {
        assert forall|k: int| 0 <= k < tail.len() implies !white_space(#[trigger] tail[k]) by {
            assert(!white_space(word[k + 1]));
        }
        law_first_word(tail, rest);
        assert((tail + rest)[0] == tail[0]);
        law_words_after_character(c, tail + rest);
        assert((seq![tail] + words(rest)).drop_first() =~= words(rest));
        assert(seq![c] + tail =~= word);
    }
}

} // verus!
