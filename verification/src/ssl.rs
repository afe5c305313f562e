//! SSL mode resolution from connection strings.

use vstd::prelude::*;
use vstd::slice::slice_subrange;

use crate::text;

verus! {

// ---------------------------------------------------------------------------
// Modes
// ---------------------------------------------------------------------------

/// How a connection uses TLS.
#[derive(Debug, Clone, Copy, PartialEq, Eq)]
pub enum SslMode {
    /// No TLS.
    Disable,
    /// Try TLS, fall back to plaintext.
    Prefer,
    /// Require TLS, no certificate validation.
    Require,
    /// Require TLS with CA validation.
    VerifyCa,
    /// Require TLS with CA and hostname validation.
    VerifyFull,
}

/// The mode that a name stands for.
pub open spec fn mode_named(name: Seq<char>) -> Option<SslMode> {
    if name == "disable"@ {
        Some(SslMode::Disable)
    } else if name == "prefer"@ {
        Some(SslMode::Prefer)
    } else if name == "require"@ {
        Some(SslMode::Require)
    } else if name == "verify-ca"@ {
        Some(SslMode::VerifyCa)
    } else if name == "verify-full"@ {
        Some(SslMode::VerifyFull)
    } else {
        None
    }
}

fn same_text(a: &str, b: &str) -> (r: bool)
    ensures
        r == (a@ == b@),
{
    text::same_chars(text::chars_of(a).as_slice(), text::chars_of(b).as_slice())
}

impl SslMode {
    /// Finds the mode with the given name.
    pub fn parse(name: &str) -> (r: Option<SslMode>)
        ensures
            r == mode_named(name@),
    {
        if same_text(name, "disable") {
            Some(SslMode::Disable)
        } else if same_text(name, "prefer") {
            Some(SslMode::Prefer)
        } else if same_text(name, "require") {
            Some(SslMode::Require)
        } else if same_text(name, "verify-ca") {
            Some(SslMode::VerifyCa)
        } else if same_text(name, "verify-full") {
            Some(SslMode::VerifyFull)
        } else {
            None
        }
    }
}

// ---------------------------------------------------------------------------
// The mode that settings ask for
// ---------------------------------------------------------------------------

/// The value of the first setting whose key is `key` up to the case of ASCII
/// letters.
pub open spec fn first_value(
    settings: Seq<(Seq<char>, Seq<char>)>,
    key: Seq<char>,
) -> Option<Seq<char>>
    decreases settings.len(),
{
    if settings.len() == 0 {
        None
    } else if text::same_ignoring_case(settings.first().0, key) {
        Some(settings.first().1)
    } else {
        first_value(settings.drop_first(), key)
    }
}

/// What is answered to a value of `sslmode` that names no mode.
pub open spec fn unsupported_mode(value: Seq<char>) -> Seq<char> {
    "Unsupported sslmode '"@ + value
        + "'. Supported: disable, prefer, require, verify-ca, verify-full."@
}

/// The mode that settings ask for: that of their first `sslmode`, and
/// `Disable` where there is none.
pub open spec fn mode_of_settings(settings: Seq<(Seq<char>, Seq<char>)>) -> Result<
    SslMode,
    Seq<char>,
> {
    match first_value(settings, "sslmode"@) {
        None => Ok(SslMode::Disable),
        Some(value) => match mode_named(value) {
            Some(mode) => Ok(mode),
            None => Err(unsupported_mode(value)),
        },
    }
}

/// `r` is the executable form of `model`.
pub open spec fn answers(r: Result<SslMode, String>, model: Result<SslMode, Seq<char>>) -> bool {
    match r {
        Ok(mode) => model == Ok::<SslMode, Seq<char>>(mode),
        Err(message) => model == Err::<SslMode, Seq<char>>(message@),
    }
}

/// Finds the mode that settings, as pairs of a key and a value, ask for.
pub fn ssl_mode_of_settings(settings: &Vec<(String, String)>) -> (r: Result<SslMode, String>)
    ensures
        answers(r, mode_of_settings(settings.deep_view())),
{
    let ghost all = settings.deep_view();
    let mut i: usize = 0;
    assert(all.skip(0) =~= all);
    while i < settings.len()
        invariant
            all == settings.deep_view(),
            i <= settings@.len(),
            first_value(all.skip(i as int), "sslmode"@) == first_value(all, "sslmode"@),
        decreases settings.len() - i,
    {
        let (key, value) = &settings[i];
        assert(all.skip(i as int).first() == (key@, value@));
        assert(all.skip(i as int).drop_first() =~= all.skip(i + 1));
        if text::eq_ignore_ascii_case(key.as_str(), "sslmode") {
            return match SslMode::parse(value.as_str()) {
                Some(mode) => Ok(mode),
                None => {
                    let mut message = "Unsupported sslmode '".to_owned();
                    message.append(value.as_str());
                    message.append(
                        "'. Supported: disable, prefer, require, verify-ca, verify-full.",
                    );
                    Err(message)
                },
            };
        }
        i += 1;
    }
    Ok(SslMode::Disable)
}

// ---------------------------------------------------------------------------
// URLs
// ---------------------------------------------------------------------------

/// The connection strings that are URLs.
pub open spec fn is_url(s: Seq<char>) -> bool {
    "postgres://"@.is_prefix_of(s) || "postgresql://"@.is_prefix_of(s)
}

/// What `url::Url::parse` and `Url::query_pairs` make of a string: the pairs of
/// the query of the URL in order, or the text of the parse error.
pub uninterp spec fn url_query_pairs(s: Seq<char>) -> Result<
    Seq<(Seq<char>, Seq<char>)>,
    Seq<char>,
>;

/// Parses `s` with `url::Url::parse` and reads the pairs of its query with
/// `Url::query_pairs`. Claimed of them: the pairs, or the text of the error,
/// depend on `s` alone.
#[verifier::external_body]
fn parse_url_query(s: &str) -> (r: Result<Vec<(String, String)>, String>)
    ensures
        match r {
            Ok(pairs) => url_query_pairs(s@) == Ok::<Seq<(Seq<char>, Seq<char>)>, Seq<char>>(
                pairs.deep_view(),
            ),
            Err(message) => url_query_pairs(s@) == Err::<Seq<(Seq<char>, Seq<char>)>, Seq<char>>(
                message@,
            ),
        },
{
    match url::Url::parse(s) {
        Ok(url) => Ok(url.query_pairs().into_owned().collect()),
        Err(e) => Err(e.to_string()),
    }
}

/// The mode that a URL asks for, by the pairs of its query or the error that it
/// was rejected with.
pub open spec fn mode_of_url(
    parsed: Result<Seq<(Seq<char>, Seq<char>)>, Seq<char>>,
) -> Result<SslMode, Seq<char>> {
    match parsed {
        Ok(pairs) => mode_of_settings(pairs),
        Err(message) => Err("Invalid URL: "@ + message),
    }
}

/// Finds the mode that a URL asks for, given the pairs of its query or the
/// error that it was rejected with.
pub fn ssl_mode_of_url(parsed: Result<Vec<(String, String)>, String>) -> (r: Result<
    SslMode,
    String,
>)
    ensures
        answers(
            r,
            mode_of_url(
                match parsed {
                    Ok(pairs) => Ok(pairs.deep_view()),
                    Err(message) => Err(message@),
                },
            ),
        ),
{
    match parsed {
        Ok(pairs) => ssl_mode_of_settings(&pairs),
        Err(e) => {
            let mut message = "Invalid URL: ".to_owned();
            message.append(e.as_str());
            Err(message)
        },
    }
}

// ---------------------------------------------------------------------------
// Keyword strings
// ---------------------------------------------------------------------------

/// The settings in the words of a keyword-style connection string. A setting is
/// written `key=value`, `key= value`, `key =value` or `key = value`; other words
/// are passed over.
pub open spec fn settings_of_words(ws: Seq<Seq<char>>) -> Seq<(Seq<char>, Seq<char>)>
    decreases ws.len(),
{
    if ws.len() == 0 {
        Seq::empty()
    } else {
        match text::split_at_first(ws[0], '=') {
            Some((key, value)) => if value.len() == 0 && ws.len() > 1 {
                seq![(key, ws[1])] + settings_of_words(ws.skip(2))
            } else {
                seq![(key, value)] + settings_of_words(ws.drop_first())
            },
            None => if ws.len() >= 3 && ws[1] == seq!['='] {
                seq![(ws[0], ws[2])] + settings_of_words(ws.skip(3))
            } else if ws.len() >= 2 && ws[1].len() >= 2 && ws[1].first() == '=' {
                seq![(ws[0], ws[1].skip(1))] + settings_of_words(ws.skip(2))
            } else {
                settings_of_words(ws.drop_first())
            },
        }
    }
}

/// Reads the settings of a keyword-style connection string.
pub fn keyword_settings(conn_str: &str) -> (r: Vec<(String, String)>)
    ensures
        r.deep_view() == settings_of_words(text::words(conn_str@)),
{
    let s = text::chars_of(conn_str);
    let words = text::split_whitespace(s.as_slice());
    let ghost ws = text::words(conn_str@);
    let mut out: Vec<(String, String)> = Vec::new();
    let mut i: usize = 0;
    assert(ws.skip(0) =~= ws);
    assert(out.deep_view() =~= Seq::empty());
    while i < words.len()
        invariant
            ws == words.deep_view(),
            i <= words@.len(),
            out.deep_view() + settings_of_words(ws.skip(i as int)) == settings_of_words(ws),
        decreases words.len() - i,
    {
        let ghost here = ws.skip(i as int);
        let ghost before = out.deep_view();
        let left: usize = words.len() - i;
        assert(here[0] =~= words@[i as int]@);
        assert(left > 1 ==> here[1] =~= words@[i + 1]@);
        assert(left > 2 ==> here[2] =~= words@[i + 2]@);
        assert(here.drop_first() =~= ws.skip(i + 1));
        if let Some((key, value)) = text::split_once(words[i].as_slice(), '=') {
            let used: usize = if value.len() == 0 && left > 1 {
                2
            } else {
                1
            };
            let value = if used == 2 {
                text::string_of(words[i + 1].as_slice())
            } else {
                text::string_of(value)
            };
            let key = text::string_of(key);
            let ghost setting = (key@, value@);
            out.push((key, value));
            assert(used == 2 ==> here.skip(2) =~= ws.skip(i + 2));
            assert(out.deep_view() =~= before.push(setting));
            assert(out.deep_view() + settings_of_words(ws.skip(i + used)) =~= before + (seq![
                setting,
            ] + settings_of_words(ws.skip(i + used))));
            i += used;
        } else if left >= 3 && words[i + 1].len() == 1 && words[i + 1][0] == '=' {
            assert(here[1] =~= seq!['=']);
            let key = text::string_of(words[i].as_slice());
            let value = text::string_of(words[i + 2].as_slice());
            let ghost setting = (key@, value@);
            out.push((key, value));
            assert(here.skip(3) =~= ws.skip(i + 3));
            assert(out.deep_view() =~= before.push(setting));
            assert(out.deep_view() + settings_of_words(ws.skip(i + 3)) =~= before + (seq![setting]
                + settings_of_words(ws.skip(i + 3))));
            i += 3;
        } else if left >= 2 && words[i + 1].len() >= 2 && words[i + 1][0] == '=' {
            let key = text::string_of(words[i].as_slice());
            let word = words[i + 1].as_slice();
            let value = text::string_of(slice_subrange(word, 1, word.len()));
            let ghost setting = (key@, value@);
            out.push((key, value));
            assert(here[1].skip(1) =~= value@);
            assert(here.skip(2) =~= ws.skip(i + 2));
            assert(out.deep_view() =~= before.push(setting));
            assert(out.deep_view() + settings_of_words(ws.skip(i + 2)) =~= before + (seq![setting]
                + settings_of_words(ws.skip(i + 2))));
            i += 2;
        } else {
            i += 1;
        }
    }
    assert(out.deep_view() + settings_of_words(ws.skip(i as int)) =~= out.deep_view());
    out
}

// ---------------------------------------------------------------------------
// Resolution
// ---------------------------------------------------------------------------

/// The mode that a connection string asks for.
pub open spec fn resolved_mode(conn_str: Seq<char>) -> Result<SslMode, Seq<char>> {
    if is_url(conn_str) {
        mode_of_url(url_query_pairs(conn_str))
    } else {
        mode_of_settings(settings_of_words(text::words(conn_str)))
    }
}

/// Parse sslmode from a connection string (URL or keyword format).
///
/// Returns `SslMode::Disable` when no sslmode is specified: TLS is an explicit
/// opt-in.
pub fn resolve_ssl_mode(conn_str: &str) -> (r: Result<SslMode, String>)
    ensures
        answers(r, resolved_mode(conn_str@)),
{
    let s = text::chars_of(conn_str);
    if text::strip_prefix(s.as_slice(), "postgres://").is_some() || text::strip_prefix(
        s.as_slice(),
        "postgresql://",
    ).is_some() {
        return ssl_mode_of_url(parse_url_query(conn_str));
    }
    ssl_mode_of_settings(&keyword_settings(conn_str))
}

// ---------------------------------------------------------------------------
// Laws
// ---------------------------------------------------------------------------

/// Without a setting of `sslmode`, TLS is off.
pub proof fn law_no_sslmode_disables(settings: Seq<(Seq<char>, Seq<char>)>)
    requires
        forall|i: int|
            0 <= i < settings.len() ==> !text::same_ignoring_case(
                (#[trigger] settings[i]).0,
                "sslmode"@,
            ),
    ensures
        mode_of_settings(settings) == Ok::<SslMode, Seq<char>>(SslMode::Disable),
    decreases settings.len(),
{
    if settings.len() > 0 {
        let rest = settings.drop_first();
        assert forall|i: int| 0 <= i < rest.len() implies !text::same_ignoring_case(
            (#[trigger] rest[i]).0,
            "sslmode"@,
        ) by {
            assert(rest[i] == settings[i + 1]);
        }
        assert(!text::same_ignoring_case(settings[0].0, "sslmode"@));
        law_no_sslmode_disables(rest);
    }
}

/// The first setting of `sslmode` decides: what follows it changes nothing.
pub proof fn law_first_sslmode_decides(
    settings: Seq<(Seq<char>, Seq<char>)>,
    more: Seq<(Seq<char>, Seq<char>)>,
)
    requires
        first_value(settings, "sslmode"@) is Some,
    ensures
        mode_of_settings(settings + more) == mode_of_settings(settings),
    decreases settings.len(),
{
    if settings.len() > 0 && !text::same_ignoring_case(settings.first().0, "sslmode"@) {
        law_first_sslmode_decides(settings.drop_first(), more);
        assert((settings + more).drop_first() =~= settings.drop_first() + more);
    }
}

/// The case of the letters of a key does not matter.
pub proof fn law_key_case_is_ignored(
    a: Seq<(Seq<char>, Seq<char>)>,
    b: Seq<(Seq<char>, Seq<char>)>,
)
    requires
        a.len() == b.len(),
        forall|i: int|
            0 <= i < a.len() ==> text::same_ignoring_case((#[trigger] a[i]).0, b[i].0) && a[i].1
                == b[i].1,
    ensures
        mode_of_settings(a) == mode_of_settings(b),
    decreases a.len(),
{
    if a.len() > 0 {
        let key = "sslmode"@;
        assert(text::same_ignoring_case(a[0].0, b[0].0) && a[0].1 == b[0].1);
        assert(text::same_ignoring_case(a[0].0, key) == text::same_ignoring_case(b[0].0, key)) by {
            if text::same_ignoring_case(a[0].0, key) {
                assert forall|i: int| 0 <= i < key.len() implies text::ascii_lower(
                    #[trigger] b[0].0[i],
                ) == text::ascii_lower(key[i]) by {
                    assert(text::ascii_lower(a[0].0[i]) == text::ascii_lower(key[i]));
                }
            }
            if text::same_ignoring_case(b[0].0, key) {
                assert forall|i: int| 0 <= i < key.len() implies text::ascii_lower(
                    #[trigger] a[0].0[i],
                ) == text::ascii_lower(key[i]) by {
                    assert(text::ascii_lower(b[0].0[i]) == text::ascii_lower(key[i]));
                }
            }
        }
        assert forall|i: int| 0 <= i < a.len() - 1 implies text::same_ignoring_case(
            (#[trigger] a.drop_first()[i]).0,
            b.drop_first()[i].0,
        ) && a.drop_first()[i].1 == b.drop_first()[i].1 by {
            assert(text::same_ignoring_case(a[i + 1].0, b[i + 1].0));
        }
        law_key_case_is_ignored(a.drop_first(), b.drop_first());
    }
}

/// A mode comes from a setting that names it, or from the lack of a setting;
/// an error comes from a setting that names no mode, and quotes its value.
pub proof fn law_mode_is_named(settings: Seq<(Seq<char>, Seq<char>)>)
    ensures
        match mode_of_settings(settings) {
            Ok(mode) => match first_value(settings, "sslmode"@) {
                Some(value) => mode_named(value) == Some(mode),
                None => mode == SslMode::Disable,
            },
            Err(message) => first_value(settings, "sslmode"@) matches Some(value) && mode_named(
                value,
            ) is None && message == unsupported_mode(value),
        },
{
}

/// White space may stand on either side of the equals sign of a setting, or on
/// both: `key=value`, `key= value`, `key =value` and `key = value` are the same
/// setting.
pub proof fn law_blanks_around_equals(key: Seq<char>, value: Seq<char>, more: Seq<Seq<char>>)
    requires
        !key.contains('='),
        value.len() > 0,
    ensures
        settings_of_words(seq![key + seq!['='] + value] + more) == seq![(key, value)]
            + settings_of_words(more),
        settings_of_words(seq![key + seq!['='], value] + more) == seq![(key, value)]
            + settings_of_words(more),
        settings_of_words(seq![key, seq!['='] + value] + more) == seq![(key, value)]
            + settings_of_words(more),
        settings_of_words(seq![key, seq!['='], value] + more) == seq![(key, value)]
            + settings_of_words(more),
{
    let none = Seq::<char>::empty();
    text::lemma_split_at_first_of(key, '=', value);
    text::lemma_split_at_first_of(key, '=', none);
    assert(key + seq!['='] + none =~= key + seq!['=']);
    text::lemma_split_at_first(key, '=');
    if let Some((before, after)) = text::split_at_first(key, '=') {
        assert(key[before.len() as int] == '=');
    }
    assert((seq!['='] + value).skip(1) =~= value);
    assert((seq!['='] + value).len() != seq!['='].len());
    assert((seq![key + seq!['='] + value] + more).drop_first() =~= more);
    assert((seq![key + seq!['='], value] + more).skip(2) =~= more);
    assert((seq![key, seq!['='] + value] + more).skip(2) =~= more);
    assert((seq![key, seq!['='], value] + more).skip(3) =~= more);
}

// ---------------------------------------------------------------------------
// Laws of modes and settings
// ---------------------------------------------------------------------------

/// Each mode has one name, and no other text names a mode.
pub proof fn law_mode_names(name: Seq<char>, mode: SslMode)
    ensures
        mode_named(name) == Some(mode) <==> name == match mode {
            SslMode::Disable => "disable"@,
            SslMode::Prefer => "prefer"@,
            SslMode::Require => "require"@,
            SslMode::VerifyCa => "verify-ca"@,
            SslMode::VerifyFull => "verify-full"@,
        },
        mode_named(name) is None <==> {
            &&& name != "disable"@
            &&& name != "prefer"@
            &&& name != "require"@
            &&& name != "verify-ca"@
            &&& name != "verify-full"@
        },
{
    reveal_strlit("disable");
    reveal_strlit("prefer");
    reveal_strlit("require");
    reveal_strlit("verify-ca");
    reveal_strlit("verify-full");
    assert("disable"@[0] == 'd' && "require"@[0] == 'r');
    assert("disable"@.len() == 7 && "prefer"@.len() == 6 && "require"@.len() == 7);
    assert("verify-ca"@.len() == 9 && "verify-full"@.len() == 11);
    match mode {
        SslMode::Disable => {},
        SslMode::Prefer => {},
        SslMode::Require => {},
        SslMode::VerifyCa => {},
        SslMode::VerifyFull => {},
    }
}

/// The first setting with a key gives the value of the key, and there is none
/// where no setting has it.
pub proof fn law_first_value_by_position(
    settings: Seq<(Seq<char>, Seq<char>)>,
    key: Seq<char>,
    i: int,
)
    requires
        0 <= i <= settings.len(),
        forall|j: int|
            0 <= j < i ==> !text::same_ignoring_case((#[trigger] settings[j]).0, key),
        i < settings.len() ==> text::same_ignoring_case(settings[i].0, key),
    ensures
        i < settings.len() ==> first_value(settings, key) == Some(settings[i].1),
        i == settings.len() ==> first_value(settings, key) is None,
    decreases settings.len(),
{
    if i > 0 {
        let rest = settings.drop_first();
        assert(!text::same_ignoring_case(settings[0].0, key));
        assert forall|j: int| 0 <= j < i - 1 implies !text::same_ignoring_case(
            (#[trigger] rest[j]).0,
            key,
        ) by {
            assert(rest[j] == settings[j + 1]);
        }
        if i < settings.len() {
            assert(rest[i - 1] == settings[i]);
        }
        law_first_value_by_position(rest, key, i - 1);
    }
}

/// The first setting whose key is `sslmode`, in any case, decides: its value is
/// the mode, or is refused with a message that quotes it.
pub proof fn law_first_sslmode_by_position(settings: Seq<(Seq<char>, Seq<char>)>, i: int)
    requires
        0 <= i < settings.len(),
        text::same_ignoring_case(settings[i].0, "sslmode"@),
        forall|j: int|
            0 <= j < i ==> !text::same_ignoring_case((#[trigger] settings[j]).0, "sslmode"@),
    ensures
        forall|mode: SslMode| #[trigger]
            mode_named(settings[i].1) == Some(mode) ==> mode_of_settings(settings) == Ok::<
                SslMode,
                Seq<char>,
            >(mode),
        mode_named(settings[i].1) is None ==> mode_of_settings(settings) == Err::<
            SslMode,
            Seq<char>,
        >(
            "Unsupported sslmode '"@ + settings[i].1
                + "'. Supported: disable, prefer, require, verify-ca, verify-full."@,
        ),
{
    law_first_value_by_position(settings, "sslmode"@, i);
}

/// An answer stands for one outcome: the same mode, or the same message.
pub proof fn law_answers(r: Result<SslMode, String>, model: Result<SslMode, Seq<char>>)
    ensures
        answers(r, model) <==> model == match r {
            Ok(mode) => Ok::<SslMode, Seq<char>>(mode),
            Err(message) => Err::<SslMode, Seq<char>>(message@),
        },
{
}

// ---------------------------------------------------------------------------
// Laws of keyword strings
// ---------------------------------------------------------------------------

/// No words, no settings.
pub proof fn law_settings_of_nothing()
    ensures
        settings_of_words(Seq::empty()).len() == 0,
{
}

/// A key with an equals sign takes the next word as its value, whatever that
/// word is; as the last word it has an empty value.
pub proof fn law_value_in_next_word(key: Seq<char>, value: Seq<char>, more: Seq<Seq<char>>)
    requires
        !key.contains('='),
    ensures
        settings_of_words(seq![key + seq!['='], value] + more) == seq![(key, value)]
            + settings_of_words(more),
        settings_of_words(seq![key + seq!['=']]) == seq![(key, Seq::<char>::empty())],
{
    let none = Seq::<char>::empty();
    text::lemma_split_at_first_of(key, '=', none);
    assert(key + seq!['='] + none =~= key + seq!['=']);
    assert((seq![key + seq!['='], value] + more).skip(2) =~= more);
    let alone = seq![key + seq!['=']];
    assert(alone.drop_first() =~= Seq::empty());
    assert(settings_of_words(alone.drop_first()) =~= Seq::empty());
    assert(settings_of_words(alone) =~= seq![(key, none)]);
}

/// A word without an equals sign is passed over where the next word does not
/// begin with one, or is one with no word behind it.
pub proof fn law_other_words_are_passed_over(word: Seq<char>, more: Seq<Seq<char>>)
    requires
        !word.contains('='),
        more.len() == 0 || more[0].len() == 0 || more[0][0] != '=' || (more.len() == 1 && more[0]
            == seq!['=']),
    ensures
        settings_of_words(seq![word] + more) == settings_of_words(more),
{
    let ws = seq![word] + more;
    text::lemma_split_at_first(word, '=');
    if let Some((before, after)) = text::split_at_first(word, '=') {
        assert(word[before.len() as int] == '=');
    }
    assert(ws.drop_first() =~= more);
    if more.len() > 0 {
        assert(ws[1] == more[0]);
        assert(seq!['='][0] == '=');
    }
}

/// A word that is a setting of its own: a key, an equals sign and a value.
pub open spec fn complete_setting(word: Seq<char>) -> bool {
    exists|key: Seq<char>, value: Seq<char>|
        !key.contains('=') && value.len() > 0 && word == #[trigger] (key + seq!['='] + value)
}

/// Settings that are words of their own are read on their own: those of the
/// words behind them follow theirs.
pub proof fn law_settings_in_order(ws: Seq<Seq<char>>, more: Seq<Seq<char>>)
    requires
        forall|i: int| 0 <= i < ws.len() ==> complete_setting(#[trigger] ws[i]),
    ensures
        settings_of_words(ws).len() == ws.len(),
        forall|i: int|
            0 <= i < ws.len() ==> #[trigger] ws[i] == settings_of_words(ws)[i].0 + seq!['=']
                + settings_of_words(ws)[i].1 && !settings_of_words(ws)[i].0.contains('='),
        settings_of_words(ws + more) == settings_of_words(ws) + settings_of_words(more),
    decreases ws.len(),
{
    if ws.len() == 0 {
        assert(ws + more =~= more);
        assert(settings_of_words(ws) + settings_of_words(more) =~= settings_of_words(more));
    } else {
        let rest = ws.drop_first();
        assert(complete_setting(ws[0]));
        let (key, value) = choose|key: Seq<char>, value: Seq<char>|
            !key.contains('=') && value.len() > 0 && ws[0] == #[trigger] (key + seq!['='] + value);
        assert forall|i: int| 0 <= i < rest.len() implies complete_setting(#[trigger] rest[i]) by {
            assert(complete_setting(ws[i + 1]));
        }
        law_settings_in_order(rest, more);
        law_blanks_around_equals(key, value, rest);
        law_blanks_around_equals(key, value, rest + more);
        assert(seq![ws[0]] + rest =~= ws);
        assert(seq![ws[0]] + (rest + more) =~= ws + more);
        let found = settings_of_words(ws);
        assert(found == seq![(key, value)] + settings_of_words(rest));
        assert forall|i: int| 0 <= i < ws.len() implies #[trigger] ws[i] == found[i].0 + seq!['=']
            + found[i].1 && !found[i].0.contains('=') by {
            if i > 0 {
                assert(rest[i - 1] == ws[i]);
                assert(found[i] == settings_of_words(rest)[i - 1]);
            }
        }
        assert(settings_of_words(ws + more) =~= settings_of_words(ws) + settings_of_words(more));
    }
}

// ---------------------------------------------------------------------------
// Laws of resolution
// ---------------------------------------------------------------------------

/// A string that begins with `postgres://` or `postgresql://` is read as a URL:
/// the pairs of its query are the settings, and a string that is no URL is
/// refused with the reason.
pub proof fn law_url_is_resolved(rest: Seq<char>, s: Seq<char>)
    requires
        s == "postgres://"@ + rest || s == "postgresql://"@ + rest,
    ensures
        is_url(s),
        resolved_mode(s) == match url_query_pairs(s) {
            Ok(pairs) => mode_of_settings(pairs),
            Err(message) => Err::<SslMode, Seq<char>>("Invalid URL: "@ + message),
        },
        mode_of_url(url_query_pairs(s)) == resolved_mode(s),
{
    assert(s.take("postgres://"@.len() as int) =~= "postgres://"@ || s.take(
        "postgresql://"@.len() as int,
    ) =~= "postgresql://"@);
}

/// What a URL asks for follows from its pairs alone.
pub proof fn law_mode_of_url(
    pairs: Seq<(Seq<char>, Seq<char>)>,
    message: Seq<char>,
)
    ensures
        mode_of_url(Ok(pairs)) == mode_of_settings(pairs),
        mode_of_url(Err(message)) == Err::<SslMode, Seq<char>>("Invalid URL: "@ + message),
{
}

/// Any other string is read as settings, word by word.
pub proof fn law_keywords_are_resolved(s: Seq<char>)
    requires
        forall|rest: Seq<char>| s != #[trigger] ("postgres://"@ + rest),
        forall|rest: Seq<char>| s != #[trigger] ("postgresql://"@ + rest),
    ensures
        !is_url(s),
        resolved_mode(s) == mode_of_settings(settings_of_words(text::words(s))),
{
    if "postgres://"@.is_prefix_of(s) {
        assert(s =~= "postgres://"@ + s.skip("postgres://"@.len() as int));
    }
    if "postgresql://"@.is_prefix_of(s) {
        assert(s =~= "postgresql://"@ + s.skip("postgresql://"@.len() as int));
    }
}

/// Among settings that are words of their own, the value of the first `sslmode`
/// decides, whatever follows it.
pub proof fn law_keyword_sslmode_is_found(
    s: Seq<char>,
    before: Seq<Seq<char>>,
    key: Seq<char>,
    value: Seq<char>,
    more: Seq<Seq<char>>,
)
    requires
        forall|rest: Seq<char>| s != #[trigger] ("postgres://"@ + rest),
        forall|rest: Seq<char>| s != #[trigger] ("postgresql://"@ + rest),
        text::words(s) == before + (seq![key + seq!['='] + value] + more),
        forall|i: int| 0 <= i < before.len() ==> complete_setting(#[trigger] before[i]),
        forall|i: int, k: Seq<char>, v: Seq<char>|
            0 <= i < before.len() && #[trigger] before[i] == #[trigger] (k + seq!['='] + v)
                && !k.contains('=') ==> !text::same_ignoring_case(k, "sslmode"@),
        !key.contains('='),
        text::same_ignoring_case(key, "sslmode"@),
        value.len() > 0,
    ensures
        forall|mode: SslMode| #[trigger]
            mode_named(value) == Some(mode) ==> resolved_mode(s) == Ok::<SslMode, Seq<char>>(mode),
        mode_named(value) is None ==> resolved_mode(s) is Err,
{
    let settings = settings_of_words(text::words(s));
    law_keywords_are_resolved(s);
    law_settings_in_order(before, seq![key + seq!['='] + value] + more);
    law_blanks_around_equals(key, value, more);
    let n = before.len() as int;
    assert(settings[n] == (key, value));
    assert forall|j: int| 0 <= j < n implies !text::same_ignoring_case(
        (#[trigger] settings[j]).0,
        "sslmode"@,
    ) by {
        let found = settings_of_words(before)[j];
        assert(settings[j] == found);
        assert(before[j] == found.0 + seq!['='] + found.1);
    }
    law_first_sslmode_by_position(settings, n);
}

} // verus!
