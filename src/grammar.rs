//! The grammar of an open tag, as spec functions over the characters of the
//! input.
//!
//! ```text
//! tag        := '<' name ' ' attr_list '>'
//! name       := ALPHA+
//! attr_list  := (attr (',' WS* attr)*)?
//! attr       := name WS* '=' WS* '"' value '"'
//! value      := (ALNUM | '.' | '/' | ':')+
//! WS         := ' ' | '\t' | '\r' | '\n'
//! ```
//!
//! Each rule yields, on success, what it recognised and how many characters it
//! consumed; on failure, what was expected and at which offset from the start
//! of its input.
use vstd::prelude::*;

verus! {

/// Relied on for `char::is_alphanumeric`: whether a character is alphabetic or
/// numeric in Unicode's sense.
pub uninterp spec fn unicode_alphanumeric(c: char) -> bool;

/// An ASCII letter.
pub open spec fn is_ascii_letter(c: char) -> bool {
    ('a' <= c && c <= 'z') || ('A' <= c && c <= 'Z')
}

/// An ASCII digit.
pub open spec fn is_ascii_digit(c: char) -> bool {
    '0' <= c && c <= '9'
}

/// Space, tab, carriage return or line feed.
pub open spec fn is_space(c: char) -> bool {
    c == ' ' || c == '\t' || c == '\r' || c == '\n'
}

/// A character that may stand in an attribute value: alphanumeric (on ASCII,
/// a letter or a digit), `.`, `/` or `:`.
pub open spec fn is_value_char(c: char) -> bool {
    if (c as u32) < 0x80 {
        is_ascii_letter(c) || is_ascii_digit(c) || c == '.' || c == '/' || c == ':'
    } else {
        unicode_alphanumeric(c)
    }
}

/// The kinds of characters that the scanners take runs of.
#[derive(Clone, Copy, Debug, PartialEq, Eq)]
pub enum CharClass {
    /// ASCII letters: tag names and attribute keys.
    Letter,
    /// Whitespace around `=` and after `,`.
    Space,
    /// The characters of an attribute value.
    Value,
}

impl CharClass {
    /// Whether `c` is of this class.
    pub open spec fn holds(self, c: char) -> bool {
        match self {
            CharClass::Letter => is_ascii_letter(c),
            CharClass::Space => is_space(c),
            CharClass::Value => is_value_char(c),
        }
    }
}

/// The length of the longest prefix of `s` whose characters are all of `class`.
pub open spec fn run_len(s: Seq<char>, class: CharClass) -> nat
    decreases s.len(),
{
    if s.len() > 0 && class.holds(s[0]) {
        1 + run_len(s.drop_first(), class)
    } else {
        0
    }
}

/// A run is exactly as long as its characters are of the class and the next
/// one is not.
pub proof fn lemma_run_len(s: Seq<char>, class: CharClass, n: nat)
    requires
        n <= s.len(),
        forall|i: int| 0 <= i < n ==> class.holds(#[trigger] s[i]),
        n == s.len() || !class.holds(s[n as int]),
    ensures
        run_len(s, class) == n,
    decreases n,
{
    if n > 0 {
        assert forall|i: int| 0 <= i < n - 1 implies class.holds(#[trigger] s.drop_first()[i]) by {
            assert(s.drop_first()[i] == s[i + 1]);
        }
        lemma_run_len(s.drop_first(), class, (n - 1) as nat);
    }
}

/// A run is never longer than the text, and all its characters are of the class.
pub proof fn lemma_run_len_bound(s: Seq<char>, class: CharClass)
    ensures
        run_len(s, class) <= s.len(),
        forall|i: int| 0 <= i < run_len(s, class) ==> class.holds(#[trigger] s[i]),
        run_len(s, class) < s.len() ==> !class.holds(s[run_len(s, class) as int]),
    decreases s.len(),
{
    if s.len() > 0 && class.holds(s[0]) {
        lemma_run_len_bound(s.drop_first(), class);
        assert forall|i: int| 0 <= i < run_len(s, class) implies class.holds(#[trigger] s[i]) by {
            if i > 0 {
                assert(s[i] == s.drop_first()[i - 1]);
            }
        }
    }
}

/// What a parser expected where it failed.
#[derive(Clone, Copy, Debug, PartialEq, Eq, Structural)]
pub enum Expected {
    /// The `<` that opens a tag.
    OpenAngle,
    /// One or more ASCII letters: a tag name or an attribute key.
    Letters,
    /// The single space after the tag name.
    Space,
    /// The `=` between an attribute's key and value.
    Equals,
    /// The `"` that opens a value.
    OpeningQuote,
    /// One or more value characters.
    ValueChars,
    /// The `"` that closes a value.
    ClosingQuote,
    /// The `>` that closes a tag.
    CloseAngle,
    /// The end of the input, after a complete tag.
    EndOfInput,
}

/// A failed parse: what was expected, and at which character of the input.
#[derive(Clone, Copy, Debug, PartialEq, Eq, Structural)]
pub struct SyntaxError {
    pub expected: Expected,
    /// Offset in characters from the start of the text given to the parser.
    pub position: usize,
}

/// A rule's outcome: what it recognised and the characters consumed, or what
/// was expected and the offset of the failure.
pub type Outcome<T> = Result<(T, nat), (Expected, nat)>;

/// A key/value pair as characters.
pub type PairChars = (Seq<char>, Seq<char>);

/// `name := ALPHA+`
pub open spec fn key_rule(s: Seq<char>) -> Outcome<Seq<char>> {
    let n = run_len(s, CharClass::Letter);
    if n == 0 {
        Err((Expected::Letters, 0))
    } else {
        Ok((s.take(n as int), n))
    }
}

/// `'"' value '"'`, yielding the value without its quotes.
pub open spec fn value_rule(s: Seq<char>) -> Outcome<Seq<char>> {
    if s.len() == 0 || s[0] != '"' {
        Err((Expected::OpeningQuote, 0))
    } else {
        let n = run_len(s.drop_first(), CharClass::Value);
        if n == 0 {
            Err((Expected::ValueChars, 1))
        } else if s.len() <= n + 1 || s[n + 1 as int] != '"' {
            Err((Expected::ClosingQuote, n + 1))
        } else {
            Ok((s.subrange(1, n + 1 as int), n + 2))
        }
    }
}

/// `attr := name WS* '=' WS* '"' value '"'`
pub open spec fn attribute_rule(s: Seq<char>) -> Outcome<PairChars> {
    match key_rule(s) {
        Err(e) => Err(e),
        Ok((k, a)) => {
            let p = a + run_len(s.skip(a as int), CharClass::Space);
            if p >= s.len() || s[p as int] != '=' {
                Err((Expected::Equals, p))
            } else {
                let q = p + 1 + run_len(s.skip(p + 1 as int), CharClass::Space);
                match value_rule(s.skip(q as int)) {
                    Err((e, i)) => Err((e, q + i)),
                    Ok((v, m)) => Ok(((k, v), q + m)),
                }
            }
        },
    }
}

/// What a list of attributes yields: its pairs in order, the characters it
/// consumed, and, where it stopped at an attribute that failed, that failure.
pub type ListOutcome = (Seq<PairChars>, nat, Option<(Expected, nat)>);

/// A failure moved `k` characters further on.
pub open spec fn shifted(stop: Option<(Expected, nat)>, k: nat) -> Option<(Expected, nat)> {
    match stop {
        None => None,
        Some((e, p)) => Some((e, p + k)),
    }
}

/// `(',' WS* attr)*`: as many further attributes as stand there, each after a
/// comma and optional whitespace. It stops before a comma whose attribute
/// fails, and never fails itself.
pub open spec fn list_rest(s: Seq<char>) -> ListOutcome
    decreases s.len(),
{
    if s.len() == 0 || s[0] != ',' {
        (seq![], 0, None)
    } else {
        let d = 1 + run_len(s.drop_first(), CharClass::Space);
        match attribute_rule(s.skip(d as int)) {
            Err((e, i)) => (seq![], 0, Some((e, d + i))),
            Ok((kv, n)) => {
                proof {
                    lemma_run_len_bound(s.drop_first(), CharClass::Space);
                    lemma_attribute_within(s.skip(d as int));
                }
                let rest = list_rest(s.skip((d + n) as int));
                (seq![kv] + rest.0, d + n + rest.1, shifted(rest.2, d + n))
            },
        }
    }
}

/// `attr_list := (attr (',' WS* attr)*)?`, which never fails: where the first
/// attribute fails, the list is empty.
pub open spec fn list_rule(s: Seq<char>) -> ListOutcome {
    match attribute_rule(s) {
        Err(e) => (seq![], 0, Some(e)),
        Ok((kv, n)) => {
            let rest = list_rest(s.skip(n as int));
            (seq![kv] + rest.0, n + rest.1, shifted(rest.2, n))
        },
    }
}

/// A tag as characters: its name and its attribute pairs in order.
pub type TagChars = (Seq<char>, Seq<PairChars>);

/// `tag := '<' name ' ' attr_list '>'`. Where the `>` is missing and the list
/// stopped at an attribute that failed, that failure is the tag's.
pub open spec fn tag_rule(s: Seq<char>) -> Outcome<TagChars> {
    if s.len() == 0 || s[0] != '<' {
        Err((Expected::OpenAngle, 0))
    } else {
        match key_rule(s.drop_first()) {
            Err((e, i)) => Err((e, i + 1)),
            Ok((name, n)) => {
                let p = n + 1;
                if p >= s.len() || s[p as int] != ' ' {
                    Err((Expected::Space, p))
                } else {
                    let list = list_rule(s.skip(p + 1 as int));
                    let q = p + 1 + list.1;
                    if q < s.len() && s[q as int] == '>' {
                        Ok(((name, list.0), q + 1))
                    } else {
                        match list.2 {
                            Some((e, i)) => Err((e, p + 1 + i)),
                            None => Err((Expected::CloseAngle, q)),
                        }
                    }
                }
            },
        }
    }
}

/// A whole text that is one tag and nothing after it.
pub open spec fn document_rule(s: Seq<char>) -> Result<TagChars, (Expected, nat)> {
    match tag_rule(s) {
        Err(e) => Err(e),
        Ok((t, n)) => if n == s.len() {
            Ok(t)
        } else {
            Err((Expected::EndOfInput, n))
        },
    }
}

/// The further attributes of a list stay within the text.
pub proof fn lemma_list_rest_within(s: Seq<char>)
    ensures
        list_rest(s).1 <= s.len(),
        list_rest(s).2 is Some ==> (list_rest(s).2->0).1 <= s.len(),
    decreases s.len(),
{
    if s.len() > 0 && s[0] == ',' {
        lemma_run_len_bound(s.drop_first(), CharClass::Space);
        let d = 1 + run_len(s.drop_first(), CharClass::Space);
        lemma_attribute_within(s.skip(d as int));
        if let Ok((kv, n)) = attribute_rule(s.skip(d as int)) {
            lemma_list_rest_within(s.skip((d + n) as int));
        }
    }
}

/// A list of attributes stays within the text.
pub proof fn lemma_list_within(s: Seq<char>)
    ensures
        list_rule(s).1 <= s.len(),
        list_rule(s).2 is Some ==> (list_rule(s).2->0).1 <= s.len(),
{
    lemma_attribute_within(s);
    if let Ok((kv, n)) = attribute_rule(s) {
        lemma_list_rest_within(s.skip(n as int));
    }
}

/// A tag stays within the text.
pub proof fn lemma_tag_within(s: Seq<char>)
    ensures
        within(tag_rule(s), s),
{
    if s.len() > 0 && s[0] == '<' {
        lemma_key_within(s.drop_first());
        if let Ok((name, n)) = key_rule(s.drop_first()) {
            lemma_list_within(s.skip(n + 2 as int));
        }
    }
}

/// The mapping that a sequence of pairs makes when inserted in order: a
/// later pair with the same key overwrites an earlier one.
pub open spec fn pairs_map(ps: Seq<PairChars>) -> Map<Seq<char>, Seq<char>>
    decreases ps.len(),
{
    if ps.len() == 0 {
        Map::empty()
    } else {
        pairs_map(ps.drop_last()).insert(ps.last().0, ps.last().1)
    }
}

/// `r` is the failure `e` of a rule.
pub open spec fn fails_as<T>(r: Result<T, SyntaxError>, e: (Expected, nat)) -> bool {
    &&& r is Err
    &&& r->Err_0.expected == e.0
    &&& r->Err_0.position == e.1
}

/// `r`, returned by a parser that went from `before` to `after`, is the
/// outcome `rule`: the same item and length, or the same failure with the
/// input left as it was.
pub open spec fn scanned<T: View>(
    r: Result<(T, usize), SyntaxError>,
    rule: Outcome<T::V>,
    before: Seq<char>,
    after: Seq<char>,
) -> bool {
    match rule {
        Ok((v, n)) => {
            &&& r is Ok
            &&& r->Ok_0.0@ == v
            &&& r->Ok_0.1 == n
            &&& after == before.skip(n as int)
        },
        Err(e) => fails_as(r, e) && after == before,
    }
}

/// `r`, returned by a parser that went from `before` to `after`, is the
/// outcome `rule`, without the length.
pub open spec fn parsed<T: View>(
    r: Result<T, SyntaxError>,
    rule: Outcome<T::V>,
    before: Seq<char>,
    after: Seq<char>,
) -> bool {
    match rule {
        Ok((v, n)) => {
            &&& r is Ok
            &&& r->Ok_0@ == v
            &&& after == before.skip(n as int)
        },
        Err(e) => fails_as(r, e) && after == before,
    }
}

/// `stop` is the failure at which a list stopped, if any.
pub open spec fn stopped_at(stop: Option<SyntaxError>, at: Option<(Expected, nat)>) -> bool {
    match at {
        None => stop is None,
        Some((e, p)) => stop is Some && stop->0.expected == e && stop->0.position == p,
    }
}

/// The outcome of a rule on `s` consumes no more than `s` and fails within it.
pub open spec fn within<T>(o: Outcome<T>, s: Seq<char>) -> bool {
    match o {
        Ok((_, n)) => n <= s.len(),
        Err((_, p)) => p <= s.len(),
    }
}

pub proof fn lemma_key_within(s: Seq<char>)
    ensures
        within(key_rule(s), s),
        key_rule(s) is Ok ==> key_rule(s)->Ok_0.1 > 0,
{
    lemma_run_len_bound(s, CharClass::Letter);
}

pub proof fn lemma_value_within(s: Seq<char>)
    ensures
        within(value_rule(s), s),
        value_rule(s) is Ok ==> value_rule(s)->Ok_0.1 > 0,
{
    if s.len() > 0 {
        lemma_run_len_bound(s.drop_first(), CharClass::Value);
    }
}

pub proof fn lemma_attribute_within(s: Seq<char>)
    ensures
        within(attribute_rule(s), s),
        attribute_rule(s) is Ok ==> attribute_rule(s)->Ok_0.1 > 0,
{
    lemma_key_within(s);
    if let Ok((k, a)) = key_rule(s) {
        lemma_run_len_bound(s.skip(a as int), CharClass::Space);
        let p = a + run_len(s.skip(a as int), CharClass::Space);
        if p < s.len() && s[p as int] == '=' {
            lemma_run_len_bound(s.skip(p + 1 as int), CharClass::Space);
            let q = p + 1 + run_len(s.skip(p + 1 as int), CharClass::Space);
            lemma_value_within(s.skip(q as int));
        }
    }
}

} // verus!
