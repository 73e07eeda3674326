//! The parsers of the pieces of an attribute: its key, its quoted value, and
//! the whole `key="value"`.
use vstd::prelude::*;
use crate::grammar::{
    CharClass, Expected, SyntaxError, attribute_rule, key_rule, lemma_key_within,
    lemma_run_len_bound, lemma_value_within, parsed, scanned, value_rule,
};
use crate::scan::{char_count_bytes, take_char, take_run};

verus! {

/// Takes a key from the front of `input`, with its length in characters.
pub(crate) fn scan_key<'i>(input: &mut &'i str) -> (r: Result<(&'i str, usize), SyntaxError>)
    ensures
        scanned(r, key_rule(old(input)@), old(input)@, final(input)@),
{
    let (key, n) = take_run(input, CharClass::Letter);
    if n == 0 {
        assert(input@ =~= old(input)@);
        return Err(SyntaxError { expected: Expected::Letters, position: 0 });
    }
    Ok((key, n))
}

/// Takes a quoted value from the front of `input`, with the number of
/// characters consumed, quotes included.
fn scan_value<'i>(input: &mut &'i str) -> (r: Result<(&'i str, usize), SyntaxError>)
    ensures
        scanned(r, value_rule(old(input)@), old(input)@, final(input)@),
{
    let start: &'i str = *input;
    char_count_bytes(start);
    if !take_char(input, '"') {
        return Err(SyntaxError { expected: Expected::OpeningQuote, position: 0 });
    }
    let (value, n) = take_run(input, CharClass::Value);
    proof {
        lemma_run_len_bound(start@.drop_first(), CharClass::Value);
        assert(start@.drop_first().take(n as int) =~= start@.subrange(1, n + 1));
        assert(start@.drop_first().skip(n as int) =~= start@.skip(n + 1));
    }
    if n == 0 {
        *input = start;
        return Err(SyntaxError { expected: Expected::ValueChars, position: 1 });
    }
    if !take_char(input, '"') {
        *input = start;
        return Err(SyntaxError { expected: Expected::ClosingQuote, position: n + 1 });
    }
    assert(input@ =~= start@.skip(n + 2));
    Ok((value, n + 2))
}

/// Takes a `key="value"` attribute from the front of `input`, with the number
/// of characters consumed.
pub(crate) fn scan_attribute<'i>(input: &mut &'i str) -> (r: Result<((&'i str, &'i str), usize), SyntaxError>)
    ensures
        scanned(r, attribute_rule(old(input)@), old(input)@, final(input)@),
{
    let start: &'i str = *input;
    let ghost s = start@;
    char_count_bytes(start);
    let (key, a) = match scan_key(input) {
        Ok(found) => found,
        Err(e) => return Err(e),
    };
    let (_, w1) = take_run(input, CharClass::Space);
    proof {
        lemma_key_within(s);
        lemma_run_len_bound(s.skip(a as int), CharClass::Space);
        assert(s.skip(a as int).skip(w1 as int) =~= s.skip(a + w1));
    }
    let p = a + w1;
    if !take_char(input, '=') {
        *input = start;
        return Err(SyntaxError { expected: Expected::Equals, position: p });
    }
    assert(input@ =~= s.skip(p + 1));
    let (_, w2) = take_run(input, CharClass::Space);
    proof {
        lemma_run_len_bound(s.skip(p + 1), CharClass::Space);
        assert(s.skip(p + 1).skip(w2 as int) =~= s.skip(p + 1 + w2));
    }
    let q = p + 1 + w2;
    proof {
        lemma_value_within(s.skip(q as int));
    }
    match scan_value(input) {
        Err(e) => {
            *input = start;
            Err(SyntaxError { expected: e.expected, position: q + e.position })
        },
        Ok((value, m)) => {
            assert(input@ =~= s.skip(q + m));
            Ok(((key, value), q + m))
        },
    }
}

/// Parses the key of an HTML attribute: one or more ASCII letters.
pub fn parse_key<'i>(input: &mut &'i str) -> (r: Result<&'i str, SyntaxError>)
    ensures
        parsed(r, key_rule(old(input)@), old(input)@, final(input)@),
{
    match scan_key(input) {
        Ok((key, _)) => Ok(key),
        Err(e) => Err(e),
    }
}

/// Parses the value of an HTML attribute: one or more letters, digits, `.`,
/// `/` or `:` between double quotes. Returns it without the quotes.
pub fn parse_val<'i>(input: &mut &'i str) -> (r: Result<&'i str, SyntaxError>)
    ensures
        parsed(r, value_rule(old(input)@), old(input)@, final(input)@),
{
    match scan_value(input) {
        Ok((value, _)) => Ok(value),
        Err(e) => Err(e),
    }
}

/// Parses an HTML attribute, which looks like `key="val"`, with optional
/// whitespace around the `=`.
pub fn parse_attribute<'i>(input: &mut &'i str) -> (r: Result<(&'i str, &'i str), SyntaxError>)
    ensures
        parsed(r, attribute_rule(old(input)@), old(input)@, final(input)@),
{
    match scan_attribute(input) {
        Ok((pair, _)) => Ok(pair),
        Err(e) => Err(e),
    }
}

} // verus!
