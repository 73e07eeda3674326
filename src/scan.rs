//! Scanners over borrowed text: runs of one class of characters, and single
//! literal characters.
use vstd::prelude::*;
use vstd::utf8::*;
use crate::grammar::{
    CharClass, is_ascii_digit, is_ascii_letter, lemma_run_len, run_len, unicode_alphanumeric,
};
use crate::text::{
    first_char, lemma_encode_concat, lemma_encode_len, lemma_encode_one, split_after, utf8_width,
};

verus! {

/// Relies on `char::is_alphanumeric`, whose result depends on the character
/// alone; on ASCII it accepts exactly the letters and the digits.
#[verifier::external_body]
fn alphanumeric(c: char) -> (r: bool)
    ensures
        r == unicode_alphanumeric(c),
        (c as u32) < 0x80 ==> (r <==> (is_ascii_letter(c) || is_ascii_digit(c))),
{
    c.is_alphanumeric()
}

impl CharClass {
    /// Whether `c` belongs to this class.
    pub fn contains(self, c: char) -> (r: bool)
        ensures
            r == self.holds(c),
    {
        match self {
            CharClass::Letter => ('a' <= c && c <= 'z') || ('A' <= c && c <= 'Z'),
            CharClass::Space => c == ' ' || c == '\t' || c == '\r' || c == '\n',
            CharClass::Value => alphanumeric(c) || c == '.' || c == '/' || c == ':',
        }
    }
}

/// Takes the longest run of characters of `class` from the front of `input`,
/// and returns it with its length in characters.
pub fn take_run<'i>(input: &mut &'i str, class: CharClass) -> (r: (&'i str, usize))
    ensures
        r.1 == run_len(old(input)@, class),
        r.0@ == old(input)@.take(r.1 as int),
        final(input)@ == old(input)@.skip(r.1 as int),
{
    let s: &'i str = *input;
    char_count_bytes(s);
    let mut rest: &'i str = s;
    let mut n: usize = 0;
    let mut b: usize = 0;
    loop
        invariant
            n <= s@.len(),
            rest@ == s@.skip(n as int),
            b == encode_utf8(s@.take(n as int)).len(),
            encode_utf8(s@).len() <= usize::MAX,
            s@.len() <= usize::MAX,
            forall|i: int| 0 <= i < n ==> class.holds(#[trigger] s@[i]),
        ensures
            n <= s@.len(),
            rest@ == s@.skip(n as int),
            b == encode_utf8(s@.take(n as int)).len(),
            forall|i: int| 0 <= i < n ==> class.holds(#[trigger] s@[i]),
            n == s@.len() || !class.holds(s@[n as int]),
        decreases s@.len() - n,
    {
        let c = match first_char(rest) {
            None => break,
            Some(c) => c,
        };
        if !class.contains(c) {
            break;
        }
        let w = utf8_width(c);
        proof {
            assert(rest@.take(1) =~= seq![c]);
            let a = s@.take(n as int);
            let t = s@.take(n + 1);
            assert(t =~= a + seq![c]);
            lemma_encode_concat(a, seq![c]);
            lemma_encode_one(c);
            lemma_encode_concat(t, s@.skip(n + 1));
            assert(s@ =~= t + s@.skip(n + 1));
        }
        let parts = split_after(rest, Ghost(1), w);
        rest = parts.1;
        n = n + 1;
        b = b + w;
        assert(rest@ =~= s@.skip(n as int));
    }
    proof {
        lemma_run_len(s@, class, n as nat);
    }
    let parts = split_after(s, Ghost(n as nat), b);
    *input = rest;
    (parts.0, n)
}

/// The bytes of a text, and so its characters, are countable in a `usize`.
pub(crate) fn char_count_bytes(s: &str)
    ensures
        encode_utf8(s@).len() <= usize::MAX,
        s@.len() <= usize::MAX,
{
    let bytes = s.as_bytes();
    let _n = bytes.len();
    proof {
        lemma_encode_len(s@);
    }
}

/// Takes the character `c` from the front of `input` if it stands there, and
/// says whether it did.
pub fn take_char(input: &mut &str, c: char) -> (r: bool)
    ensures
        r == (old(input)@.len() > 0 && old(input)@[0] == c),
        r ==> final(input)@ == old(input)@.drop_first(),
        !r ==> final(input)@ == old(input)@,
{
    match first_char(*input) {
        Some(d) => {
            if d == c {
                let w = utf8_width(c);
                proof {
                    let s = input@;
                    assert(s.take(1) =~= seq![c]);
                    lemma_encode_one(c);
                }
                let parts = split_after(*input, Ghost(1), w);
                *input = parts.1;
                assert(input@ =~= old(input)@.drop_first());
                true
            } else {
                false
            }
        },
        None => false,
    }
}

} // verus!
