//! Lists of attributes and whole open tags.
use vstd::prelude::*;
use crate::attributes::Attributes;
use crate::grammar::{
    CharClass, Expected, PairChars, SyntaxError, document_rule, fails_as, lemma_attribute_within,
    lemma_key_within, lemma_list_within, lemma_run_len_bound, lemma_tag_within, list_rest,
    list_rule, pairs_map, shifted, stopped_at, tag_rule,
};
use crate::parse::{scan_attribute, scan_key};
use crate::scan::{char_count_bytes, take_char, take_run};
use crate::text::same_text;

verus! {

/// Takes a list of attributes from the front of `input`. Returns them with the
/// number of characters consumed and the failure of the attribute at which the
/// list stopped, if it stopped at one.
fn scan_attributes<'i>(input: &mut &'i str) -> (r: (Attributes<'i>, usize, Option<SyntaxError>))
    ensures
        r.0@ == pairs_map(list_rule(old(input)@).0),
        r.1 == list_rule(old(input)@).1,
        stopped_at(r.2, list_rule(old(input)@).2),
        final(input)@ == old(input)@.skip(r.1 as int),
{
    let start: &'i str = *input;
    let ghost s = start@;
    char_count_bytes(start);
    proof {
        lemma_attribute_within(s);
    }
    let mut attrs = Attributes::new();
    let ((key, value), n) = match scan_attribute(input) {
        Ok(found) => found,
        Err(e) => {
            assert(input@ =~= s.skip(0));
            assert(pairs_map(Seq::<PairChars>::empty()) == Map::<Seq<char>, Seq<char>>::empty());
            return (attrs, 0, Some(e));
        },
    };
    attrs.insert(key, value);
    let ghost mut pairs: Seq<PairChars> = seq![(key@, value@)];
    proof {
        assert(pairs.drop_last() =~= Seq::<PairChars>::empty());
        assert(pairs_map(pairs.drop_last()) == Map::<Seq<char>, Seq<char>>::empty());
        assert(pairs_map(pairs) == Map::<Seq<char>, Seq<char>>::empty().insert(key@, value@));
    }
    let mut consumed: usize = n;
    loop
        invariant
            s == old(input)@,
            consumed <= s.len() <= usize::MAX,
            input@ == s.skip(consumed as int),
            attrs@ == pairs_map(pairs),
            pairs + list_rest(s.skip(consumed as int)).0 == list_rule(s).0,
            consumed + list_rest(s.skip(consumed as int)).1 == list_rule(s).1,
            shifted(list_rest(s.skip(consumed as int)).2, consumed as nat) == list_rule(s).2,
        decreases s.len() - consumed,
    {
        let ghost t = input@;
        let save: &'i str = *input;
        if !take_char(input, ',') {
            assert(t == s.skip(consumed as int));
            assert(list_rest(t) == (Seq::<PairChars>::empty(), 0nat, None::<(Expected, nat)>));
            assert(pairs + Seq::<PairChars>::empty() =~= pairs);
            return (attrs, consumed, None);
        }
        let (_, w) = take_run(input, CharClass::Space);
        proof {
            lemma_run_len_bound(t.drop_first(), CharClass::Space);
            assert(t.drop_first().skip(w as int) =~= t.skip(1 + w));
        }
        let d = 1 + w;
        proof {
            lemma_attribute_within(t.skip(d as int));
        }
        match scan_attribute(input) {
            Err(e) => {
                *input = save;
                assert(pairs + Seq::<PairChars>::empty() =~= pairs);
                return (
                    attrs,
                    consumed,
                    Some(SyntaxError { expected: e.expected, position: consumed + d + e.position }),
                );
            },
            Ok(((key, value), m)) => {
                attrs.insert(key, value);
                proof {
                    let kv = (key@, value@);
                    let rest = list_rest(t.skip(d + m));
                    assert(t.skip(d + m) =~= s.skip(consumed + d + m));
                    assert(pairs.push(kv).drop_last() =~= pairs);
                    assert(pairs + (seq![kv] + rest.0) =~= pairs.push(kv) + rest.0);
                    pairs = pairs.push(kv);
                }
                consumed = consumed + d + m;
                assert(input@ =~= s.skip(consumed as int));
            },
        }
    }
}

impl<'i> Attributes<'i> {
    /// Parses a list of attributes, `key="value"` separated by a comma and
    /// optional whitespace, from the front of `input`. It stops before the
    /// first comma that no attribute follows, and never fails: with no
    /// attribute at the front, the list is empty.
    pub fn parse(input: &mut &'i str) -> (r: Result<Attributes<'i>, SyntaxError>)
        ensures
            r is Ok,
            r->Ok_0@ == pairs_map(list_rule(old(input)@).0),
            final(input)@ == old(input)@.skip(list_rule(old(input)@).1 as int),
    {
        let (attrs, _, _) = scan_attributes(input);
        Ok(attrs)
    }
}

/// An HTML open tag, like `<a href="google.com">`: its name and attributes,
/// borrowed from the parsed text.
#[derive(Debug)]
pub struct Tag<'i> {
    /// Like `div`.
    tag_type: &'i str,
    attributes: Attributes<'i>,
}

impl<'i> View for Tag<'i> {
    type V = (Seq<char>, Map<Seq<char>, Seq<char>>);

    closed spec fn view(&self) -> (Seq<char>, Map<Seq<char>, Seq<char>>) {
        (self.tag_type@, self.attributes@)
    }
}

impl<'i> Tag<'i> {
    /// A tag with the given name and attributes.
    pub fn new(tag_type: &'i str, attributes: Attributes<'i>) -> (r: Tag<'i>)
        ensures
            r@ == (tag_type@, attributes@),
    {
        Tag { tag_type, attributes }
    }

    /// The tag's name.
    pub fn tag_type(&self) -> (r: &'i str)
        ensures
            r@ == self@.0,
    {
        self.tag_type
    }

    /// The tag's attributes.
    pub fn attributes(&self) -> (r: &Attributes<'i>)
        ensures
            r@ == self@.1,
    {
        &self.attributes
    }

    /// Parses an open tag, `<name attributes>`, from the front of `input`. A
    /// single space must follow the name, also where no attribute does. On
    /// failure `input` is left as it was.
    #[verifier::rlimit(40)]
    pub fn parse(input: &mut &'i str) -> (r: Result<Tag<'i>, SyntaxError>)
        ensures
            match tag_rule(old(input)@) {
                Ok((t, n)) => {
                    &&& r is Ok
                    &&& r->Ok_0@ == (t.0, pairs_map(t.1))
                    &&& final(input)@ == old(input)@.skip(n as int)
                },
                Err(e) => fails_as(r, e) && final(input)@ == old(input)@,
            },
    {
        let start: &'i str = *input;
        let ghost s = start@;
        char_count_bytes(start);
        if !take_char(input, '<') {
            return Err(SyntaxError { expected: Expected::OpenAngle, position: 0 });
        }
        proof {
            lemma_key_within(s.drop_first());
        }
        let (tag_type, n) = match scan_key(input) {
            Ok(found) => found,
            Err(e) => {
                *input = start;
                return Err(SyntaxError { expected: e.expected, position: e.position + 1 });
            },
        };
        assert(input@ =~= s.skip(n + 1));
        if !take_char(input, ' ') {
            *input = start;
            return Err(SyntaxError { expected: Expected::Space, position: n + 1 });
        }
        assert(input@ =~= s.skip(n + 2));
        proof {
            lemma_list_within(s.skip(n + 2));
        }
        let (attributes, m, stop) = scan_attributes(input);
        assert(input@ =~= s.skip(n + 2 + m));
        if take_char(input, '>') {
            assert(input@ =~= s.skip(n + 3 + m));
            Ok(Tag { tag_type, attributes })
        } else {
            *input = start;
            match stop {
                Some(e) => Err(SyntaxError { expected: e.expected, position: n + 2 + e.position }),
                None => Err(SyntaxError { expected: Expected::CloseAngle, position: n + 2 + m }),
            }
        }
    }
}

/// Parses `input` as one open tag with nothing after it.
pub fn parse_tag<'i>(input: &'i str) -> (r: Result<Tag<'i>, SyntaxError>)
    ensures
        match document_rule(input@) {
            Ok(t) => r is Ok && r->Ok_0@ == (t.0, pairs_map(t.1)),
            Err(e) => fails_as(r, e),
        },
{
    let mut rest: &'i str = input;
    char_count_bytes(input);
    let tag = Tag::parse(&mut rest)?;
    if rest.is_empty() {
        Ok(tag)
    } else {
        proof {
            lemma_tag_within(input@);
        }
        let ghost n = tag_rule(input@)->Ok_0.1;
        assert(rest@.len() == input@.len() - n);
        Err(SyntaxError { expected: Expected::EndOfInput, position: input.unicode_len() - rest.unicode_len() })
    }
}

impl<'i> PartialEq for Tag<'i> {
    fn eq(&self, other: &Tag<'i>) -> (r: bool) {
        same_text(self.tag_type, other.tag_type) && self.attributes == other.attributes
    }
}

impl<'i> vstd::std_specs::cmp::PartialEqSpecImpl for Tag<'i> {
    open spec fn obeys_eq_spec() -> bool {
        true
    }

    open spec fn eq_spec(&self, other: &Tag<'i>) -> bool {
        self@ == other@
    }
}

} // verus!
