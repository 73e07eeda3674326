//! What holds of the parser over all inputs: a tag written out from its parts
//! parses back to them, whitespace around `=` changes nothing, and the result
//! depends on the characters of the text alone.
use vstd::prelude::*;
use crate::attributes::{last_with_key, lemma_pairs_map_lookup};
use crate::grammar::{
    CharClass, Expected, PairChars, TagChars, attribute_rule, document_rule, key_rule,
    lemma_run_len, list_rest, list_rule, pairs_map, run_len, tag_rule, value_rule,
};

verus! {

/// Every character of `s` is of `class`.
pub open spec fn all_of(s: Seq<char>, class: CharClass) -> bool {
    forall|i: int| 0 <= i < s.len() ==> class.holds(#[trigger] s[i])
}

/// A pair whose key is one or more ASCII letters and whose value is one or
/// more value characters.
pub open spec fn well_formed_pair(kv: PairChars) -> bool {
    &&& kv.0.len() > 0
    &&& all_of(kv.0, CharClass::Letter)
    &&& kv.1.len() > 0
    &&& all_of(kv.1, CharClass::Value)
}

/// `key` `a` `=` `b` `"value"`: an attribute written out with whitespace `a`
/// before the `=` and `b` after it.
pub open spec fn write_attribute(kv: PairChars, a: Seq<char>, b: Seq<char>) -> Seq<char> {
    kv.0 + a + seq!['='] + b + seq!['"'] + kv.1 + seq!['"']
}

/// Attributes written out, each after a comma and whitespace `c`.
pub open spec fn write_further(qs: Seq<PairChars>, a: Seq<char>, b: Seq<char>, c: Seq<char>) -> Seq<char>
    decreases qs.len(),
{
    if qs.len() == 0 {
        seq![]
    } else {
        seq![','] + c + write_attribute(qs[0], a, b) + write_further(qs.drop_first(), a, b, c)
    }
}

/// A list of attributes written out, separated by a comma and whitespace `c`.
pub open spec fn write_list(ps: Seq<PairChars>, a: Seq<char>, b: Seq<char>, c: Seq<char>) -> Seq<char> {
    if ps.len() == 0 {
        seq![]
    } else {
        write_attribute(ps[0], a, b) + write_further(ps.drop_first(), a, b, c)
    }
}

/// `<name attributes>` written out.
pub open spec fn write_tag(
    name: Seq<char>,
    ps: Seq<PairChars>,
    a: Seq<char>,
    b: Seq<char>,
    c: Seq<char>,
) -> Seq<char> {
    seq!['<'] + name + seq![' '] + write_list(ps, a, b, c) + seq!['>']
}

proof fn lemma_run_concat(x: Seq<char>, y: Seq<char>, class: CharClass)
    requires
        all_of(x, class),
        y.len() == 0 || !class.holds(y[0]),
    ensures
        run_len(x + y, class) == x.len(),
{
    let s = x + y;
    assert forall|i: int| 0 <= i < x.len() implies class.holds(#[trigger] s[i]) by {
        assert(s[i] == x[i]);
    }
    if y.len() > 0 {
        assert(s[x.len() as int] == y[0]);
    }
    lemma_run_len(s, class, x.len());
}

proof fn lemma_key_concat(x: Seq<char>, y: Seq<char>)
    requires
        x.len() > 0,
        all_of(x, CharClass::Letter),
        y.len() == 0 || !CharClass::Letter.holds(y[0]),
    ensures
        key_rule(x + y) == Ok::<(Seq<char>, nat), (Expected, nat)>((x, x.len())),
{
    lemma_run_concat(x, y, CharClass::Letter);
    assert((x + y).take(x.len() as int) =~= x);
}

proof fn lemma_value_concat(v: Seq<char>, y: Seq<char>)
    requires
        v.len() > 0,
        all_of(v, CharClass::Value),
    ensures
        value_rule(seq!['"'] + v + seq!['"'] + y) == Ok::<(Seq<char>, nat), (Expected, nat)>(
            (v, v.len() + 2),
        ),
{
    let s = seq!['"'] + v + seq!['"'] + y;
    let t = seq!['"'] + y;
    assert(s.drop_first() =~= v + t);
    assert(t[0] == '"');
    lemma_run_concat(v, t, CharClass::Value);
    assert(s[v.len() + 1 as int] == '"');
    assert(s.subrange(1, v.len() + 1 as int) =~= v);
}

proof fn lemma_attribute_concat(kv: PairChars, a: Seq<char>, b: Seq<char>, y: Seq<char>)
    requires
        well_formed_pair(kv),
        all_of(a, CharClass::Space),
        all_of(b, CharClass::Space),
    ensures
        attribute_rule(write_attribute(kv, a, b) + y) == Ok::<(PairChars, nat), (Expected, nat)>(
            (kv, write_attribute(kv, a, b).len()),
        ),
{
    let (k, v) = kv;
    let s = write_attribute(kv, a, b) + y;
    let quoted = seq!['"'] + v + seq!['"'] + y;
    let eq_on = seq!['='] + (b + quoted);
    let after_key = a + eq_on;
    assert(s =~= k + after_key);
    assert(key_rule(s) == Ok::<(Seq<char>, nat), (Expected, nat)>((k, k.len()))) by {
        if a.len() > 0 {
            assert(after_key[0] == a[0]);
        } else {
            assert(after_key[0] == '=');
        }
        lemma_key_concat(k, after_key);
    }
    let p = (k.len() + a.len()) as int;
    assert(run_len(s.skip(k.len() as int), CharClass::Space) == a.len()) by {
        assert(s.skip(k.len() as int) =~= after_key);
        assert(eq_on[0] == '=');
        lemma_run_concat(a, eq_on, CharClass::Space);
    }
    assert(s[p] == '=') by {
        assert(s[p] == after_key[a.len() as int]);
    }
    assert(run_len(s.skip(p + 1), CharClass::Space) == b.len()) by {
        assert(s.skip(p + 1) =~= b + quoted);
        assert(quoted[0] == '"');
        lemma_run_concat(b, quoted, CharClass::Space);
    }
    let q = p + 1 + b.len() as int;
    assert(value_rule(s.skip(q)) == Ok::<(Seq<char>, nat), (Expected, nat)>((v, v.len() + 2))) by {
        assert(s.skip(q) =~= quoted);
        lemma_value_concat(v, y);
    }
    assert(write_attribute(kv, a, b).len() == q + v.len() + 2);
}

#[verifier::rlimit(80)]
proof fn lemma_further_concat(qs: Seq<PairChars>, a: Seq<char>, b: Seq<char>, c: Seq<char>, y: Seq<char>)
    requires
        forall|i: int| 0 <= i < qs.len() ==> well_formed_pair(#[trigger] qs[i]),
        all_of(a, CharClass::Space),
        all_of(b, CharClass::Space),
        all_of(c, CharClass::Space),
        y.len() == 0 || y[0] != ',',
    ensures
        list_rest(write_further(qs, a, b, c) + y) == (qs, write_further(qs, a, b, c).len(), None::<
            (Expected, nat),
        >),
    decreases qs.len(),
{
    let s = write_further(qs, a, b, c) + y;
    if qs.len() == 0 {
        assert(s =~= y);
        assert(qs =~= Seq::<PairChars>::empty());
    } else {
        let first = qs[0];
        let others = qs.drop_first();
        let attr = write_attribute(first, a, b);
        let more = write_further(others, a, b, c);
        let tail = attr + (more + y);
        let d = 1 + c.len() as int;
        assert(s =~= seq![','] + c + tail);
        assert(s[0] == ',');
        assert(well_formed_pair(first));
        assert(run_len(s.drop_first(), CharClass::Space) == c.len()) by {
            assert(s.drop_first() =~= c + tail);
            assert(tail[0] == first.0[0]);
            lemma_run_concat(c, tail, CharClass::Space);
        }
        assert(attribute_rule(s.skip(d)) == Ok::<(PairChars, nat), (Expected, nat)>(
            (first, attr.len()),
        )) by {
            assert(s.skip(d) =~= attr + (more + y));
            lemma_attribute_concat(first, a, b, more + y);
        }
        assert(list_rest(s.skip(d + attr.len() as int)) == (others, more.len(), None::<
            (Expected, nat),
        >)) by {
            assert forall|i: int| 0 <= i < others.len() implies well_formed_pair(
                #[trigger] others[i],
            ) by {
                assert(others[i] == qs[i + 1]);
            }
            lemma_further_concat(others, a, b, c, y);
            assert(s.skip(d + attr.len() as int) =~= more + y);
        }
        assert(seq![first] + others =~= qs);
    }
}

proof fn lemma_list_concat(ps: Seq<PairChars>, a: Seq<char>, b: Seq<char>, c: Seq<char>, y: Seq<char>)
    requires
        ps.len() > 0,
        forall|i: int| 0 <= i < ps.len() ==> well_formed_pair(#[trigger] ps[i]),
        all_of(a, CharClass::Space),
        all_of(b, CharClass::Space),
        all_of(c, CharClass::Space),
        y.len() == 0 || y[0] != ',',
    ensures
        list_rule(write_list(ps, a, b, c) + y) == (ps, write_list(ps, a, b, c).len(), None::<
            (Expected, nat),
        >),
{
    let attr = write_attribute(ps[0], a, b);
    let more = write_further(ps.drop_first(), a, b, c);
    let s = write_list(ps, a, b, c) + y;
    assert(s =~= attr + (more + y));
    assert(well_formed_pair(ps[0]));
    lemma_attribute_concat(ps[0], a, b, more + y);
    assert forall|i: int| 0 <= i < ps.drop_first().len() implies well_formed_pair(
        #[trigger] ps.drop_first()[i],
    ) by {
        assert(ps.drop_first()[i] == ps[i + 1]);
    }
    lemma_further_concat(ps.drop_first(), a, b, c, y);
    assert(s.skip(attr.len() as int) =~= more + y);
    assert(seq![ps[0]] + ps.drop_first() =~= ps);
}

/// A tag written out from a name of ASCII letters and a list of well-formed
/// attributes, with any whitespace before and after each `=` and after each
/// comma, parses back to that name and those pairs. Its attributes then map
/// exactly the keys of the pairs, each to the value of the last pair that has
/// it.
#[verifier::rlimit(80)]
pub proof fn law_written_tag_parses(
    name: Seq<char>,
    ps: Seq<PairChars>,
    a: Seq<char>,
    b: Seq<char>,
    c: Seq<char>,
)
    requires
        name.len() > 0,
        all_of(name, CharClass::Letter),
        forall|i: int| 0 <= i < ps.len() ==> well_formed_pair(#[trigger] ps[i]),
        all_of(a, CharClass::Space),
        all_of(b, CharClass::Space),
        all_of(c, CharClass::Space),
    ensures
        document_rule(write_tag(name, ps, a, b, c)) == Ok::<TagChars, (Expected, nat)>((name, ps)),
        forall|k: Seq<char>|
            #[trigger] pairs_map(ps).contains_key(k) <==> exists|i: int|
                0 <= i < ps.len() && (#[trigger] ps[i]).0 == k,
        forall|i: int|
            #[trigger] last_with_key(ps, ps[i].0, i) ==> pairs_map(ps)[ps[i].0] == ps[i].1,
{
    let list = write_list(ps, a, b, c);
    let s = write_tag(name, ps, a, b, c);
    let after_name = seq![' '] + list + seq!['>'];
    assert(s =~= seq!['<'] + (name + after_name));
    assert(s.drop_first() =~= name + after_name);
    assert(after_name[0] == ' ');
    lemma_key_concat(name, after_name);
    let n = name.len() as int;
    assert(s[n + 1] == ' ');
    assert(s.skip(n + 2) =~= list + seq!['>']);
    if ps.len() == 0 {
        assert(list + seq!['>'] =~= seq!['>']);
        assert(run_len(seq!['>'], CharClass::Letter) == 0);
        assert(s[n + 2] == '>');
        assert(ps =~= Seq::<PairChars>::empty());
    } else {
        lemma_list_concat(ps, a, b, c, seq!['>']);
        assert(s[n + 2 + list.len() as int] == '>');
    }
    assert(tag_rule(s) == Ok::<(TagChars, nat), (Expected, nat)>(((name, ps), s.len())));
    assert forall|k: Seq<char>| #[trigger] pairs_map(ps).contains_key(k) <==> exists|i: int|
        0 <= i < ps.len() && (#[trigger] ps[i]).0 == k by {
        lemma_pairs_map_lookup(ps, k);
    }
    assert forall|i: int| #[trigger] last_with_key(ps, ps[i].0, i) implies pairs_map(ps)[ps[i].0]
        == ps[i].1 by {
        lemma_pairs_map_lookup(ps, ps[i].0);
    }
}

/// Whitespace before and after the `=` of attributes does not change what a
/// tag parses to.
pub proof fn law_space_around_equals(
    name: Seq<char>,
    ps: Seq<PairChars>,
    a: Seq<char>,
    b: Seq<char>,
    c: Seq<char>,
)
    requires
        name.len() > 0,
        all_of(name, CharClass::Letter),
        forall|i: int| 0 <= i < ps.len() ==> well_formed_pair(#[trigger] ps[i]),
        all_of(a, CharClass::Space),
        all_of(b, CharClass::Space),
        all_of(c, CharClass::Space),
    ensures
        document_rule(write_tag(name, ps, a, b, c)) == document_rule(
            write_tag(name, ps, Seq::empty(), Seq::empty(), c),
        ),
{
    law_written_tag_parses(name, ps, a, b, c);
    law_written_tag_parses(name, ps, Seq::empty(), Seq::empty(), c);
}

/// Parsing depends on the characters of the text alone: two texts with the
/// same characters parse to the same outcome, however often they are parsed.
pub proof fn law_same_text_same_outcome(x: &str, y: &str)
    requires
        x@ == y@,
    ensures
        document_rule(x@) == document_rule(y@),
{
}

} // verus!
