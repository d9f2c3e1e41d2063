//! The binary format of a rule set.
//!
//! ```text
//! rules  = number { term term }      the number of rules; pattern, replacement
//! term   = 0 name                    an atom
//!        | 1 name number             a variable and its generation
//!        | 2 name number { term }    a functor, the number of arguments, the arguments
//! name   = number { byte }           the number of bytes, the bytes
//! number = 8 bytes, least significant first
//! ```
//!
//! A byte string decodes to rules when it is the encoding of rules from its
//! first byte to its last, with compound terms nested at most `MAX_DEPTH`
//! deep.

use crate::parse::MAX_DEPTH;
use crate::term::{lemma_argument_decreases, lemma_view_compound, rule_views, term_views, Rule, RuleView, Term, TermView, VarView, Variable};
use vstd::bytes::{
    lemma_auto_spec_u64_to_from_le_bytes, spec_u64_from_le_bytes, spec_u64_to_le_bytes,
    u64_from_le_bytes, u64_to_le_bytes,
};
use vstd::prelude::*;
use vstd::slice::slice_subrange;

verus! {

/// A name, encoded.
pub open spec fn encode_name(name: Seq<u8>) -> Seq<u8> {
    spec_u64_to_le_bytes(name.len() as u64) + name
}

/// A term, encoded.
pub open spec fn encode_term(t: TermView) -> Seq<u8>
    decreases t, 0nat,
{
    match t {
        TermView::Atom(name) => seq![0u8] + encode_name(name),
        TermView::Var(v) => seq![1u8] + encode_name(v.name) + spec_u64_to_le_bytes(v.generation),
        TermView::Compound(f, args) => seq![2u8] + encode_name(f) + spec_u64_to_le_bytes(
            args.len() as u64,
        ) + encode_terms(args, 0),
    }
}

/// The terms from index `from` on, encoded one after the other.
pub open spec fn encode_terms(ts: Seq<TermView>, from: int) -> Seq<u8>
    decreases ts, ts.len() - from,
{
    if from < 0 || from >= ts.len() {
        Seq::empty()
    } else {
        encode_term(ts[from]) + encode_terms(ts, from + 1)
    }
}

/// A rule, encoded: its pattern, then its replacement.
pub open spec fn encode_rule(r: RuleView) -> Seq<u8> {
    encode_term(r.pattern) + encode_term(r.replacement)
}

/// The rules from index `from` on, encoded one after the other.
pub open spec fn encode_rule_list(rs: Seq<RuleView>, from: int) -> Seq<u8>
    decreases rs.len() - from,
{
    if from < 0 || from >= rs.len() {
        Seq::empty()
    } else {
        encode_rule(rs[from]) + encode_rule_list(rs, from + 1)
    }
}

/// A rule set, encoded.
pub open spec fn encode_rules(rs: Seq<RuleView>) -> Seq<u8> {
    spec_u64_to_le_bytes(rs.len() as u64) + encode_rule_list(rs, 0)
}

/// The number in the eight bytes at `pos`, if there are eight.
pub open spec fn number_at(s: Seq<u8>, pos: int) -> Option<u64> {
    if 0 <= pos && pos + 8 <= s.len() {
        Some(spec_u64_from_le_bytes(s.subrange(pos, pos + 8)))
    } else {
        None
    }
}

/// The name encoded at `pos`, with the number of bytes that its encoding
/// takes.
pub open spec fn name_at(s: Seq<u8>, pos: int) -> Option<(Seq<u8>, nat)> {
    match number_at(s, pos) {
        None => None,
        Some(n) => if pos + 8 + n <= s.len() {
            Some((s.subrange(pos + 8, pos + 8 + n), (8 + n) as nat))
        } else {
            None
        },
    }
}

/// The term encoded at `pos`, with the number of bytes that its encoding
/// takes, where compound terms may nest `depth` deep.
pub open spec fn term_at(s: Seq<u8>, pos: int, depth: nat) -> Option<(TermView, nat)>
    decreases depth, 0nat,
{
    if pos < 0 || pos >= s.len() {
        None
    } else if s[pos] == 0 {
        match name_at(s, pos + 1) {
            None => None,
            Some((name, used)) => Some((TermView::Atom(name), 1 + used)),
        }
    } else if s[pos] == 1 {
        match name_at(s, pos + 1) {
            None => None,
            Some((name, used)) => match number_at(s, pos + 1 + used) {
                None => None,
                Some(generation) => Some(
                    (TermView::Var(VarView { name, generation }), 1 + used + 8),
                ),
            },
        }
    } else if s[pos] == 2 {
        match name_at(s, pos + 1) {
            None => None,
            Some((name, used)) => match number_at(s, pos + 1 + used) {
                None => None,
                Some(count) => if depth == 0 {
                    None
                } else {
                    match terms_at(
                        s,
                        pos + 1 + used + 8,
                        count as nat,
                        (depth - 1) as nat,
                        Seq::empty(),
                    ) {
                        None => None,
                        Some((args, more)) => Some(
                            (TermView::Compound(name, args), 1 + used + 8 + more),
                        ),
                    }
                },
            },
        }
    } else {
        None
    }
}

/// The `count` terms encoded one after the other from `pos` on, behind the
/// terms `before`, with the number of bytes that their encodings take.
pub open spec fn terms_at(s: Seq<u8>, pos: int, count: nat, depth: nat, before: Seq<TermView>) -> Option<
    (Seq<TermView>, nat),
>
    decreases depth, 1 + count,
{
    if count == 0 {
        Some((before, 0))
    } else {
        match term_at(s, pos, depth) {
            None => None,
            Some((t, used)) => match terms_at(
                s,
                pos + used,
                (count - 1) as nat,
                depth,
                before.push(t),
            ) {
                None => None,
                Some((all, more)) => Some((all, used + more)),
            },
        }
    }
}

/// The `count` rules encoded one after the other from `pos` on, behind the
/// rules `before`, with the number of bytes that their encodings take.
pub open spec fn rules_at(s: Seq<u8>, pos: int, count: nat, before: Seq<RuleView>) -> Option<
    (Seq<RuleView>, nat),
>
    decreases count,
{
    if count == 0 {
        Some((before, 0))
    } else {
        match term_at(s, pos, MAX_DEPTH as nat) {
            None => None,
            Some((pattern, used)) => match term_at(s, pos + used, MAX_DEPTH as nat) {
                None => None,
                Some((replacement, more)) => match rules_at(
                    s,
                    pos + used + more,
                    (count - 1) as nat,
                    before.push(RuleView { pattern, replacement }),
                ) {
                    None => None,
                    Some((all, rest)) => Some((all, used + more + rest)),
                },
            },
        }
    }
}

/// The rule set that the bytes encode, if they encode one from the first
/// byte to the last.
pub open spec fn decode_rules(s: Seq<u8>) -> Option<Seq<RuleView>> {
    match number_at(s, 0) {
        None => None,
        Some(count) => match rules_at(s, 8, count as nat, Seq::empty()) {
            None => None,
            Some((rules, used)) => if 8 + used == s.len() {
                Some(rules)
            } else {
                None
            },
        },
    }
}

/// Whether a term can be stored and read back: its names and argument
/// lists are short enough for their lengths to be written, and its compound
/// terms nest at most `depth` deep.
pub open spec fn storable(t: TermView, depth: nat) -> bool
    decreases t,
{
    match t {
        TermView::Atom(name) => name.len() <= u64::MAX,
        TermView::Var(v) => v.name.len() <= u64::MAX,
        TermView::Compound(f, args) => f.len() <= u64::MAX && args.len() <= u64::MAX && depth > 0
            && forall|i: int|
            0 <= i < args.len() ==> storable(#[trigger] args[i], (depth - 1) as nat),
    }
}

/// Where `s` holds `whole` at `pos`, it holds each part of `whole` at the
/// part's place.
proof fn lemma_part(s: Seq<u8>, pos: int, whole: Seq<u8>, at: int, part: Seq<u8>)
    requires
        0 <= pos,
        pos + whole.len() <= s.len(),
        s.subrange(pos, pos + whole.len()) == whole,
        0 <= at,
        at + part.len() <= whole.len(),
        whole.subrange(at, at + part.len()) == part,
    ensures
        s.subrange(pos + at, pos + at + part.len()) == part,
{
    assert forall|i: int| 0 <= i < part.len() implies s[pos + at + i] == part[i] by {
        assert(s.subrange(pos, pos + whole.len())[at + i] == whole[at + i]);
        assert(whole.subrange(at, at + part.len())[i] == part[i]);
    }
    assert(s.subrange(pos + at, pos + at + part.len()) =~= part);
}

/// A number that was written is the number that is read.
proof fn lemma_number_at(s: Seq<u8>, pos: int, n: u64)
    requires
        0 <= pos,
        pos + 8 <= s.len(),
        s.subrange(pos, pos + 8) == spec_u64_to_le_bytes(n),
    ensures
        number_at(s, pos) == Some(n),
{
    lemma_auto_spec_u64_to_from_le_bytes();
}

/// A name that was written is the name that is read.
proof fn lemma_name_at(s: Seq<u8>, pos: int, name: Seq<u8>)
    requires
        0 <= pos,
        name.len() <= u64::MAX,
        pos + encode_name(name).len() <= s.len(),
        s.subrange(pos, pos + encode_name(name).len()) == encode_name(name),
    ensures
        encode_name(name).len() == 8 + name.len(),
        name_at(s, pos) == Some((name, (8 + name.len()) as nat)),
{
    lemma_auto_spec_u64_to_from_le_bytes();
    let number = spec_u64_to_le_bytes(name.len() as u64);
    let whole = encode_name(name);
    let n = name.len() as int;
    assert(whole.subrange(0, 8) =~= number);
    assert(whole.subrange(8, 8 + n) =~= name);
    lemma_part(s, pos, whole, 0, number);
    lemma_part(s, pos, whole, 8, name);
    lemma_number_at(s, pos, name.len() as u64);
}

/// A term that was written is the term that is read: where `s` holds the
/// encoding of a storable term at `pos`, that term is decoded there, and
/// its encoding is what the decoding takes.
#[verifier::rlimit(40)]
pub proof fn lemma_term_at(s: Seq<u8>, pos: int, t: TermView, depth: nat)
    requires
        0 <= pos,
        storable(t, depth),
        pos + encode_term(t).len() <= s.len(),
        s.subrange(pos, pos + encode_term(t).len()) == encode_term(t),
    ensures
        term_at(s, pos, depth) == Some((t, encode_term(t).len())),
    decreases t, (if t is Compound { t->Compound_1.len() + 1 } else { 0 }),
{
    lemma_auto_spec_u64_to_from_le_bytes();
    let whole = encode_term(t);
    match t {
        TermView::Atom(name) => {
            let coded = encode_name(name);
            let c = coded.len() as int;
            assert(whole.subrange(1, 1 + c) =~= coded);
            assert(s.subrange(pos, pos + whole.len())[0] == whole[0]);
            lemma_part(s, pos, whole, 1, coded);
            lemma_name_at(s, pos + 1, name);
        },
        TermView::Var(v) => {
            let coded = encode_name(v.name);
            let number = spec_u64_to_le_bytes(v.generation);
            let c = coded.len() as int;
            assert(whole.subrange(1, 1 + c) =~= coded);
            assert(whole.subrange(1 + c, 1 + c + 8) =~= number);
            assert(s.subrange(pos, pos + whole.len())[0] == whole[0]);
            lemma_part(s, pos, whole, 1, coded);
            lemma_part(s, pos, whole, 1 + c, number);
            lemma_name_at(s, pos + 1, v.name);
            lemma_number_at(s, pos + 1 + c, v.generation);
        },
        TermView::Compound(f, args) => {
            let coded = encode_name(f);
            let number = spec_u64_to_le_bytes(args.len() as u64);
            let rest = encode_terms(args, 0);
            let c = coded.len() as int;
            let r = rest.len() as int;
            assert(whole == seq![2u8] + coded + number + rest);
            assert(whole.subrange(1, 1 + c) =~= coded);
            assert(whole.subrange(1 + c, 1 + c + 8) =~= number);
            assert(whole.subrange(1 + c + 8, 1 + c + 8 + r) =~= rest);
            assert(s.subrange(pos, pos + whole.len())[0] == whole[0]);
            lemma_part(s, pos, whole, 1, coded);
            lemma_part(s, pos, whole, 1 + c, number);
            lemma_part(s, pos, whole, 1 + c + 8, rest);
            lemma_name_at(s, pos + 1, f);
            lemma_number_at(s, pos + 1 + c, args.len() as u64);
            assert(args.take(0) =~= Seq::<TermView>::empty());
            lemma_terms_at(s, pos + 1 + c + 8, t, 0, (depth - 1) as nat);
        },
    }
}

/// The same, for the arguments of a compound term from index `from` on.
proof fn lemma_terms_at(s: Seq<u8>, pos: int, t: TermView, from: int, depth: nat)
    requires
        t is Compound,
        0 <= pos,
        0 <= from <= t->Compound_1.len(),
        forall|i: int|
            0 <= i < t->Compound_1.len() ==> storable(#[trigger] t->Compound_1[i], depth),
        pos + encode_terms(t->Compound_1, from).len() <= s.len(),
        s.subrange(pos, pos + encode_terms(t->Compound_1, from).len()) == encode_terms(
            t->Compound_1,
            from,
        ),
    ensures
        terms_at(
            s,
            pos,
            (t->Compound_1.len() - from) as nat,
            depth,
            t->Compound_1.take(from),
        ) == Some((t->Compound_1, encode_terms(t->Compound_1, from).len())),
    decreases t, t->Compound_1.len() - from,
{
    let ts = t->Compound_1;
    if from < ts.len() {
        let whole = encode_terms(ts, from);
        let one = encode_term(ts[from]);
        let rest = encode_terms(ts, from + 1);
        let o = one.len() as int;
        let r = rest.len() as int;
        assert(whole.subrange(0, o) =~= one);
        assert(whole.subrange(o, o + r) =~= rest);
        lemma_part(s, pos, whole, 0, one);
        lemma_part(s, pos, whole, o, rest);
        lemma_term_at(s, pos, ts[from], depth);
        assert(ts.take(from).push(ts[from]) =~= ts.take(from + 1));
        lemma_terms_at(s, pos + one.len(), t, from + 1, depth);
    } else {
        assert(ts.take(from) =~= ts);
    }
}

/// The same, for the rules of a rule set from index `from` on.
#[verifier::rlimit(40)]
proof fn lemma_rules_at(s: Seq<u8>, pos: int, rs: Seq<RuleView>, from: int)
    requires
        0 <= pos,
        0 <= from <= rs.len(),
        forall|i: int|
            0 <= i < rs.len() ==> storable((#[trigger] rs[i]).pattern, MAX_DEPTH as nat)
                && storable(rs[i].replacement, MAX_DEPTH as nat),
        pos + encode_rule_list(rs, from).len() <= s.len(),
        s.subrange(pos, pos + encode_rule_list(rs, from).len()) == encode_rule_list(rs, from),
    ensures
        rules_at(s, pos, (rs.len() - from) as nat, rs.take(from)) == Some(
            (rs, encode_rule_list(rs, from).len()),
        ),
    decreases rs.len() - from,
{
    if from < rs.len() {
        let whole = encode_rule_list(rs, from);
        let pattern = encode_term(rs[from].pattern);
        let replacement = encode_term(rs[from].replacement);
        let rest = encode_rule_list(rs, from + 1);
        let p = pattern.len() as int;
        let q = replacement.len() as int;
        let r = rest.len() as int;
        assert(whole =~= pattern + replacement + rest);
        assert(whole.subrange(0, p) =~= pattern);
        assert(whole.subrange(p, p + q) =~= replacement);
        assert(whole.subrange(p + q, p + q + r) =~= rest);
        lemma_part(s, pos, whole, 0, pattern);
        lemma_part(s, pos, whole, p, replacement);
        lemma_part(s, pos, whole, p + q, rest);
        lemma_term_at(s, pos, rs[from].pattern, MAX_DEPTH as nat);
        lemma_term_at(s, pos + pattern.len(), rs[from].replacement, MAX_DEPTH as nat);
        assert(rs.take(from).push(rs[from]) =~= rs.take(from + 1));
        lemma_rules_at(s, pos + pattern.len() + replacement.len(), rs, from + 1);
    } else {
        assert(rs.take(from) =~= rs);
    }
}

/// The format round-trips: a rule set of storable terms, once encoded,
/// decodes to itself.
pub proof fn lemma_round_trip(rs: Seq<RuleView>)
    requires
        rs.len() <= u64::MAX,
        forall|i: int|
            0 <= i < rs.len() ==> storable((#[trigger] rs[i]).pattern, MAX_DEPTH as nat)
                && storable(rs[i].replacement, MAX_DEPTH as nat),
    ensures
        decode_rules(encode_rules(rs)) == Some(rs),
{
    lemma_auto_spec_u64_to_from_le_bytes();
    let s = encode_rules(rs);
    let number = spec_u64_to_le_bytes(rs.len() as u64);
    let rest = encode_rule_list(rs, 0);
    let r = rest.len() as int;
    assert(s.subrange(0, s.len() as int) =~= s);
    assert(s.subrange(0, 8) =~= number);
    assert(s.subrange(8, 8 + r) =~= rest);
    lemma_number_at(s, 0, rs.len() as u64);
    assert(rs.take(0) =~= Seq::<RuleView>::empty());
    lemma_rules_at(s, 8, rs, 0);
}

/// Appends the bytes of `bytes` to `out`.
fn push_bytes(out: &mut Vec<u8>, bytes: &Vec<u8>)
    ensures
        final(out)@ == old(out)@ + bytes@,
{
    let mut i: usize = 0;
    while i < bytes.len()
        invariant
            i <= bytes.len(),
            out@ == old(out)@ + bytes@.take(i as int),
        decreases bytes.len() - i,
    {
        out.push(bytes[i]);
        assert(out@ =~= old(out)@ + bytes@.take(i + 1));
        i += 1;
    }
    assert(bytes@.take(i as int) =~= bytes@);
}

/// Appends a number to `out`.
fn push_number(out: &mut Vec<u8>, n: u64)
    ensures
        final(out)@ == old(out)@ + spec_u64_to_le_bytes(n),
{
    let bytes = u64_to_le_bytes(n);
    push_bytes(out, &bytes);
}

/// Appends a name to `out`.
fn push_name(out: &mut Vec<u8>, name: &Vec<u8>)
    ensures
        final(out)@ == old(out)@ + encode_name(name@),
{
    push_number(out, name.len() as u64);
    push_bytes(out, name);
    assert(out@ =~= old(out)@ + encode_name(name@));
}

/// Appends a term, encoded, to `out`.
pub fn push_term(out: &mut Vec<u8>, t: &Term)
    ensures
        final(out)@ == old(out)@ + encode_term(t@),
    decreases t,
{
    match t {
        Term::Atom(name) => {
            out.push(0u8);
            push_name(out, name);
            assert(out@ =~= old(out)@ + encode_term(t@));
        },
        Term::Var(v) => {
            out.push(1u8);
            push_name(out, &v.name);
            push_number(out, v.generation);
            assert(out@ =~= old(out)@ + encode_term(t@));
        },
        Term::Compound(f, args) => {
            proof {
                lemma_view_compound(*f, *args);
                assert(t@->Compound_0 == f@);
                assert(t@->Compound_1 == term_views(args@));
            }
            out.push(2u8);
            push_name(out, f);
            push_number(out, args.len() as u64);
            let ghost whole = out@ + encode_terms(term_views(args@), 0);
            assert(whole =~= old(out)@ + encode_term(t@));
            let mut i: usize = 0;
            while i < args.len()
                invariant
                    i <= args.len(),
                    *t == Term::Compound(*f, *args),
                    out@ + encode_terms(term_views(args@), i as int) == whole,
                decreases args.len() - i,
            {
                let ghost before = out@;
                proof {
                    lemma_argument_decreases(*t, i as int);
                    assert(term_views(args@)[i as int] == args@[i as int]@);
                }
                push_term(out, &args[i]);
                assert(out@ + encode_terms(term_views(args@), i + 1) =~= before + encode_terms(
                    term_views(args@),
                    i as int,
                ));
                i += 1;
            }
            assert(out@ + Seq::<u8>::empty() =~= out@);
        },
    }
}

/// The rule set, encoded.
pub fn serialize_rules(rules: &Vec<Rule>) -> (bytes: Vec<u8>)
    ensures
        bytes@ == encode_rules(rule_views(rules@)),
{
    let mut out: Vec<u8> = Vec::new();
    push_number(&mut out, rules.len() as u64);
    assert(out@ + encode_rule_list(rule_views(rules@), 0) =~= encode_rules(rule_views(rules@)));
    let mut i: usize = 0;
    while i < rules.len()
        invariant
            i <= rules.len(),
            out@ + encode_rule_list(rule_views(rules@), i as int) == encode_rules(
                rule_views(rules@),
            ),
        decreases rules.len() - i,
    {
        let ghost before = out@;
        assert(rule_views(rules@)[i as int] == rules@[i as int]@);
        push_term(&mut out, &rules[i].pattern);
        push_term(&mut out, &rules[i].replacement);
        assert(out@ + encode_rule_list(rule_views(rules@), i + 1) =~= before + encode_rule_list(
            rule_views(rules@),
            i as int,
        ));
        i += 1;
    }
    assert(out@ + Seq::<u8>::empty() =~= out@);
    out
}

/// Reads the number at `pos`.
fn read_number(bytes: &[u8], pos: usize) -> (r: Option<u64>)
    requires
        pos <= bytes.len(),
    ensures
        r == number_at(bytes@, pos as int),
{
    if bytes.len() - pos < 8 {
        return None;
    }
    Some(u64_from_le_bytes(slice_subrange(bytes, pos, pos + 8)))
}

/// Reads the name at `pos`. Returns the name and the offset behind it.
fn read_name(bytes: &[u8], pos: usize) -> (r: Option<(Vec<u8>, usize)>)
    requires
        pos <= bytes.len(),
    ensures
        match r {
            Some((name, end)) => pos <= end <= bytes.len() && name_at(bytes@, pos as int) == Some(
                (name@, (end - pos) as nat),
            ),
            None => name_at(bytes@, pos as int) is None,
        },
{
    let n = match read_number(bytes, pos) {
        Some(n) => n,
        None => {
            return None;
        },
    };
    let start = pos + 8;
    if n > (bytes.len() - start) as u64 {
        return None;
    }
    let end = start + n as usize;
    let mut name: Vec<u8> = Vec::new();
    let mut i = start;
    while i < end
        invariant
            start <= i <= end <= bytes.len(),
            name@ == bytes@.subrange(start as int, i as int),
        decreases end - i,
    {
        name.push(bytes[i]);
        assert(name@ =~= bytes@.subrange(start as int, i + 1));
        i += 1;
    }
    Some((name, end))
}

/// Reads the term at `pos`. Returns the term and the offset behind it.
fn read_term(bytes: &[u8], pos: usize, depth: usize) -> (r: Option<(Term, usize)>)
    requires
        pos <= bytes.len(),
    ensures
        match r {
            Some((t, end)) => pos <= end <= bytes.len() && term_at(
                bytes@,
                pos as int,
                depth as nat,
            ) == Some((t@, (end - pos) as nat)),
            None => term_at(bytes@, pos as int, depth as nat) is None,
        },
    decreases depth, 0nat,
{
    if pos >= bytes.len() {
        return None;
    }
    let tag = bytes[pos];
    if tag > 2 {
        return None;
    }
    let (name, behind) = match read_name(bytes, pos + 1) {
        Some(found) => found,
        None => {
            return None;
        },
    };
    if tag == 0 {
        return Some((Term::Atom(name), behind));
    }
    let number = match read_number(bytes, behind) {
        Some(n) => n,
        None => {
            return None;
        },
    };
    if tag == 1 {
        return Some((Term::Var(Variable { name, generation: number }), behind + 8));
    }
    if depth == 0 {
        return None;
    }
    match read_terms(bytes, behind + 8, number, depth - 1) {
        None => None,
        Some((args, end)) => {
            proof {
                lemma_view_compound(name, args);
            }
            Some((Term::Compound(name, args), end))
        },
    }
}

/// What `terms_at` gives `found`, counted from `shift` bytes earlier.
pub open spec fn shifted(found: Option<(Seq<TermView>, nat)>, shift: nat) -> Option<
    (Seq<TermView>, nat),
> {
    match found {
        Some((all, used)) => Some((all, shift + used)),
        None => None,
    }
}

/// Reads `count` terms from `pos` on. Returns them and the offset behind
/// the last.
fn read_terms(bytes: &[u8], pos: usize, count: u64, depth: usize) -> (r: Option<(Vec<Term>, usize)>)
    requires
        pos <= bytes.len(),
    ensures
        match r {
            Some((ts, end)) => pos <= end <= bytes.len() && terms_at(
                bytes@,
                pos as int,
                count as nat,
                depth as nat,
                Seq::empty(),
            ) == Some((term_views(ts@), (end - pos) as nat)),
            None => terms_at(bytes@, pos as int, count as nat, depth as nat, Seq::empty()) is None,
        },
    decreases depth, 1nat,
{
    let ghost whole = terms_at(bytes@, pos as int, count as nat, depth as nat, Seq::empty());
    let mut found: Vec<Term> = Vec::new();
    let mut cur = pos;
    let mut left = count;
    assert(term_views(found@) =~= Seq::<TermView>::empty());
    while left > 0
        invariant
            pos <= cur <= bytes.len(),
            whole == terms_at(bytes@, pos as int, count as nat, depth as nat, Seq::empty()),
            whole == shifted(
                terms_at(bytes@, cur as int, left as nat, depth as nat, term_views(found@)),
                (cur - pos) as nat,
            ),
        decreases left,
    {
        let ghost before = term_views(found@);
        match read_term(bytes, cur, depth) {
            None => {
                return None;
            },
            Some((t, end)) => {
                found.push(t);
                assert(term_views(found@) =~= before.push(t@));
                cur = end;
            },
        }
        left = left - 1;
    }
    Some((found, cur))
}

/// What `rules_at` gives `found`, counted from `shift` bytes earlier.
pub open spec fn shifted_rules(found: Option<(Seq<RuleView>, nat)>, shift: nat) -> Option<
    (Seq<RuleView>, nat),
> {
    match found {
        Some((all, used)) => Some((all, shift + used)),
        None => None,
    }
}

/// The model of an optional rule set.
pub open spec fn rules_option_view(r: Option<Vec<Rule>>) -> Option<Seq<RuleView>> {
    match r {
        Some(rs) => Some(rule_views(rs@)),
        None => None,
    }
}

/// The rule set that the bytes encode, or `None` when they encode none.
pub fn deserialize_rules(bytes: &[u8]) -> (r: Option<Vec<Rule>>)
    ensures
        rules_option_view(r) == decode_rules(bytes@),
{
    let count = match read_number(bytes, 0) {
        Some(n) => n,
        None => {
            return None;
        },
    };
    let ghost whole = rules_at(bytes@, 8, count as nat, Seq::empty());
    let mut found: Vec<Rule> = Vec::new();
    let mut cur: usize = 8;
    let mut left = count;
    assert(rule_views(found@) =~= Seq::<RuleView>::empty());
    while left > 0
        invariant
            8 <= cur <= bytes.len(),
            number_at(bytes@, 0) == Some(count),
            whole == rules_at(bytes@, 8, count as nat, Seq::empty()),
            whole == shifted_rules(
                rules_at(bytes@, cur as int, left as nat, rule_views(found@)),
                (cur - 8) as nat,
            ),
        decreases left,
    {
        let ghost before = rule_views(found@);
        let (pattern, middle) = match read_term(bytes, cur, MAX_DEPTH) {
            Some(read) => read,
            None => {
                return None;
            },
        };
        let (replacement, end) = match read_term(bytes, middle, MAX_DEPTH) {
            Some(read) => read,
            None => {
                return None;
            },
        };
        let rule = Rule { pattern, replacement };
        found.push(rule);
        assert(rule_views(found@) =~= before.push(rule@));
        cur = end;
        left = left - 1;
    }
    if cur == bytes.len() {
        Some(found)
    } else {
        None
    }
}

} // verus!
