//! Terms and rules written out in the text syntax.

use crate::parse::{
    after_blank, arguments_at, blank_len, continues_word, is_lower, parse_rules,
    parse_terms, rule_at, rules_from, starts_term, starts_variable, term_at, terms_from,
    word_len, Failure, ParseError, MAX_DEPTH,
};
use crate::term::{
    lemma_argument_decreases, lemma_view_compound, rule_views, term_views, Rule, RuleView, Term,
    TermView, VarView, Variable,
};
use vstd::prelude::*;

verus! {

/// The decimal digits of `n`.
pub open spec fn digits(n: nat) -> Seq<u8>
    decreases n,
{
    if n < 10 {
        seq![(48 + n) as u8]
    } else {
        digits(n / 10).push((48 + n % 10) as u8)
    }
}

/// A variable as text: its name, followed by `_` and its generation unless
/// that is zero.
pub open spec fn variable_text(v: VarView) -> Seq<u8> {
    if v.generation == 0 {
        v.name
    } else {
        v.name + seq![95u8] + digits(v.generation as nat)
    }
}

/// A term as text: an atom or variable by its name, a compound term as its
/// functor and, in parentheses, its arguments with `, ` between them.
pub open spec fn term_text(t: TermView) -> Seq<u8>
    decreases t, 0nat,
{
    match t {
        TermView::Atom(name) => name,
        TermView::Var(v) => variable_text(v),
        TermView::Compound(f, args) => f + seq![40u8] + arguments_text(args, 0) + seq![41u8],
    }
}

/// The arguments from index `from` on as text, with `, ` between them.
pub open spec fn arguments_text(args: Seq<TermView>, from: int) -> Seq<u8>
    decreases args, args.len() - from,
{
    if from < 0 || from >= args.len() {
        Seq::empty()
    } else if from + 1 == args.len() {
        term_text(args[from])
    } else {
        term_text(args[from]) + seq![44u8, 32u8] + arguments_text(args, from + 1)
    }
}

/// A rule as text: `pattern -> replacement;`.
pub open spec fn rule_text(r: RuleView) -> Seq<u8> {
    term_text(r.pattern) + seq![32u8, 45u8, 62u8, 32u8] + term_text(r.replacement) + seq![59u8]
}

/// The rules from index `from` on as text, each on a line of its own.
pub open spec fn rules_text(rs: Seq<RuleView>, from: int) -> Seq<u8>
    decreases rs.len() - from,
{
    if from < 0 || from >= rs.len() {
        Seq::empty()
    } else {
        rule_text(rs[from]) + seq![10u8] + rules_text(rs, from + 1)
    }
}

/// What is still to be written of an argument list when the arguments
/// before index `next` are written.
pub open spec fn arguments_left(args: Seq<TermView>, next: int) -> Seq<u8> {
    if next <= 0 {
        arguments_text(args, 0)
    } else if next < args.len() {
        seq![44u8, 32u8] + arguments_text(args, next)
    } else {
        Seq::empty()
    }
}

/// Whether the bytes are a name or a variable as the parser reads one: at
/// least one byte, each a letter, a digit or `_`.
pub open spec fn is_word(w: Seq<u8>) -> bool {
    w.len() > 0 && forall|i: int| 0 <= i < w.len() ==> continues_word(#[trigger] w[i])
}

/// Whether a term is one that the text syntax can express: its atoms and
/// functors are words that start with a lower-case letter, its variables
/// are words that start with an upper-case letter or `_` and are of
/// generation zero, and its compound terms nest at most `depth` deep.
pub open spec fn writable(t: TermView, depth: nat) -> bool
    decreases t,
{
    match t {
        TermView::Atom(name) => is_word(name) && is_lower(name[0]),
        TermView::Var(v) => is_word(v.name) && starts_variable(v.name[0]) && v.generation == 0,
        TermView::Compound(f, args) => is_word(f) && is_lower(f[0]) && depth > 0 && forall|i: int|
            0 <= i < args.len() ==> writable(#[trigger] args[i], (depth - 1) as nat),
    }
}

/// Whether `s` holds the bytes `x` at offset `pos`.
pub open spec fn holds(s: Seq<u8>, pos: int, x: Seq<u8>) -> bool {
    0 <= pos && pos + x.len() <= s.len() && s.subrange(pos, pos + x.len()) == x
}

/// Whether a term that ends before offset `p` ends there for the parser
/// too: no word goes on at `p`, and no parenthesis opens behind it.
pub open spec fn delimited(s: Seq<u8>, p: int) -> bool {
    (p >= s.len() || !continues_word(s[p])) && (after_blank(s, p) >= s.len() || s[after_blank(
        s,
        p,
    )] != 40)
}

proof fn lemma_holds_byte(s: Seq<u8>, pos: int, x: Seq<u8>, at: int)
    requires
        holds(s, pos, x),
        0 <= at < x.len(),
    ensures
        s[pos + at] == x[at],
{
    assert(s.subrange(pos, pos + x.len())[at] == x[at]);
}

proof fn lemma_holds_part(s: Seq<u8>, pos: int, x: Seq<u8>, at: int, part: Seq<u8>)
    requires
        holds(s, pos, x),
        0 <= at,
        at + part.len() <= x.len(),
        x.subrange(at, at + part.len()) == part,
    ensures
        holds(s, pos + at, part),
{
    assert forall|i: int| 0 <= i < part.len() implies s[pos + at + i] == part[i] by {
        assert(s.subrange(pos, pos + x.len())[at + i] == x[at + i]);
        assert(x.subrange(at, at + part.len())[i] == part[i]);
    }
    assert(s.subrange(pos + at, pos + at + part.len()) =~= part);
}

/// A word that the text holds, with no word byte behind it, is read whole.
proof fn lemma_word_read(s: Seq<u8>, pos: int, w: Seq<u8>)
    requires
        holds(s, pos, w),
        forall|i: int| 0 <= i < w.len() ==> continues_word(#[trigger] w[i]),
        pos + w.len() >= s.len() || !continues_word(s[pos + w.len()]),
    ensures
        word_len(s, pos) == w.len(),
    decreases w.len(),
{
    if w.len() > 0 {
        lemma_holds_byte(s, pos, w, 0);
        let rest = w.skip(1);
        assert(w.subrange(1, w.len() as int) =~= rest);
        lemma_holds_part(s, pos, w, 1, rest);
        assert forall|i: int| 0 <= i < rest.len() implies continues_word(#[trigger] rest[i]) by {
            assert(rest[i] == w[i + 1]);
        }
        lemma_word_read(s, pos + 1, rest);
    }
}

/// The text of a writable term starts with the byte that a term starts
/// with.
proof fn lemma_text_starts(t: TermView, depth: nat)
    requires
        writable(t, depth),
    ensures
        term_text(t).len() > 0,
        starts_term(term_text(t)[0]),
{
    match t {
        TermView::Atom(name) => {},
        TermView::Var(v) => {},
        TermView::Compound(f, args) => {
            assert(term_text(t)[0] == f[0]);
        },
    }
}

/// What is written is what is read: where the text holds a writable term
/// as `term_text` writes it, and the term ends there, the parser reads that
/// term, from its first byte to its last.
#[verifier::rlimit(40)]
pub proof fn lemma_term_read(s: Seq<u8>, pos: int, t: TermView, depth: nat)
    requires
        writable(t, depth),
        holds(s, pos, term_text(t)),
        delimited(s, pos + term_text(t).len()),
    ensures
        term_at(s, pos, depth) == Ok::<(TermView, nat), Failure>((t, term_text(t).len())),
    decreases t, (if t is Compound { t->Compound_1.len() + 1 } else { 0 }),
{
    let text = term_text(t);
    lemma_holds_byte(s, pos, text, 0);
    match t {
        TermView::Atom(name) => {
            lemma_word_read(s, pos, name);
        },
        TermView::Var(v) => {
            lemma_word_read(s, pos, v.name);
        },
        TermView::Compound(f, args) => {
            let listed = arguments_text(args, 0);
            let n = f.len() as int;
            let a = listed.len() as int;
            assert(text == f + seq![40u8] + listed + seq![41u8]);
            assert(text.subrange(0, n) =~= f);
            lemma_holds_part(s, pos, text, 0, f);
            lemma_holds_byte(s, pos, text, n);
            assert(text[n] == 40);
            lemma_word_read(s, pos, f);
            let open = pos + n;
            assert(after_blank(s, open) == open);
            if args.len() == 0 {
                lemma_holds_byte(s, pos, text, n + 1);
                assert(text[n + 1] == 41);
                assert(after_blank(s, open + 1) == open + 1);
                assert(args =~= Seq::<TermView>::empty());
            } else {
                lemma_text_starts(args[0], (depth - 1) as nat);
                let closed = listed + seq![41u8];
                assert(text.subrange(n + 1, text.len() as int) =~= closed);
                lemma_holds_part(s, pos, text, n + 1, closed);
                lemma_holds_byte(s, open + 1, closed, 0);
                assert(closed[0] == term_text(args[0])[0]);
                assert(after_blank(s, open + 1) == open + 1);
                assert(args.take(0) =~= Seq::<TermView>::empty());
                lemma_arguments_read(s, open + 1, t, 0, (depth - 1) as nat);
            }
        },
    }
}

/// The same, for the arguments of a compound term from index `from` on,
/// with the parenthesis that closes the list.
#[verifier::rlimit(40)]
proof fn lemma_arguments_read(s: Seq<u8>, pos: int, t: TermView, from: int, depth: nat)
    requires
        t is Compound,
        0 <= from < t->Compound_1.len(),
        forall|i: int|
            0 <= i < t->Compound_1.len() ==> writable(#[trigger] t->Compound_1[i], depth),
        holds(s, pos, arguments_text(t->Compound_1, from) + seq![41u8]),
    ensures
        arguments_at(s, pos, depth, t->Compound_1.take(from)) == Ok::<
            (Seq<TermView>, nat),
            Failure,
        >((t->Compound_1, (arguments_text(t->Compound_1, from).len() + 1) as nat)),
    decreases t, t->Compound_1.len() - from,
{
    let args = t->Compound_1;
    let closed = arguments_text(args, from) + seq![41u8];
    let one = term_text(args[from]);
    let n = one.len() as int;
    lemma_text_starts(args[from], depth);
    assert(closed.subrange(0, n) =~= one);
    lemma_holds_part(s, pos, closed, 0, one);
    lemma_holds_byte(s, pos, closed, n);
    let sep = pos + n;
    if from + 1 < args.len() {
        let rest = arguments_text(args, from + 1) + seq![41u8];
        lemma_text_starts(args[from + 1], depth);
        assert(closed =~= one + seq![44u8, 32u8] + rest);
        assert(closed[n] == 44);
        assert(after_blank(s, sep) == sep);
        lemma_term_read(s, pos, args[from], depth);
        lemma_holds_byte(s, pos, closed, n + 1);
        assert(closed[n + 1] == 32);
        lemma_holds_byte(s, pos, closed, n + 2);
        assert(closed[n + 2] == term_text(args[from + 1])[0]);
        assert(blank_len(s, sep + 2, false) == 0);
        assert(after_blank(s, sep + 1) == sep + 2);
        assert(closed.subrange(n + 2, closed.len() as int) =~= rest);
        lemma_holds_part(s, pos, closed, n + 2, rest);
        assert(args.take(from).push(args[from]) =~= args.take(from + 1));
        lemma_arguments_read(s, sep + 2, t, from + 1, depth);
    } else {
        assert(closed[n] == 41);
        assert(after_blank(s, sep) == sep);
        lemma_term_read(s, pos, args[from], depth);
        assert(args.take(from).push(args[from]) =~= args);
    }
}

/// A writable term, written, reads back as itself.
pub proof fn lemma_written_term_reads_back(t: TermView)
    requires
        writable(t, MAX_DEPTH as nat),
    ensures
        parse_terms(term_text(t)) == Ok::<Seq<TermView>, ParseError>(seq![t]),
{
    let s = term_text(t);
    lemma_text_starts(t, MAX_DEPTH as nat);
    assert(s.subrange(0, s.len() as int) =~= s);
    assert(after_blank(s, 0) == 0);
    assert(after_blank(s, s.len() as int) == s.len());
    lemma_term_read(s, 0, t, MAX_DEPTH as nat);
    assert(Seq::<TermView>::empty().push(t) =~= seq![t]);
    assert(terms_from(s, s.len() as int, seq![t]) == Ok::<Seq<TermView>, Failure>(seq![t]));
}

/// Whether a rule is one that the text syntax can express.
pub open spec fn writable_rule(r: RuleView) -> bool {
    writable(r.pattern, MAX_DEPTH as nat) && writable(r.replacement, MAX_DEPTH as nat)
}

/// Where the text holds a writable rule as `rule_text` writes it, the
/// parser reads that rule, from its first byte to its semicolon.
#[verifier::rlimit(40)]
proof fn lemma_rule_read(s: Seq<u8>, pos: int, r: RuleView)
    requires
        writable_rule(r),
        holds(s, pos, rule_text(r)),
    ensures
        rule_at(s, pos) == Ok::<(RuleView, nat), Failure>((r, rule_text(r).len())),
{
    let text = rule_text(r);
    let left = term_text(r.pattern);
    let right = term_text(r.replacement);
    let n = left.len() as int;
    let m = right.len() as int;
    lemma_text_starts(r.pattern, MAX_DEPTH as nat);
    lemma_text_starts(r.replacement, MAX_DEPTH as nat);
    assert(text == left + seq![32u8, 45u8, 62u8, 32u8] + right + seq![59u8]);
    assert(text.subrange(0, n) =~= left);
    assert(text.subrange(n + 4, n + 4 + m) =~= right);
    lemma_holds_part(s, pos, text, 0, left);
    lemma_holds_part(s, pos, text, n + 4, right);
    lemma_holds_byte(s, pos, text, n);
    lemma_holds_byte(s, pos, text, n + 1);
    lemma_holds_byte(s, pos, text, n + 2);
    lemma_holds_byte(s, pos, text, n + 3);
    lemma_holds_byte(s, pos, text, n + 4);
    lemma_holds_byte(s, pos, text, n + 4 + m);
    assert(text[n] == 32 && text[n + 1] == 45 && text[n + 2] == 62 && text[n + 3] == 32);
    assert(text[n + 4] == right[0]);
    assert(text[n + 4 + m] == 59);
    assert(blank_len(s, pos + n + 1, false) == 0);
    assert(after_blank(s, pos + n) == pos + n + 1);
    lemma_term_read(s, pos, r.pattern, MAX_DEPTH as nat);
    assert(blank_len(s, pos + n + 4, false) == 0);
    assert(after_blank(s, pos + n + 3) == pos + n + 4);
    assert(after_blank(s, pos + n + 4 + m) == pos + n + 4 + m);
    lemma_term_read(s, pos + n + 4, r.replacement, MAX_DEPTH as nat);
}

/// The same, for the rules of a rule set from index `from` on, where the
/// text ends with the last of them.
#[verifier::rlimit(40)]
proof fn lemma_rules_read(s: Seq<u8>, pos: int, rs: Seq<RuleView>, from: int)
    requires
        0 <= from <= rs.len(),
        forall|i: int| 0 <= i < rs.len() ==> writable_rule(#[trigger] rs[i]),
        holds(s, pos, rules_text(rs, from)),
        pos + rules_text(rs, from).len() == s.len(),
    ensures
        rules_from(s, pos, rs.take(from)) == Ok::<Seq<RuleView>, Failure>(rs),
    decreases rs.len() - from,
{
    if from < rs.len() {
        let text = rules_text(rs, from);
        let one = rule_text(rs[from]);
        let rest = rules_text(rs, from + 1);
        let n = one.len() as int;
        assert(text == one + seq![10u8] + rest);
        assert(text.subrange(0, n) =~= one);
        assert(text.subrange(n + 1, text.len() as int) =~= rest);
        lemma_holds_part(s, pos, text, 0, one);
        lemma_holds_part(s, pos, text, n + 1, rest);
        lemma_holds_byte(s, pos, text, n);
        assert(text[n] == 10);
        lemma_rule_read(s, pos, rs[from]);
        if from + 1 < rs.len() {
            lemma_rules_text_starts(rs, from + 1);
            lemma_holds_byte(s, pos + n + 1, rest, 0);
        }
        assert(blank_len(s, pos + n + 1, false) == 0);
        assert(after_blank(s, pos + n) == pos + n + 1);
        assert(rs.take(from).push(rs[from]) =~= rs.take(from + 1));
        lemma_rules_read(s, pos + n + 1, rs, from + 1);
    } else {
        assert(rs.take(from) =~= rs);
    }
}

/// The text of a rule set that is not empty starts with the byte that a
/// term starts with.
proof fn lemma_rules_text_starts(rs: Seq<RuleView>, from: int)
    requires
        0 <= from < rs.len(),
        writable_rule(rs[from]),
    ensures
        rules_text(rs, from).len() > 0,
        starts_term(rules_text(rs, from)[0]),
{
    let left = term_text(rs[from].pattern);
    lemma_text_starts(rs[from].pattern, MAX_DEPTH as nat);
    assert(rule_text(rs[from])[0] == left[0]);
    assert(rules_text(rs, from)[0] == rule_text(rs[from])[0]);
}

/// A rule set of writable rules, written, reads back as itself.
pub proof fn lemma_written_rules_read_back(rs: Seq<RuleView>)
    requires
        forall|i: int| 0 <= i < rs.len() ==> writable_rule(#[trigger] rs[i]),
    ensures
        parse_rules(rules_text(rs, 0)) == Ok::<Seq<RuleView>, ParseError>(rs),
{
    let s = rules_text(rs, 0);
    assert(s.subrange(0, s.len() as int) =~= s);
    assert(rs.take(0) =~= Seq::<RuleView>::empty());
    if rs.len() > 0 {
        lemma_rules_text_starts(rs, 0);
        assert(blank_len(s, 0, false) == 0);
    } else {
        assert(blank_len(s, 0, false) == 0);
    }
    lemma_rules_read(s, 0, rs, 0);
}

/// Appends the bytes of `bytes` to `out`.
fn push_all(out: &mut Vec<u8>, bytes: &Vec<u8>)
    ensures
        final(out)@ == old(out)@ + bytes@,
{
    let mut i: usize = 0;
    while i < bytes.len()
        invariant
            i <= bytes.len(),
            out@ == old(out)@ + bytes@.take(i as int),
        decreases bytes.len() - i,
    {
        out.push(bytes[i]);
        assert(out@ =~= old(out)@ + bytes@.take(i + 1));
        i += 1;
    }
    assert(bytes@.take(i as int) =~= bytes@);
}

/// Appends the decimal digits of `n` to `out`.
fn push_digits(out: &mut Vec<u8>, n: u64)
    ensures
        final(out)@ == old(out)@ + digits(n as nat),
    decreases n,
{
    if n >= 10 {
        push_digits(out, n / 10);
    }
    let digit = (n % 10) as u8;
    out.push(48 + digit);
    assert(out@ =~= old(out)@ + digits(n as nat));
}

/// Appends a variable as text to `out`.
fn push_variable(out: &mut Vec<u8>, v: &Variable)
    ensures
        final(out)@ == old(out)@ + variable_text(v@),
{
    push_all(out, &v.name);
    if v.generation != 0 {
        out.push(95u8);
        push_digits(out, v.generation);
        assert(out@ =~= old(out)@ + variable_text(v@));
    }
}

/// Appends a term as text to `out`.
pub fn push_term(out: &mut Vec<u8>, t: &Term)
    ensures
        final(out)@ == old(out)@ + term_text(t@),
    decreases t,
{
    match t {
        Term::Atom(name) => {
            push_all(out, name);
        },
        Term::Var(v) => {
            push_variable(out, v);
        },
        Term::Compound(f, args) => {
            proof {
                lemma_view_compound(*f, *args);
                assert(t@->Compound_0 == f@);
                assert(t@->Compound_1 == term_views(args@));
            }
            push_all(out, f);
            out.push(40u8);
            let ghost whole = out@ + arguments_text(term_views(args@), 0);
            assert(whole + seq![41u8] =~= old(out)@ + term_text(t@));
            let mut i: usize = 0;
            while i < args.len()
                invariant
                    i <= args.len(),
                    *t == Term::Compound(*f, *args),
                    out@ + arguments_left(term_views(args@), i as int) == whole,
                decreases args.len() - i,
            {
                let ghost before = out@;
                proof {
                    lemma_argument_decreases(*t, i as int);
                    assert(term_views(args@)[i as int] == args@[i as int]@);
                }
                if i > 0 {
                    out.push(44u8);
                    out.push(32u8);
                }
                push_term(out, &args[i]);
                assert(out@ + arguments_left(term_views(args@), i + 1) =~= before + arguments_left(
                    term_views(args@),
                    i as int,
                ));
                i += 1;
            }
            assert(out@ + Seq::<u8>::empty() =~= out@);
            out.push(41u8);
        },
    }
}

/// The term as text.
pub fn render(t: &Term) -> (text: Vec<u8>)
    ensures
        text@ == term_text(t@),
{
    let mut out: Vec<u8> = Vec::new();
    push_term(&mut out, t);
    assert(out@ =~= term_text(t@));
    out
}

/// The rules as text, each on a line of its own.
pub fn render_rules(rules: &Vec<Rule>) -> (text: Vec<u8>)
    ensures
        text@ == rules_text(rule_views(rules@), 0),
{
    let mut out: Vec<u8> = Vec::new();
    let mut i: usize = 0;
    assert(out@ + rules_text(rule_views(rules@), 0) =~= rules_text(rule_views(rules@), 0));
    while i < rules.len()
        invariant
            i <= rules.len(),
            out@ + rules_text(rule_views(rules@), i as int) == rules_text(rule_views(rules@), 0),
        decreases rules.len() - i,
    {
        let ghost before = out@;
        assert(rule_views(rules@)[i as int] == rules@[i as int]@);
        push_term(&mut out, &rules[i].pattern);
        out.push(32u8);
        out.push(45u8);
        out.push(62u8);
        out.push(32u8);
        push_term(&mut out, &rules[i].replacement);
        out.push(59u8);
        out.push(10u8);
        assert(out@ =~= before + rule_text(rules@[i as int]@) + seq![10u8]);
        assert(out@ + rules_text(rule_views(rules@), i + 1) =~= before + rules_text(
            rule_views(rules@),
            i as int,
        ));
        i += 1;
    }
    assert(out@ + Seq::<u8>::empty() =~= out@);
    out
}

} // verus!
