//! The text syntax of terms and rules.
//!
//! ```text
//! rules    = blank { rule blank }
//! rule     = term blank "->" blank term blank ";"
//! terms    = blank { term blank }
//! term     = variable | name [ blank "(" blank [ arguments ] ")" ]
//! arguments = term blank { "," blank term blank }
//! name     = letter { letter | digit }     starting with a lower-case letter
//! variable = letter { letter | digit }     starting with an upper-case letter or "_"
//! blank    = { space | tab | line feed | carriage return | comment }
//! comment  = "%" { any byte but line feed } ( line feed | end of text )
//! ```
//!
//! A letter is an ASCII letter or `_`. Names and variables are as long as
//! they can be. Parentheses nest at most `MAX_DEPTH` deep. The parser reads
//! bytes, not characters: any byte outside the grammar is an error at its
//! offset, so that no input, valid text or not, is beyond it.

use crate::term::{lemma_view_compound, rule_views, term_views, Rule, RuleView, Term, TermView, VarView, Variable};
use vstd::prelude::*;

verus! {

/// How deep parentheses may nest.
pub const MAX_DEPTH: usize = 256;

/// What the parser missed at the place where it stopped.
#[derive(Debug, Clone, Copy, PartialEq, Eq, Hash, Structural)]
pub enum ParseErrorKind {
    /// A term has to start here, with a letter or `_`.
    ExpectedTerm,
    /// After an argument, `,` or `)` has to follow.
    ExpectedSeparator,
    /// After a rule's pattern, `->` has to follow.
    ExpectedArrow,
    /// After a rule's replacement, `;` has to follow.
    ExpectedSemicolon,
    /// This parenthesis would nest deeper than `MAX_DEPTH`.
    TooDeep,
}

/// A syntax error and the place in the text where it was found.
#[derive(Debug, Clone, Copy, PartialEq, Eq, Hash, Structural)]
pub struct ParseError {
    pub kind: ParseErrorKind,
    /// The offset of the offending byte, or the text's length at its end.
    pub offset: usize,
    /// The number of line feeds before the offset.
    pub line: usize,
    /// The number of bytes between the start of that line and the offset.
    pub column: usize,
}

/// A syntax error and the offset at which it was found.
pub struct Failure {
    pub kind: ParseErrorKind,
    pub offset: int,
}

/// Whether the byte is a space, a tab, a line feed or a carriage return.
pub open spec fn is_space(b: u8) -> bool {
    b == 32 || b == 9 || b == 10 || b == 13
}

/// Whether the byte is an upper-case ASCII letter.
pub open spec fn is_upper(b: u8) -> bool {
    65 <= b <= 90
}

/// Whether the byte is a lower-case ASCII letter.
pub open spec fn is_lower(b: u8) -> bool {
    97 <= b <= 122
}

/// Whether the byte is an ASCII digit.
pub open spec fn is_digit(b: u8) -> bool {
    48 <= b <= 57
}

/// Whether a variable starts with the byte.
pub open spec fn starts_variable(b: u8) -> bool {
    is_upper(b) || b == 95
}

/// Whether a term starts with the byte.
pub open spec fn starts_term(b: u8) -> bool {
    is_lower(b) || starts_variable(b)
}

/// Whether a name or a variable goes on with the byte.
pub open spec fn continues_word(b: u8) -> bool {
    starts_term(b) || is_digit(b)
}

/// The number of blank bytes from `pos` on: spaces, line ends and comments.
/// `in_comment` says whether `pos` lies inside a comment.
pub open spec fn blank_len(s: Seq<u8>, pos: int, in_comment: bool) -> nat
    decreases s.len() - pos,
{
    if pos < 0 || pos >= s.len() {
        0
    } else if in_comment {
        1 + blank_len(s, pos + 1, s[pos] != 10)
    } else if is_space(s[pos]) {
        1 + blank_len(s, pos + 1, false)
    } else if s[pos] == 37 {
        1 + blank_len(s, pos + 1, true)
    } else {
        0
    }
}

/// The offset of the first byte at or after `pos` that is not blank.
pub open spec fn after_blank(s: Seq<u8>, pos: int) -> int {
    pos + blank_len(s, pos, false)
}

/// The number of bytes from `pos` on that go on a name or a variable.
pub open spec fn word_len(s: Seq<u8>, pos: int) -> nat
    decreases s.len() - pos,
{
    if pos < 0 || pos >= s.len() || !continues_word(s[pos]) {
        0
    } else {
        1 + word_len(s, pos + 1)
    }
}

/// The term that starts at `pos`, with the number of bytes that it spans,
/// where parentheses may nest `depth` deep.
pub open spec fn term_at(s: Seq<u8>, pos: int, depth: nat) -> Result<(TermView, nat), Failure>
    decreases depth, 0nat,
{
    if pos < 0 || pos >= s.len() || !starts_term(s[pos]) {
        Err(Failure { kind: ParseErrorKind::ExpectedTerm, offset: pos })
    } else {
        let n = word_len(s, pos);
        let name = s.subrange(pos, pos + n);
        let open = after_blank(s, pos + n);
        if starts_variable(s[pos]) {
            Ok((TermView::Var(VarView { name, generation: 0 }), n))
        } else if open < s.len() && s[open] == 40 {
            let first = after_blank(s, open + 1);
            if depth == 0 {
                Err(Failure { kind: ParseErrorKind::TooDeep, offset: open })
            } else if first < s.len() && s[first] == 41 {
                Ok((TermView::Compound(name, Seq::empty()), (first + 1 - pos) as nat))
            } else {
                match arguments_at(s, first, (depth - 1) as nat, Seq::empty()) {
                    Ok((args, used)) => Ok(
                        (TermView::Compound(name, args), (first + used - pos) as nat),
                    ),
                    Err(e) => Err(e),
                }
            }
        } else {
            Ok((TermView::Atom(name), n))
        }
    }
}

/// The arguments that follow `before` in an argument list, from the term
/// that starts at `pos` to the closing parenthesis: all arguments of the
/// list, with the number of bytes from `pos` to behind the parenthesis.
pub open spec fn arguments_at(s: Seq<u8>, pos: int, depth: nat, before: Seq<TermView>) -> Result<
    (Seq<TermView>, nat),
    Failure,
>
    decreases depth, (if pos <= s.len() { 2 + s.len() - pos } else { 1 }),
{
    match term_at(s, pos, depth) {
        Err(e) => Err(e),
        Ok((t, n)) => {
            let sep = after_blank(s, pos + n);
            if 0 <= sep < s.len() && s[sep] == 44 {
                let next = after_blank(s, sep + 1);
                match arguments_at(s, next, depth, before.push(t)) {
                    Ok((args, used)) => Ok((args, (next + used - pos) as nat)),
                    Err(e) => Err(e),
                }
            } else if 0 <= sep < s.len() && s[sep] == 41 {
                Ok((before.push(t), (sep + 1 - pos) as nat))
            } else {
                Err(Failure { kind: ParseErrorKind::ExpectedSeparator, offset: sep })
            }
        },
    }
}

/// Blank bytes end within the text.
pub proof fn lemma_blank_bound(s: Seq<u8>, pos: int, in_comment: bool)
    requires
        0 <= pos <= s.len(),
    ensures
        pos + blank_len(s, pos, in_comment) <= s.len(),
    decreases s.len() - pos,
{
    if pos < s.len() {
        if in_comment {
            lemma_blank_bound(s, pos + 1, s[pos] != 10);
        } else if is_space(s[pos]) {
            lemma_blank_bound(s, pos + 1, false);
        } else if s[pos] == 37 {
            lemma_blank_bound(s, pos + 1, true);
        }
    }
}

/// A name or variable ends within the text.
pub proof fn lemma_word_bound(s: Seq<u8>, pos: int)
    requires
        0 <= pos <= s.len(),
    ensures
        pos + word_len(s, pos) <= s.len(),
    decreases s.len() - pos,
{
    if pos < s.len() && continues_word(s[pos]) {
        lemma_word_bound(s, pos + 1);
    }
}

/// A term spans at least one byte and ends within the text; a failure lies
/// at or after the place where the term was to start, within the text or at
/// its end.
pub proof fn lemma_term_span(s: Seq<u8>, pos: int, depth: nat)
    requires
        0 <= pos <= s.len(),
    ensures
        term_at(s, pos, depth) matches Ok((_, n)) ==> n >= 1 && pos + n <= s.len(),
        term_at(s, pos, depth) matches Err(f) ==> pos <= f.offset <= s.len(),
    decreases depth, 0nat,
{
    if pos < s.len() && starts_term(s[pos]) {
        let n = word_len(s, pos);
        lemma_word_bound(s, pos);
        lemma_blank_bound(s, pos + n, false);
        let open = after_blank(s, pos + n);
        if !starts_variable(s[pos]) && open < s.len() && s[open] == 40 && depth > 0 {
            lemma_blank_bound(s, open + 1, false);
            let first = after_blank(s, open + 1);
            if !(first < s.len() && s[first] == 41) {
                lemma_arguments_span(s, first, (depth - 1) as nat, Seq::empty());
            }
        }
    }
}

/// The same, for an argument list.
pub proof fn lemma_arguments_span(s: Seq<u8>, pos: int, depth: nat, before: Seq<TermView>)
    requires
        0 <= pos <= s.len(),
    ensures
        arguments_at(s, pos, depth, before) matches Ok((_, n)) ==> n >= 1 && pos + n <= s.len(),
        arguments_at(s, pos, depth, before) matches Err(f) ==> pos <= f.offset <= s.len(),
    decreases depth, 2 + s.len() - pos,
{
    lemma_term_span(s, pos, depth);
    match term_at(s, pos, depth) {
        Err(_) => {},
        Ok((t, n)) => {
            lemma_blank_bound(s, pos + n, false);
            let sep = after_blank(s, pos + n);
            if sep < s.len() && s[sep] == 44 {
                lemma_blank_bound(s, sep + 1, false);
                lemma_arguments_span(s, after_blank(s, sep + 1), depth, before.push(t));
            }
        },
    }
}

/// The terms that follow `before` in the text from `pos` on, where `pos` is
/// the text's end or the place where the next term has to start.
pub open spec fn terms_from(s: Seq<u8>, pos: int, before: Seq<TermView>) -> Result<
    Seq<TermView>,
    Failure,
>
    decreases s.len() - pos,
{
    if pos < 0 || pos >= s.len() {
        Ok(before)
    } else {
        match term_at(s, pos, MAX_DEPTH as nat) {
            Err(e) => Err(e),
            Ok((t, n)) => {
                proof {
                    lemma_term_span(s, pos, MAX_DEPTH as nat);
                    lemma_blank_bound(s, pos + n, false);
                }
                terms_from(s, after_blank(s, pos + n), before.push(t))
            },
        }
    }
}

/// The rule that starts at `pos`, with the number of bytes that it spans.
pub open spec fn rule_at(s: Seq<u8>, pos: int) -> Result<(RuleView, nat), Failure> {
    match term_at(s, pos, MAX_DEPTH as nat) {
        Err(e) => Err(e),
        Ok((pattern, n)) => {
            let arrow = after_blank(s, pos + n);
            if !(0 <= arrow && arrow + 1 < s.len() && s[arrow] == 45 && s[arrow + 1] == 62) {
                Err(Failure { kind: ParseErrorKind::ExpectedArrow, offset: arrow })
            } else {
                let start = after_blank(s, arrow + 2);
                match term_at(s, start, MAX_DEPTH as nat) {
                    Err(e) => Err(e),
                    Ok((replacement, m)) => {
                        let end = after_blank(s, start + m);
                        if !(0 <= end < s.len() && s[end] == 59) {
                            Err(Failure { kind: ParseErrorKind::ExpectedSemicolon, offset: end })
                        } else {
                            Ok((RuleView { pattern, replacement }, (end + 1 - pos) as nat))
                        }
                    },
                }
            }
        },
    }
}

/// A rule spans at least one byte and ends within the text; a failure lies
/// within the text or at its end.
pub proof fn lemma_rule_span(s: Seq<u8>, pos: int)
    requires
        0 <= pos <= s.len(),
    ensures
        rule_at(s, pos) matches Ok((_, n)) ==> n >= 1 && pos + n <= s.len(),
        rule_at(s, pos) matches Err(f) ==> pos <= f.offset <= s.len(),
{
    lemma_term_span(s, pos, MAX_DEPTH as nat);
    match term_at(s, pos, MAX_DEPTH as nat) {
        Err(_) => {},
        Ok((_, n)) => {
            lemma_blank_bound(s, pos + n, false);
            let arrow = after_blank(s, pos + n);
            if arrow + 1 < s.len() {
                lemma_blank_bound(s, arrow + 2, false);
                let start = after_blank(s, arrow + 2);
                lemma_term_span(s, start, MAX_DEPTH as nat);
                match term_at(s, start, MAX_DEPTH as nat) {
                    Err(_) => {},
                    Ok((_, m)) => {
                        lemma_blank_bound(s, start + m, false);
                    },
                }
            }
        },
    }
}

/// The rules that follow `before` in the text from `pos` on, where `pos` is
/// the text's end or the place where the next rule has to start.
pub open spec fn rules_from(s: Seq<u8>, pos: int, before: Seq<RuleView>) -> Result<
    Seq<RuleView>,
    Failure,
>
    decreases s.len() - pos,
{
    if pos < 0 || pos >= s.len() {
        Ok(before)
    } else {
        match rule_at(s, pos) {
            Err(e) => Err(e),
            Ok((r, n)) => {
                proof {
                    lemma_rule_span(s, pos);
                    lemma_blank_bound(s, pos + n, false);
                }
                rules_from(s, after_blank(s, pos + n), before.push(r))
            },
        }
    }
}

/// The number of line feeds before `offset`.
pub open spec fn line_of(s: Seq<u8>, offset: int) -> nat
    decreases offset,
{
    if offset <= 0 || offset > s.len() {
        0
    } else if s[offset - 1] == 10 {
        1 + line_of(s, offset - 1)
    } else {
        line_of(s, offset - 1)
    }
}

/// The number of bytes between the start of the line that `offset` lies in
/// and `offset`.
pub open spec fn column_of(s: Seq<u8>, offset: int) -> nat
    decreases offset,
{
    if offset <= 0 || offset > s.len() || s[offset - 1] == 10 {
        0
    } else {
        1 + column_of(s, offset - 1)
    }
}

/// The error that reports a failure, with its place in the text.
pub open spec fn located(s: Seq<u8>, f: Failure) -> ParseError {
    ParseError {
        kind: f.kind,
        offset: f.offset as usize,
        line: line_of(s, f.offset) as usize,
        column: column_of(s, f.offset) as usize,
    }
}

/// What the text holds, read as a sequence of terms.
pub open spec fn parse_terms(s: Seq<u8>) -> Result<Seq<TermView>, ParseError> {
    match terms_from(s, after_blank(s, 0), Seq::empty()) {
        Ok(ts) => Ok(ts),
        Err(f) => Err(located(s, f)),
    }
}

/// What the text holds, read as a sequence of rules.
pub open spec fn parse_rules(s: Seq<u8>) -> Result<Seq<RuleView>, ParseError> {
    match rules_from(s, after_blank(s, 0), Seq::empty()) {
        Ok(rs) => Ok(rs),
        Err(f) => Err(located(s, f)),
    }
}

/// A failure to read terms lies within the text or at its end.
pub proof fn lemma_terms_failure(s: Seq<u8>, pos: int, before: Seq<TermView>)
    requires
        0 <= pos <= s.len(),
    ensures
        terms_from(s, pos, before) matches Err(f) ==> pos <= f.offset <= s.len(),
    decreases s.len() - pos,
{
    if pos < s.len() {
        lemma_term_span(s, pos, MAX_DEPTH as nat);
        match term_at(s, pos, MAX_DEPTH as nat) {
            Err(_) => {},
            Ok((t, n)) => {
                lemma_blank_bound(s, pos + n, false);
                lemma_terms_failure(s, after_blank(s, pos + n), before.push(t));
            },
        }
    }
}

/// A failure to read rules lies within the text or at its end.
pub proof fn lemma_rules_failure(s: Seq<u8>, pos: int, before: Seq<RuleView>)
    requires
        0 <= pos <= s.len(),
    ensures
        rules_from(s, pos, before) matches Err(f) ==> pos <= f.offset <= s.len(),
    decreases s.len() - pos,
{
    if pos < s.len() {
        lemma_rule_span(s, pos);
        match rule_at(s, pos) {
            Err(_) => {},
            Ok((r, n)) => {
                lemma_blank_bound(s, pos + n, false);
                lemma_rules_failure(s, after_blank(s, pos + n), before.push(r));
            },
        }
    }
}

/// Line and column count each byte before the offset at most once.
pub proof fn lemma_line_column(s: Seq<u8>, offset: int)
    requires
        0 <= offset <= s.len(),
    ensures
        line_of(s, offset) + column_of(s, offset) <= offset,
    decreases offset,
{
    if offset > 0 {
        lemma_line_column(s, offset - 1);
    }
}

/// Every text has a reading, as terms and as rules: the sequence that it
/// holds, or one error. The error points into the text or at its end, and
/// its line and column are those of its offset.
pub proof fn lemma_every_text_is_read(s: Seq<u8>)
    requires
        s.len() <= usize::MAX,
    ensures
        parse_terms(s) matches Err(e) ==> e.offset <= s.len() && e.line == line_of(
            s,
            e.offset as int,
        ) && e.column == column_of(s, e.offset as int) && e.line + e.column <= e.offset,
        parse_rules(s) matches Err(e) ==> e.offset <= s.len() && e.line == line_of(
            s,
            e.offset as int,
        ) && e.column == column_of(s, e.offset as int) && e.line + e.column <= e.offset,
{
    lemma_blank_bound(s, 0, false);
    lemma_terms_failure(s, after_blank(s, 0), Seq::empty());
    lemma_rules_failure(s, after_blank(s, 0), Seq::empty());
    match terms_from(s, after_blank(s, 0), Seq::empty()) {
        Err(f) => {
            lemma_line_column(s, f.offset);
        },
        Ok(_) => {},
    }
    match rules_from(s, after_blank(s, 0), Seq::empty()) {
        Err(f) => {
            lemma_line_column(s, f.offset);
        },
        Ok(_) => {},
    }
}

fn byte_is_space(b: u8) -> (r: bool)
    ensures
        r == is_space(b),
{
    b == 32 || b == 9 || b == 10 || b == 13
}

fn byte_starts_variable(b: u8) -> (r: bool)
    ensures
        r == starts_variable(b),
{
    (65 <= b && b <= 90) || b == 95
}

fn byte_starts_term(b: u8) -> (r: bool)
    ensures
        r == starts_term(b),
{
    (97 <= b && b <= 122) || byte_starts_variable(b)
}

fn byte_continues_word(b: u8) -> (r: bool)
    ensures
        r == continues_word(b),
{
    byte_starts_term(b) || (48 <= b && b <= 57)
}

/// The offset of the first byte at or after `pos` that is not blank.
fn skip_blank(text: &[u8], pos: usize) -> (end: usize)
    requires
        pos <= text.len(),
    ensures
        end == after_blank(text@, pos as int),
        pos <= end <= text.len(),
{
    let mut i = pos;
    let mut in_comment = false;
    loop
        invariant
            pos <= i <= text.len(),
            blank_len(text@, pos as int, false) == (i - pos) + blank_len(
                text@,
                i as int,
                in_comment,
            ),
        decreases text.len() - i,
    {
        if i >= text.len() {
            return i;
        }
        let b = text[i];
        if in_comment {
            in_comment = b != 10;
        } else if byte_is_space(b) {
        } else if b == 37 {
            in_comment = true;
        } else {
            return i;
        }
        i += 1;
    }
}

/// The offset behind the name or variable that starts at `pos`.
fn word_end(text: &[u8], pos: usize) -> (end: usize)
    requires
        pos <= text.len(),
    ensures
        end == pos + word_len(text@, pos as int),
        pos <= end <= text.len(),
{
    let mut i = pos;
    while i < text.len() && byte_continues_word(text[i])
        invariant
            pos <= i <= text.len(),
            word_len(text@, pos as int) == (i - pos) + word_len(text@, i as int),
        decreases text.len() - i,
    {
        i += 1;
    }
    i
}

/// A copy of the bytes from `from` up to `to`.
fn copy_range(text: &[u8], from: usize, to: usize) -> (v: Vec<u8>)
    requires
        from <= to <= text.len(),
    ensures
        v@ == text@.subrange(from as int, to as int),
{
    let mut v: Vec<u8> = Vec::new();
    let mut i = from;
    while i < to
        invariant
            from <= i <= to <= text.len(),
            v@ == text@.subrange(from as int, i as int),
        decreases to - i,
    {
        v.push(text[i]);
        assert(v@ =~= text@.subrange(from as int, i + 1));
        i += 1;
    }
    v
}

/// An argument list's result `r`, read from `shift` bytes further on.
pub open spec fn shifted(r: Result<(Seq<TermView>, nat), Failure>, shift: nat) -> Result<
    (Seq<TermView>, nat),
    Failure,
> {
    match r {
        Ok((args, used)) => Ok((args, shift + used)),
        Err(e) => Err(e),
    }
}

/// Reads the term that starts at `pos`. Returns the term and the offset
/// behind it, or the kind and offset of the failure.
fn parse_term(text: &[u8], pos: usize, depth: usize) -> (r: Result<
    (Term, usize),
    (ParseErrorKind, usize),
>)
    requires
        pos <= text.len(),
    ensures
        match r {
            Ok((t, end)) => pos < end <= text.len() && term_at(text@, pos as int, depth as nat)
                == Ok::<(TermView, nat), Failure>((t@, (end - pos) as nat)),
            Err((kind, at)) => at <= text.len() && term_at(text@, pos as int, depth as nat)
                == Err::<(TermView, nat), Failure>(Failure { kind, offset: at as int }),
        },
    decreases depth, 0nat,
{
    if pos >= text.len() || !byte_starts_term(text[pos]) {
        return Err((ParseErrorKind::ExpectedTerm, pos));
    }
    let end = word_end(text, pos);
    let name = copy_range(text, pos, end);
    if byte_starts_variable(text[pos]) {
        return Ok((Term::Var(Variable { name, generation: 0 }), end));
    }
    let open = skip_blank(text, end);
    if open < text.len() && text[open] == 40 {
        if depth == 0 {
            return Err((ParseErrorKind::TooDeep, open));
        }
        let first = skip_blank(text, open + 1);
        if first < text.len() && text[first] == 41 {
            let args: Vec<Term> = Vec::new();
            proof {
                lemma_view_compound(name, args);
                assert(term_views(args@) =~= Seq::<TermView>::empty());
            }
            return Ok((Term::Compound(name, args), first + 1));
        }
        match parse_arguments(text, first, depth - 1) {
            Ok((args, behind)) => {
                proof {
                    lemma_view_compound(name, args);
                }
                Ok((Term::Compound(name, args), behind))
            },
            Err(e) => Err(e),
        }
    } else {
        Ok((Term::Atom(name), end))
    }
}

/// Reads an argument list from its first term, at `pos`, to its closing
/// parenthesis. Returns the arguments and the offset behind the parenthesis.
fn parse_arguments(text: &[u8], pos: usize, depth: usize) -> (r: Result<
    (Vec<Term>, usize),
    (ParseErrorKind, usize),
>)
    requires
        pos <= text.len(),
    ensures
        match r {
            Ok((args, end)) => pos < end <= text.len() && arguments_at(
                text@,
                pos as int,
                depth as nat,
                Seq::empty(),
            ) == Ok::<(Seq<TermView>, nat), Failure>((term_views(args@), (end - pos) as nat)),
            Err((kind, at)) => at <= text.len() && arguments_at(
                text@,
                pos as int,
                depth as nat,
                Seq::empty(),
            ) == Err::<(Seq<TermView>, nat), Failure>(Failure { kind, offset: at as int }),
        },
    decreases depth, 1nat,
{
    let ghost whole = arguments_at(text@, pos as int, depth as nat, Seq::empty());
    let mut args: Vec<Term> = Vec::new();
    let mut cur = pos;
    assert(term_views(args@) =~= Seq::<TermView>::empty());
    loop
        invariant
            pos <= cur <= text.len(),
            whole == arguments_at(text@, pos as int, depth as nat, Seq::empty()),
            whole == shifted(
                arguments_at(text@, cur as int, depth as nat, term_views(args@)),
                (cur - pos) as nat,
            ),
        decreases text.len() - cur,
    {
        let ghost before = term_views(args@);
        match parse_term(text, cur, depth) {
            Err(e) => {
                return Err(e);
            },
            Ok((t, end)) => {
                let sep = skip_blank(text, end);
                args.push(t);
                assert(term_views(args@) =~= before.push(t@));
                if sep < text.len() && text[sep] == 44 {
                    cur = skip_blank(text, sep + 1);
                } else if sep < text.len() && text[sep] == 41 {
                    return Ok((args, sep + 1));
                } else {
                    return Err((ParseErrorKind::ExpectedSeparator, sep));
                }
            },
        }
    }
}

/// Reads the rule that starts at `pos`. Returns the rule and the offset
/// behind its semicolon.
fn parse_rule(text: &[u8], pos: usize) -> (r: Result<(Rule, usize), (ParseErrorKind, usize)>)
    requires
        pos <= text.len(),
    ensures
        match r {
            Ok((rule, end)) => pos < end <= text.len() && rule_at(text@, pos as int) == Ok::<
                (RuleView, nat),
                Failure,
            >((rule@, (end - pos) as nat)),
            Err((kind, at)) => at <= text.len() && rule_at(text@, pos as int) == Err::<
                (RuleView, nat),
                Failure,
            >(Failure { kind, offset: at as int }),
        },
{
    let (pattern, behind) = match parse_term(text, pos, MAX_DEPTH) {
        Ok(found) => found,
        Err(e) => {
            return Err(e);
        },
    };
    let arrow = skip_blank(text, behind);
    if !(arrow < text.len() && text.len() - arrow > 1 && text[arrow] == 45 && text[arrow + 1]
        == 62) {
        return Err((ParseErrorKind::ExpectedArrow, arrow));
    }
    let start = skip_blank(text, arrow + 2);
    let (replacement, behind) = match parse_term(text, start, MAX_DEPTH) {
        Ok(found) => found,
        Err(e) => {
            return Err(e);
        },
    };
    let end = skip_blank(text, behind);
    if !(end < text.len() && text[end] == 59) {
        return Err((ParseErrorKind::ExpectedSemicolon, end));
    }
    Ok((Rule { pattern, replacement }, end + 1))
}

/// The error of the given kind at the given offset, with line and column.
fn locate(text: &[u8], kind: ParseErrorKind, offset: usize) -> (e: ParseError)
    requires
        offset <= text.len(),
    ensures
        e == located(text@, Failure { kind, offset: offset as int }),
{
    let mut line: usize = 0;
    let mut column: usize = 0;
    let mut i: usize = 0;
    while i < offset
        invariant
            i <= offset <= text.len(),
            line == line_of(text@, i as int),
            column == column_of(text@, i as int),
            line <= i,
            column <= i,
        decreases offset - i,
    {
        if text[i] == 10 {
            line += 1;
            column = 0;
        } else {
            column += 1;
        }
        i += 1;
    }
    ParseError { kind, offset, line, column }
}

/// The model of what `terms` returns.
pub open spec fn terms_view(r: Result<Vec<Term>, ParseError>) -> Result<Seq<TermView>, ParseError> {
    match r {
        Ok(ts) => Ok(term_views(ts@)),
        Err(e) => Err(e),
    }
}

/// The model of what `rules` returns.
pub open spec fn rules_view(r: Result<Vec<Rule>, ParseError>) -> Result<Seq<RuleView>, ParseError> {
    match r {
        Ok(rs) => Ok(rule_views(rs@)),
        Err(e) => Err(e),
    }
}

/// Reads the text as a sequence of terms. Every text gives either the terms
/// that it holds or the first syntax error with its place.
pub fn terms(text: &[u8]) -> (r: Result<Vec<Term>, ParseError>)
    ensures
        terms_view(r) == parse_terms(text@),
{
    let mut found: Vec<Term> = Vec::new();
    let mut pos = skip_blank(text, 0);
    assert(term_views(found@) =~= Seq::<TermView>::empty());
    while pos < text.len()
        invariant
            pos <= text.len(),
            terms_from(text@, after_blank(text@, 0), Seq::empty()) == terms_from(
                text@,
                pos as int,
                term_views(found@),
            ),
        decreases text.len() - pos,
    {
        let ghost before = term_views(found@);
        match parse_term(text, pos, MAX_DEPTH) {
            Err((kind, at)) => {
                return Err(locate(text, kind, at));
            },
            Ok((t, end)) => {
                found.push(t);
                assert(term_views(found@) =~= before.push(t@));
                pos = skip_blank(text, end);
            },
        }
    }
    Ok(found)
}

/// Reads the text as a sequence of rules. Every text gives either the rules
/// that it holds or the first syntax error with its place.
pub fn rules(text: &[u8]) -> (r: Result<Vec<Rule>, ParseError>)
    ensures
        rules_view(r) == parse_rules(text@),
{
    let mut found: Vec<Rule> = Vec::new();
    let mut pos = skip_blank(text, 0);
    assert(rule_views(found@) =~= Seq::<RuleView>::empty());
    while pos < text.len()
        invariant
            pos <= text.len(),
            rules_from(text@, after_blank(text@, 0), Seq::empty()) == rules_from(
                text@,
                pos as int,
                rule_views(found@),
            ),
        decreases text.len() - pos,
    {
        let ghost before = rule_views(found@);
        match parse_rule(text, pos) {
            Err((kind, at)) => {
                return Err(locate(text, kind, at));
            },
            Ok((rule, end)) => {
                found.push(rule);
                assert(rule_views(found@) =~= before.push(rule@));
                pos = skip_blank(text, end);
            },
        }
    }
    Ok(found)
}

} // verus!
