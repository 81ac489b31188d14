use vstd::prelude::*;
use crate::ast::{
    Diagnostic, DiagnosticKind, NumOper, Pattern, PatternV, Rule, RuleV, Span, Term, TermV,
    pats_view,
};
use crate::lexer::{Token, TokenV, tokens_wf, tviews};
use crate::name::{
    DefId, Name, lemma_name_val_fits, lemma_name_wf_valid, log64, name_seq_wf, spec_max_name_len,
    spec_name_to_val,
};

verus! {

/// The first position at or after `i` holding something other than a line
/// break.
pub open spec fn nl(ts: Seq<TokenV>, i: int) -> int
    decreases ts.len() - i when i <= ts.len()
{
    if 0 <= i && i < ts.len() && ts[i] is NewLine {
        nl(ts, i + 1)
    } else {
        i
    }
}

pub proof fn lemma_nl(ts: Seq<TokenV>, i: int)
    requires
        0 <= i <= ts.len(),
    ensures
        i <= nl(ts, i) <= ts.len(),
    decreases ts.len() - i,
{
    if i < ts.len() && ts[i] is NewLine {
        lemma_nl(ts, i + 1);
    }
}

pub proof fn lemma_nl_idem(ts: Seq<TokenV>, i: int)
    requires
        0 <= i <= ts.len(),
    ensures
        nl(ts, nl(ts, i)) == nl(ts, i),
    decreases ts.len() - i,
{
    if i < ts.len() && ts[i] is NewLine {
        lemma_nl_idem(ts, i + 1);
    }
}

/// The position of the next line break at or after `i` (the length if none
/// is left): where parsing resumes after a malformed rule.
pub open spec fn nx(ts: Seq<TokenV>, i: int) -> int
    decreases ts.len() - i when 0 <= i <= ts.len()
{
    if i < ts.len() {
        if ts[i] is NewLine {
            i
        } else {
            nx(ts, i + 1)
        }
    } else {
        ts.len() as int
    }
}

pub proof fn lemma_nx(ts: Seq<TokenV>, i: int)
    requires
        0 <= i <= ts.len(),
    ensures
        i <= nx(ts, i) <= ts.len(),
    decreases ts.len() - i,
{
    if i < ts.len() && !(ts[i] is NewLine) {
        lemma_nx(ts, i + 1);
    }
}

/// Forces a continuation position into `(lo, hi]` so the recursion below
/// is visibly well-founded. Parse results always lie in that range (each
/// executable parser proves it), so this never changes a value.
pub open spec fn adv(lo: int, hi: int, p: int) -> int {
    if lo < p && p <= hi {
        p
    } else if lo < hi {
        lo + 1
    } else {
        hi
    }
}

/// The name at position `i`, if it is a name token within the length
/// capacity.
pub open spec fn spec_name_tok(ts: Seq<TokenV>, i: int) -> Option<Seq<char>> {
    if 0 <= i && i < ts.len() {
        match ts[i] {
            TokenV::Name(s) => if s.len() <= spec_max_name_len() {
                Option::Some(s)
            } else {
                Option::None
            },
            _ => Option::None,
        }
    } else {
        Option::None
    }
}

/// A name or the erasure marker `*` at position `i`.
pub open spec fn spec_name_or_era(ts: Seq<TokenV>, i: int) -> Option<Option<Seq<char>>> {
    if 0 <= i && i < ts.len() && ts[i] is Asterisk {
        Option::Some(Option::None)
    } else {
        match spec_name_tok(ts, i) {
            Option::Some(s) => Option::Some(Option::Some(s)),
            Option::None => Option::None,
        }
    }
}

/// The numeric operator a token denotes, if any. `*` doubles as
/// multiplication.
pub open spec fn spec_oper(t: TokenV) -> Option<NumOper> {
    match t {
        TokenV::Add => Option::Some(NumOper::Add),
        TokenV::Sub => Option::Some(NumOper::Sub),
        TokenV::Asterisk => Option::Some(NumOper::Mul),
        TokenV::Div => Option::Some(NumOper::Div),
        TokenV::Mod => Option::Some(NumOper::Mod),
        TokenV::And => Option::Some(NumOper::And),
        TokenV::Or => Option::Some(NumOper::Or),
        TokenV::Xor => Option::Some(NumOper::Xor),
        TokenV::Shl => Option::Some(NumOper::Shl),
        TokenV::Shr => Option::Some(NumOper::Shr),
        TokenV::Lte => Option::Some(NumOper::Lte),
        TokenV::Ltn => Option::Some(NumOper::Ltn),
        TokenV::Gte => Option::Some(NumOper::Gte),
        TokenV::Gtn => Option::Some(NumOper::Gtn),
        TokenV::EqualsEquals => Option::Some(NumOper::Eql),
        TokenV::NotEquals => Option::Some(NumOper::Neq),
        _ => Option::None,
    }
}

/// The term starting at position `i`, with the position just past it.
///
/// Alternatives are decided by the first token: `$name`, `name`, a number,
/// `λ`/`@` (global when a `$` follows), `dup`, `let`, and a parenthesis,
/// which opens a numeric operation when an operator token follows and a
/// left-folded application otherwise. `let x = v` is sugar for
/// `App(Lam(x, nxt), v)` and leaves no node of its own. A binding's value
/// and its continuation are separated by a semicolon or at least one line
/// break.
pub open spec fn spec_term(ts: Seq<TokenV>, i: int) -> Option<(TermV, int)>
    decreases ts.len() - i, 0int,
{
    if !(0 <= i && i < ts.len()) {
        Option::None
    } else {
        match ts[i] {
            TokenV::Dollar => match spec_name_tok(ts, i + 1) {
                Option::Some(s) => Option::Some((TermV::GlobalVar { nam: s }, i + 2)),
                Option::None => Option::None,
            },
            TokenV::Name(_) => match spec_name_tok(ts, i) {
                Option::Some(s) => Option::Some((TermV::Var { nam: s }, i + 1)),
                Option::None => Option::None,
            },
            TokenV::Number(v) => Option::Some((TermV::Num { val: v }, i + 1)),
            TokenV::Lambda => {
                let j = nl(ts, i + 1);
                proof {
                    lemma_nl(ts, i + 1);
                }
                if j < ts.len() && ts[j] is Dollar {
                    let k = nl(ts, j + 1);
                    proof {
                        lemma_nl(ts, j + 1);
                    }
                    match spec_name_tok(ts, k) {
                        Option::Some(s) => {
                            let m = nl(ts, k + 1);
                            proof {
                                lemma_nl(ts, k + 1);
                            }
                            match spec_term(ts, m) {
                                Option::Some((b, p)) => Option::Some(
                                    (TermV::GlobalLam { nam: s, bod: Box::new(b) }, p),
                                ),
                                Option::None => Option::None,
                            }
                        },
                        Option::None => Option::None,
                    }
                } else {
                    match spec_name_or_era(ts, j) {
                        Option::Some(o) => {
                            let m = nl(ts, j + 1);
                            proof {
                                if j < ts.len() {
                                    lemma_nl(ts, j + 1);
                                }
                            }
                            match spec_term(ts, m) {
                                Option::Some((b, p)) => Option::Some(
                                    (TermV::Lam { nam: o, bod: Box::new(b) }, p),
                                ),
                                Option::None => Option::None,
                            }
                        },
                        Option::None => Option::None,
                    }
                }
            },
            TokenV::Dup => {
                let j1 = nl(ts, i + 1);
                proof {
                    lemma_nl(ts, i + 1);
                }
                match spec_name_or_era(ts, j1) {
                    Option::Some(f) => {
                        let j2 = nl(ts, j1 + 1);
                        proof {
                            if j1 < ts.len() {
                                lemma_nl(ts, j1 + 1);
                            }
                        }
                        match spec_name_or_era(ts, j2) {
                            Option::Some(sn) => {
                                let j3 = nl(ts, j2 + 1);
                                proof {
                                    if j2 < ts.len() {
                                        lemma_nl(ts, j2 + 1);
                                    }
                                }
                                if j3 < ts.len() && ts[j3] is Equals {
                                    let j4 = nl(ts, j3 + 1);
                                    proof {
                                        lemma_nl(ts, j3 + 1);
                                    }
                                    match spec_term(ts, j4) {
                                        Option::Some((v, p0)) => {
                                            let p = adv(j4, ts.len() as int, p0);
                                            let q = nl(ts, p);
                                            proof {
                                                lemma_nl(ts, p);
                                            }
                                            if q < ts.len() && ts[q] is Semicolon {
                                                let r0 = nl(ts, q + 1);
                                                proof {
                                                    lemma_nl(ts, q + 1);
                                                }
                                                match spec_term(ts, r0) {
                                                    Option::Some((nxt, p2)) => Option::Some(
                                                        (
                                                            TermV::Dup {
                                                                fst: f,
                                                                snd: sn,
                                                                val: Box::new(v),
                                                                nxt: Box::new(nxt),
                                                            },
                                                            p2,
                                                        ),
                                                    ),
                                                    Option::None => Option::None,
                                                }
                                            } else if q > p {
                                                match spec_term(ts, q) {
                                                    Option::Some((nxt, p2)) => Option::Some(
                                                        (
                                                            TermV::Dup {
                                                                fst: f,
                                                                snd: sn,
                                                                val: Box::new(v),
                                                                nxt: Box::new(nxt),
                                                            },
                                                            p2,
                                                        ),
                                                    ),
                                                    Option::None => Option::None,
                                                }
                                            } else {
                                                Option::None
                                            }
                                        },
                                        Option::None => Option::None,
                                    }
                                } else {
                                    Option::None
                                }
                            },
                            Option::None => Option::None,
                        }
                    },
                    Option::None => Option::None,
                }
            },
            TokenV::Let => {
                let j1 = nl(ts, i + 1);
                proof {
                    lemma_nl(ts, i + 1);
                }
                match spec_name_or_era(ts, j1) {
                    Option::Some(o) => {
                        let j3 = nl(ts, j1 + 1);
                        proof {
                            if j1 < ts.len() {
                                lemma_nl(ts, j1 + 1);
                            }
                        }
                        if j3 < ts.len() && ts[j3] is Equals {
                            let j4 = nl(ts, j3 + 1);
                            proof {
                                lemma_nl(ts, j3 + 1);
                            }
                            match spec_term(ts, j4) {
                                Option::Some((v, p0)) => {
                                    let p = adv(j4, ts.len() as int, p0);
                                    let q = nl(ts, p);
                                    proof {
                                        lemma_nl(ts, p);
                                    }
                                    if q < ts.len() && ts[q] is Semicolon {
                                        let r0 = nl(ts, q + 1);
                                        proof {
                                            lemma_nl(ts, q + 1);
                                        }
                                        match spec_term(ts, r0) {
                                            Option::Some((nxt, p2)) => Option::Some(
                                                (
                                                    TermV::App {
                                                        fun: Box::new(
                                                            TermV::Lam { nam: o, bod: Box::new(nxt) },
                                                        ),
                                                        arg: Box::new(v),
                                                    },
                                                    p2,
                                                ),
                                            ),
                                            Option::None => Option::None,
                                        }
                                    } else if q > p {
                                        match spec_term(ts, q) {
                                            Option::Some((nxt, p2)) => Option::Some(
                                                (
                                                    TermV::App {
                                                        fun: Box::new(
                                                            TermV::Lam { nam: o, bod: Box::new(nxt) },
                                                        ),
                                                        arg: Box::new(v),
                                                    },
                                                    p2,
                                                ),
                                            ),
                                            Option::None => Option::None,
                                        }
                                    } else {
                                        Option::None
                                    }
                                },
                                Option::None => Option::None,
                            }
                        } else {
                            Option::None
                        }
                    },
                    Option::None => Option::None,
                }
            },
            TokenV::LParen => {
                let j = nl(ts, i + 1);
                proof {
                    lemma_nl(ts, i + 1);
                }
                if j < ts.len() && spec_oper(ts[j]) is Some {
                    match spec_oper(ts[j]) {
                        Option::Some(op) => {
                            let k1 = nl(ts, j + 1);
                            proof {
                                lemma_nl(ts, j + 1);
                            }
                            match spec_term(ts, k1) {
                                Option::Some((a, p0)) => {
                                    let p = adv(k1, ts.len() as int, p0);
                                    let k2 = nl(ts, p);
                                    proof {
                                        lemma_nl(ts, p);
                                    }
                                    match spec_term(ts, k2) {
                                        Option::Some((b, q0)) => {
                                            let q = adv(k2, ts.len() as int, q0);
                                            let e = nl(ts, q);
                                            if e < ts.len() && ts[e] is RParen {
                                                Option::Some(
                                                    (
                                                        TermV::NumOp {
                                                            op,
                                                            fst: Box::new(a),
                                                            snd: Box::new(b),
                                                        },
                                                        e + 1,
                                                    ),
                                                )
                                            } else {
                                                Option::None
                                            }
                                        },
                                        Option::None => Option::None,
                                    }
                                },
                                Option::None => Option::None,
                            }
                        },
                        Option::None => Option::None,
                    }
                } else {
                    match spec_term(ts, j) {
                        Option::Some((f, p0)) => {
                            let p = adv(j, ts.len() as int, p0);
                            spec_app_args(ts, p, f)
                        },
                        Option::None => Option::None,
                    }
                }
            },
            _ => Option::None,
        }
    }
}

/// The remaining arguments of a parenthesized application, folded onto
/// `acc` left to right, up to the closing parenthesis.
pub open spec fn spec_app_args(ts: Seq<TokenV>, i: int, acc: TermV) -> Option<(TermV, int)>
    decreases ts.len() - i, 1int,
{
    if !(0 <= i && i <= ts.len()) {
        Option::None
    } else {
        let j = nl(ts, i);
        proof {
            lemma_nl(ts, i);
        }
        if j < ts.len() && ts[j] is RParen {
            Option::Some((acc, j + 1))
        } else if j >= ts.len() {
            Option::None
        } else {
            match spec_term(ts, j) {
                Option::Some((a, p0)) => {
                    let p = adv(j, ts.len() as int, p0);
                    spec_app_args(ts, p, TermV::App { fun: Box::new(acc), arg: Box::new(a) })
                },
                Option::None => Option::None,
            }
        }
    }
}

/// The pattern starting at position `i`: a parenthesized constructor, a
/// number, a name, or the erasure marker.
pub open spec fn spec_pattern(ts: Seq<TokenV>, i: int) -> Option<(PatternV, int)>
    decreases ts.len() - i, 0int,
{
    if !(0 <= i && i < ts.len()) {
        Option::None
    } else {
        match ts[i] {
            TokenV::LParen => match spec_name_tok(ts, i + 1) {
                Option::Some(n) => spec_pat_args(ts, i + 2, n, Seq::empty()),
                Option::None => Option::None,
            },
            TokenV::Number(v) => Option::Some((PatternV::Num(v), i + 1)),
            TokenV::Asterisk => Option::Some((PatternV::Var(Option::None), i + 1)),
            TokenV::Name(_) => match spec_name_tok(ts, i) {
                Option::Some(s) => Option::Some((PatternV::Var(Option::Some(s)), i + 1)),
                Option::None => Option::None,
            },
            _ => Option::None,
        }
    }
}

/// The sub-patterns of a constructor pattern, up to its closing
/// parenthesis.
pub open spec fn spec_pat_args(ts: Seq<TokenV>, i: int, n: Seq<char>, acc: Seq<PatternV>) -> Option<
    (PatternV, int),
>
    decreases ts.len() - i, 1int,
{
    if !(0 <= i && i <= ts.len()) {
        Option::None
    } else if i < ts.len() && ts[i] is RParen {
        Option::Some((PatternV::Ctr(n, acc), i + 1))
    } else if i >= ts.len() {
        Option::None
    } else {
        match spec_pattern(ts, i) {
            Option::Some((p, q0)) => {
                let q = adv(i, ts.len() as int, q0);
                spec_pat_args(ts, q, n, acc.push(p))
            },
            Option::None => Option::None,
        }
    }
}

/// The head patterns of a rule: as many patterns as parse, and the
/// position where they stop.
pub open spec fn spec_rule_pats(ts: Seq<TokenV>, i: int, acc: Seq<PatternV>) -> (Seq<PatternV>, int)
    decreases ts.len() - i, 1int,
{
    if !(0 <= i && i < ts.len()) {
        (acc, if 0 <= i && i <= ts.len() { i } else { ts.len() as int })
    } else {
        match spec_pattern(ts, i) {
            Option::Some((p, q0)) => {
                let q = adv(i, ts.len() as int, q0);
                spec_rule_pats(ts, q, acc.push(p))
            },
            Option::None => (acc, i),
        }
    }
}

/// The remaining terms of an unparenthesized application, folded onto
/// `acc`; stops where no further term starts.
pub open spec fn spec_inline_args(ts: Seq<TokenV>, i: int, acc: TermV) -> (TermV, int)
    decreases ts.len() - i, 1int,
{
    if !(0 <= i && i < ts.len()) {
        (acc, if 0 <= i && i <= ts.len() { i } else { ts.len() as int })
    } else {
        match spec_term(ts, i) {
            Option::Some((a, q0)) => {
                let q = adv(i, ts.len() as int, q0);
                spec_inline_args(ts, q, TermV::App { fun: Box::new(acc), arg: Box::new(a) })
            },
            Option::None => (acc, i),
        }
    }
}

/// An inline rule body or standalone form: a prefix numeric operation
/// `op a b` when an operator token leads, else an application by
/// juxtaposition. No term starts with an operator token, so the two
/// never compete.
pub open spec fn spec_inline(ts: Seq<TokenV>, i: int) -> Option<(TermV, int)> {
    if !(0 <= i && i < ts.len()) {
        Option::None
    } else {
        match spec_oper(ts[i]) {
            Option::Some(op) => match spec_term(ts, i + 1) {
                Option::Some((a, p0)) => {
                    let p = adv(i + 1, ts.len() as int, p0);
                    match spec_term(ts, p) {
                        Option::Some((b, q0)) => Option::Some(
                            (TermV::NumOp { op, fst: Box::new(a), snd: Box::new(b) }, q0),
                        ),
                        Option::None => Option::None,
                    }
                },
                Option::None => Option::None,
            },
            Option::None => match spec_term(ts, i) {
                Option::Some((f, p0)) => {
                    let p = adv(i, ts.len() as int, p0);
                    let (t, e) = spec_inline_args(ts, p, f);
                    Option::Some((t, e))
                },
                Option::None => Option::None,
            },
        }
    }
}

/// The rule starting at position `i`: a head name (optionally alone in
/// parentheses), its patterns, `=`, and an inline body; line breaks are
/// allowed around the `=`.
pub open spec fn spec_rule(ts: Seq<TokenV>, i: int) -> Option<(RuleV, int)> {
    if !(0 <= i && i < ts.len()) {
        Option::None
    } else {
        let head = if ts[i] is Name {
            match spec_name_tok(ts, i) {
                Option::Some(n) => Option::Some((n, i + 1)),
                Option::None => Option::None,
            }
        } else if ts[i] is LParen {
            match spec_name_tok(ts, i + 1) {
                Option::Some(n) => if i + 2 < ts.len() && ts[i + 2] is RParen {
                    Option::Some((n, i + 3))
                } else {
                    Option::None
                },
                Option::None => Option::None,
            }
        } else {
            Option::None
        };
        match head {
            Option::Some((n, h)) => {
                let (pats, p) = spec_rule_pats(ts, h, Seq::empty());
                let e = nl(ts, p);
                if 0 <= e && e < ts.len() && ts[e] is Equals {
                    let b = nl(ts, e + 1);
                    match spec_inline(ts, b) {
                        Option::Some((t, q)) => Option::Some(
                            (RuleV { id: spec_name_to_val(n), pats, body: t }, q),
                        ),
                        Option::None => Option::None,
                    }
                } else {
                    Option::None
                }
            },
            Option::None => Option::None,
        }
    }
}

/// A name token is accepted exactly when its length is within the
/// capacity: a name of exactly the capacity parses, one character longer
/// never does.
pub proof fn lemma_name_length_boundary(ts: Seq<TokenV>, i: int, s: Seq<char>)
    requires
        0 <= i < ts.len(),
        ts[i] == TokenV::Name(s),
    ensures
        spec_name_tok(ts, i) is Some <==> s.len() <= spec_max_name_len(),
{
}

/// `let` is sugar, not a construct of its own: whatever a `let` form
/// parses to is an application whose function is an abstraction over the
/// continuation, applied to the bound value.
pub proof fn lemma_let_is_sugar(ts: Seq<TokenV>, i: int, t: TermV, p: int)
    requires
        0 <= i < ts.len(),
        ts[i] is Let,
        spec_term(ts, i) == Option::Some((t, p)),
    ensures
        t matches TermV::App { fun, arg } && (*fun) matches TermV::Lam { .. },
{
}

/// All rules of a source file, each with the token range it was parsed
/// from, and the number of diagnostics collected on the way. After a
/// malformed rule, or stray tokens after a rule on the same line, parsing
/// resumes at the next line break, so one pass reports every malformed
/// clause.
pub open spec fn spec_rules(ts: Seq<TokenV>, i: int) -> (Seq<(RuleV, int, int)>, nat)
    decreases ts.len() - i when 0 <= i <= ts.len()
{
    let j = nl(ts, i);
    proof {
        lemma_nl(ts, i);
    }
    if j >= ts.len() {
        (Seq::empty(), 0)
    } else {
        match spec_rule(ts, j) {
            Option::Some((r, q0)) => {
                let q = adv(j, ts.len() as int, q0);
                if q == ts.len() || ts[q] is NewLine {
                    let rest = spec_rules(ts, q);
                    (seq![(r, j, q)] + rest.0, rest.1)
                } else {
                    let k = nx(ts, q);
                    proof {
                        lemma_nx(ts, q);
                    }
                    let rest = spec_rules(ts, k);
                    (rest.0, rest.1 + 1)
                }
            },
            Option::None => {
                let k = nx(ts, j + 1);
                proof {
                    lemma_nx(ts, j + 1);
                }
                let rest = spec_rules(ts, k);
                (rest.0, rest.1 + 1)
            },
        }
    }
}

/// The clauses of a `spec_rules` result, without their token ranges.
pub open spec fn spec_rules_clauses(infos: Seq<(RuleV, int, int)>) -> Seq<RuleV> {
    infos.map_values(|x: (RuleV, int, int)| x.0)
}

/// A standalone term: line breaks, one inline form, line breaks, end of
/// input.
pub open spec fn spec_standalone(ts: Seq<TokenV>) -> Option<TermV> {
    let i = nl(ts, 0);
    match spec_inline(ts, i) {
        Option::Some((t, p0)) => {
            let p = adv(i, ts.len() as int, p0);
            if nl(ts, p) == ts.len() {
                Option::Some(t)
            } else {
                Option::None
            }
        },
        Option::None => Option::None,
    }
}

/// A diagnostic for the token at `i` (or the end of input): a lexical
/// error where the lexer produced an error token, otherwise an unexpected
/// token or end.
pub(crate) fn mk_unexpected(ts: &Vec<(Token, Span)>, i: usize) -> (d: Diagnostic)
    ensures
        !(d.kind matches DiagnosticKind::RepeatedDefinition { .. }),
        d.kind matches DiagnosticKind::UnexpectedEnd <==> i >= ts@.len(),
{
    if i < ts.len() {
        let kind = if matches!(&ts[i].0, Token::Error) {
            DiagnosticKind::LexError
        } else {
            DiagnosticKind::UnexpectedToken
        };
        Diagnostic { kind, span: ts[i].1 }
    } else {
        let end = if ts.len() > 0 {
            ts[ts.len() - 1].1.end
        } else {
            0
        };
        Diagnostic { kind: DiagnosticKind::UnexpectedEnd, span: Span { start: end, end } }
    }
}

/// Skip line-break tokens.
pub(crate) fn nl_skip(ts: &Vec<(Token, Span)>, i: usize) -> (j: usize)
    requires
        i <= ts@.len(),
    ensures
        j as int == nl(tviews(ts@), i as int),
        i <= j <= ts@.len(),
{
    // binding the length keeps the position arithmetic below within usize
    let n = ts.len();
    let mut j = i;
    while j < n && matches!(&ts[j].0, Token::NewLine)
        invariant
            i <= j <= n,
            n == ts@.len(),
            nl(tviews(ts@), i as int) == nl(tviews(ts@), j as int),
        decreases n - j,
    {
        proof {
            assert(tviews(ts@)[j as int] == ts@[j as int].0@);
        }
        j = j + 1;
    }
    proof {
        if j < n {
            assert(tviews(ts@)[j as int] == ts@[j as int].0@);
        }
    }
    j
}

/// Skip to the next line-break token (or the end of input).
pub(crate) fn nx_skip(ts: &Vec<(Token, Span)>, i: usize) -> (j: usize)
    requires
        i <= ts@.len(),
    ensures
        j as int == nx(tviews(ts@), i as int),
        i <= j <= ts@.len(),
{
    // binding the length keeps the position arithmetic below within usize
    let n = ts.len();
    let mut j = i;
    while j < n && !matches!(&ts[j].0, Token::NewLine)
        invariant
            i <= j <= n,
            n == ts@.len(),
            nx(tviews(ts@), i as int) == nx(tviews(ts@), j as int),
        decreases n - j,
    {
        proof {
            assert(tviews(ts@)[j as int] == ts@[j as int].0@);
        }
        j = j + 1;
    }
    proof {
        if j < n {
            assert(tviews(ts@)[j as int] == ts@[j as int].0@);
        }
    }
    j
}

/// The numeric operator a token denotes.
fn oper_of(t: &Token) -> (r: Option<NumOper>)
    ensures
        r == spec_oper(t@),
{
    match t {
        Token::Add => Option::Some(NumOper::Add),
        Token::Sub => Option::Some(NumOper::Sub),
        Token::Asterisk => Option::Some(NumOper::Mul),
        Token::Div => Option::Some(NumOper::Div),
        Token::Mod => Option::Some(NumOper::Mod),
        Token::And => Option::Some(NumOper::And),
        Token::Or => Option::Some(NumOper::Or),
        Token::Xor => Option::Some(NumOper::Xor),
        Token::Shl => Option::Some(NumOper::Shl),
        Token::Shr => Option::Some(NumOper::Shr),
        Token::Lte => Option::Some(NumOper::Lte),
        Token::Ltn => Option::Some(NumOper::Ltn),
        Token::Gte => Option::Some(NumOper::Gte),
        Token::Gtn => Option::Some(NumOper::Gtn),
        Token::EqualsEquals => Option::Some(NumOper::Eql),
        Token::NotEquals => Option::Some(NumOper::Neq),
        _ => Option::None,
    }
}

/// Accept a name token, rejecting one past the length capacity with a
/// `NameTooLong` diagnostic that carries the capacity and the offending
/// text, anchored at the token's source range.
pub fn parse_name(ts: &Vec<(Token, Span)>, i: usize) -> (r: Result<(Name, usize), Diagnostic>)
    requires
        i <= ts@.len(),
        tokens_wf(ts@),
    ensures
        (match r {
            Result::Err(d) => !(d.kind matches DiagnosticKind::RepeatedDefinition { .. }),
            Result::Ok(_) => true,
        }),
        (match r {
            Result::Ok(p) => {
                &&& spec_name_tok(tviews(ts@), i as int) == Option::Some(p.0@)
                &&& p.1 == i + 1
                &&& i < ts@.len()
                &&& name_seq_wf(p.0@)
            },
            Result::Err(_) => spec_name_tok(tviews(ts@), i as int) is None,
        }),
        (match r {
            Result::Err(d) => (i < ts@.len() && (ts@[i as int].0@ matches TokenV::Name(s) && s.len()
                > spec_max_name_len())) ==> (d.kind matches DiagnosticKind::NameTooLong {
                name,
                capacity,
            } && name@ == (match ts@[i as int].0@ {
                TokenV::Name(s2) => s2,
                _ => Seq::empty(),
            }) && capacity as int == spec_max_name_len() && d.span == ts@[i as int].1),
            Result::Ok(_) => true,
        }),
{
    proof {
        if i < ts@.len() {
            assert(tviews(ts@)[i as int] == ts@[i as int].0@);
        }
    }
    if i < ts.len() {
        match &ts[i].0 {
            Token::Name(s) => {
                let max = crate::name::max_name_len();
                if s.unicode_len() > max {
                    Result::Err(
                        Diagnostic {
                            kind: DiagnosticKind::NameTooLong { name: s.clone(), capacity: max },
                            span: ts[i].1,
                        },
                    )
                } else {
                    proof {
                        assert(tokens_wf(ts@));
                        assert(match ts@[i as int].0@ {
                            TokenV::Name(n) => name_seq_wf(n),
                            _ => true,
                        });
                    }
                    Result::Ok((Name(s.clone()), i + 1))
                }
            },
            _ => Result::Err(mk_unexpected(ts, i)),
        }
    } else {
        Result::Err(mk_unexpected(ts, i))
    }
}

/// Accept a name or the erasure marker `*`.
fn parse_name_or_era(ts: &Vec<(Token, Span)>, i: usize) -> (r: Result<
    (Option<Name>, usize),
    Diagnostic,
>)
    requires
        i <= ts@.len(),
        tokens_wf(ts@),
    ensures
        (match r {
            Result::Err(d) => !(d.kind matches DiagnosticKind::RepeatedDefinition { .. }),
            Result::Ok(_) => true,
        }),
        (match r {
            Result::Ok(p) => {
                &&& spec_name_or_era(tviews(ts@), i as int) == Option::Some(
                    crate::ast::opt_name_view(p.0),
                )
                &&& p.1 == i + 1
                &&& i < ts@.len()
            },
            Result::Err(_) => spec_name_or_era(tviews(ts@), i as int) is None,
        }),
{
    proof {
        if i < ts@.len() {
            assert(tviews(ts@)[i as int] == ts@[i as int].0@);
        }
    }
    if i < ts.len() && matches!(&ts[i].0, Token::Asterisk) {
        Result::Ok((Option::None, i + 1))
    } else {
        match parse_name(ts, i) {
            Result::Ok((n, j)) => Result::Ok((Option::Some(n), j)),
            Result::Err(d) => Result::Err(d),
        }
    }
}

/// Parse the term starting at `i`.
fn parse_term_at(ts: &Vec<(Token, Span)>, i: usize) -> (r: Result<(Term, usize), Diagnostic>)
    requires
        i <= ts@.len(),
        tokens_wf(ts@),
    ensures
        (match r {
            Result::Err(d) => !(d.kind matches DiagnosticKind::RepeatedDefinition { .. }),
            Result::Ok(_) => true,
        }),
        (match r {
            Result::Ok(p) => spec_term(tviews(ts@), i as int) == Option::Some((p.0@, p.1 as int))
                && i < p.1 <= ts@.len(),
            Result::Err(_) => spec_term(tviews(ts@), i as int) is None,
        }),
    decreases ts@.len() - i, 1int,
{
    let ghost tv = tviews(ts@);
    if i >= ts.len() {
        return Result::Err(mk_unexpected(ts, i));
    }
    proof {
        assert(tv[i as int] == ts@[i as int].0@);
    }
    match &ts[i].0 {
        Token::Dollar => match parse_name(ts, i + 1) {
            Result::Ok((n, j)) => Result::Ok((Term::GlobalVar { nam: n }, j)),
            Result::Err(d) => Result::Err(d),
        },
        Token::Name(_) => match parse_name(ts, i) {
            Result::Ok((n, j)) => Result::Ok((Term::Var { nam: n }, j)),
            Result::Err(d) => Result::Err(d),
        },
        Token::Number(v) => Result::Ok((Term::Num { val: *v }, i + 1)),
        Token::Lambda => parse_lambda(ts, i),
        Token::Dup => parse_dup(ts, i),
        Token::Let => parse_let(ts, i),
        Token::LParen => parse_paren(ts, i),
        _ => Result::Err(mk_unexpected(ts, i)),
    }
}

/// Parse a local or global abstraction; `ts[i]` is the lambda token.
fn parse_lambda(ts: &Vec<(Token, Span)>, i: usize) -> (r: Result<(Term, usize), Diagnostic>)
    requires
        i < ts@.len(),
        tokens_wf(ts@),
        ts@[i as int].0@ is Lambda,
    ensures
        (match r {
            Result::Err(d) => !(d.kind matches DiagnosticKind::RepeatedDefinition { .. }),
            Result::Ok(_) => true,
        }),
        (match r {
            Result::Ok(p) => spec_term(tviews(ts@), i as int) == Option::Some((p.0@, p.1 as int))
                && i < p.1 <= ts@.len(),
            Result::Err(_) => spec_term(tviews(ts@), i as int) is None,
        }),
    decreases ts@.len() - i, 0int,
{
    let ghost tv = tviews(ts@);
    // binding the length keeps the position arithmetic below within usize
    let n = ts.len();
    proof {
        assert(tv[i as int] == ts@[i as int].0@);
    }
    let j = nl_skip(ts, i + 1);
    proof {
        if j < ts@.len() {
            assert(tv[j as int] == ts@[j as int].0@);
        }
    }
    if j < ts.len() && matches!(&ts[j].0, Token::Dollar) {
        let k = nl_skip(ts, j + 1);
        match parse_name(ts, k) {
            Result::Ok((n, k2)) => {
                let m = nl_skip(ts, k2);
                match parse_term_at(ts, m) {
                    Result::Ok((b, p)) => Result::Ok(
                        (Term::GlobalLam { nam: n, bod: Box::new(b) }, p),
                    ),
                    Result::Err(d) => Result::Err(d),
                }
            },
            Result::Err(d) => Result::Err(d),
        }
    } else {
        match parse_name_or_era(ts, j) {
            Result::Ok((o, j2)) => {
                let m = nl_skip(ts, j2);
                match parse_term_at(ts, m) {
                    Result::Ok((b, p)) => Result::Ok((Term::Lam { nam: o, bod: Box::new(b) }, p)),
                    Result::Err(d) => Result::Err(d),
                }
            },
            Result::Err(d) => Result::Err(d),
        }
    }
}

/// Parse the separator between a binding's value and its continuation,
/// then the continuation: a semicolon, or at least one line break.
/// Returns the continuation term and the end position, from the position
/// `p` just past the value.
fn parse_bind_next(ts: &Vec<(Token, Span)>, p: usize) -> (r: Result<(Term, usize), Diagnostic>)
    requires
        p <= ts@.len(),
        tokens_wf(ts@),
    ensures
        (match r {
            Result::Err(d) => !(d.kind matches DiagnosticKind::RepeatedDefinition { .. }),
            Result::Ok(_) => true,
        }),
        (match r {
            Result::Ok(o) => {
                let q = nl(tviews(ts@), p as int);
                &&& p < o.1 <= ts@.len()
                &&& if q < ts@.len() && tviews(ts@)[q] is Semicolon {
                    spec_term(tviews(ts@), nl(tviews(ts@), q + 1)) == Option::Some(
                        (o.0@, o.1 as int),
                    )
                } else {
                    q > p && spec_term(tviews(ts@), q) == Option::Some((o.0@, o.1 as int))
                }
            },
            Result::Err(_) => {
                let q = nl(tviews(ts@), p as int);
                if q < ts@.len() && tviews(ts@)[q] is Semicolon {
                    spec_term(tviews(ts@), nl(tviews(ts@), q + 1)) is None
                } else {
                    !(q > p) || spec_term(tviews(ts@), q) is None
                }
            },
        }),
    decreases ts@.len() - p, 0int,
{
    let ghost tv = tviews(ts@);
    let q = nl_skip(ts, p);
    proof {
        if q < ts@.len() {
            assert(tv[q as int] == ts@[q as int].0@);
        }
    }
    if q < ts.len() && matches!(&ts[q].0, Token::Semicolon) {
        let r0 = nl_skip(ts, q + 1);
        parse_term_at(ts, r0)
    } else if q > p {
        parse_term_at(ts, q)
    } else {
        Result::Err(mk_unexpected(ts, q))
    }
}

/// Parse an explicit duplication; `ts[i]` is the `dup` keyword.
fn parse_dup(ts: &Vec<(Token, Span)>, i: usize) -> (r: Result<(Term, usize), Diagnostic>)
    requires
        i < ts@.len(),
        tokens_wf(ts@),
        ts@[i as int].0@ is Dup,
    ensures
        (match r {
            Result::Err(d) => !(d.kind matches DiagnosticKind::RepeatedDefinition { .. }),
            Result::Ok(_) => true,
        }),
        (match r {
            Result::Ok(p) => spec_term(tviews(ts@), i as int) == Option::Some((p.0@, p.1 as int))
                && i < p.1 <= ts@.len(),
            Result::Err(_) => spec_term(tviews(ts@), i as int) is None,
        }),
    decreases ts@.len() - i, 0int,
{
    let ghost tv = tviews(ts@);
    // binding the length keeps the position arithmetic below within usize
    let n = ts.len();
    proof {
        assert(tv[i as int] == ts@[i as int].0@);
    }
    let j1 = nl_skip(ts, i + 1);
    match parse_name_or_era(ts, j1) {
        Result::Ok((f, j1b)) => {
            let j2 = nl_skip(ts, j1b);
            match parse_name_or_era(ts, j2) {
                Result::Ok((sn, j2b)) => {
                    let j3 = nl_skip(ts, j2b);
                    proof {
                        if j3 < ts@.len() {
                            assert(tv[j3 as int] == ts@[j3 as int].0@);
                        }
                    }
                    if j3 < ts.len() && matches!(&ts[j3].0, Token::Equals) {
                        let j4 = nl_skip(ts, j3 + 1);
                        match parse_term_at(ts, j4) {
                            Result::Ok((v, p)) => {
                                proof {
                                    assert(adv(j4 as int, ts@.len() as int, p as int) == p as int);
                                }
                                match parse_bind_next(ts, p) {
                                    Result::Ok((nxt, p2)) => Result::Ok(
                                        (
                                            Term::Dup {
                                                fst: f,
                                                snd: sn,
                                                val: Box::new(v),
                                                nxt: Box::new(nxt),
                                            },
                                            p2,
                                        ),
                                    ),
                                    Result::Err(d) => Result::Err(d),
                                }
                            },
                            Result::Err(d) => Result::Err(d),
                        }
                    } else {
                        Result::Err(mk_unexpected(ts, j3))
                    }
                },
                Result::Err(d) => Result::Err(d),
            }
        },
        Result::Err(d) => Result::Err(d),
    }
}

/// Parse a `let` binding, which desugars to an application of an
/// abstraction; `ts[i]` is the `let` keyword.
#[verifier::rlimit(60)]
#[verifier::spinoff_prover]
fn parse_let(ts: &Vec<(Token, Span)>, i: usize) -> (r: Result<(Term, usize), Diagnostic>)
    requires
        i < ts@.len(),
        tokens_wf(ts@),
        ts@[i as int].0@ is Let,
    ensures
        (match r {
            Result::Err(d) => !(d.kind matches DiagnosticKind::RepeatedDefinition { .. }),
            Result::Ok(_) => true,
        }),
        (match r {
            Result::Ok(p) => spec_term(tviews(ts@), i as int) == Option::Some((p.0@, p.1 as int))
                && i < p.1 <= ts@.len(),
            Result::Err(_) => spec_term(tviews(ts@), i as int) is None,
        }),
    decreases ts@.len() - i, 0int,
{
    let ghost tv = tviews(ts@);
    // binding the length keeps the position arithmetic below within usize
    let n = ts.len();
    proof {
        assert(tv[i as int] == ts@[i as int].0@);
    }
    let j1 = nl_skip(ts, i + 1);
    match parse_name_or_era(ts, j1) {
        Result::Ok((o, j1b)) => {
            let j3 = nl_skip(ts, j1b);
            proof {
                if j3 < ts@.len() {
                    assert(tv[j3 as int] == ts@[j3 as int].0@);
                }
            }
            if j3 < ts.len() && matches!(&ts[j3].0, Token::Equals) {
                let j4 = nl_skip(ts, j3 + 1);
                match parse_term_at(ts, j4) {
                    Result::Ok((v, p)) => {
                        proof {
                            assert(adv(j4 as int, ts@.len() as int, p as int) == p as int);
                        }
                        match parse_bind_next(ts, p) {
                            Result::Ok((nxt, p2)) => {
                                let lam = Term::Lam { nam: o, bod: Box::new(nxt) };
                                proof {
                                    assert(lam@ matches TermV::Lam { .. });
                                }
                                Result::Ok(
                                    (Term::App { fun: Box::new(lam), arg: Box::new(v) }, p2),
                                )
                            },
                            Result::Err(d) => Result::Err(d),
                        }
                    },
                    Result::Err(d) => Result::Err(d),
                }
            } else {
                Result::Err(mk_unexpected(ts, j3))
            }
        },
        Result::Err(d) => Result::Err(d),
    }
}

/// Parse a parenthesized form: a numeric operation when an operator token
/// follows the parenthesis, else an application; `ts[i]` is `(`.
fn parse_paren(ts: &Vec<(Token, Span)>, i: usize) -> (r: Result<(Term, usize), Diagnostic>)
    requires
        i < ts@.len(),
        tokens_wf(ts@),
        ts@[i as int].0@ is LParen,
    ensures
        (match r {
            Result::Err(d) => !(d.kind matches DiagnosticKind::RepeatedDefinition { .. }),
            Result::Ok(_) => true,
        }),
        (match r {
            Result::Ok(p) => spec_term(tviews(ts@), i as int) == Option::Some((p.0@, p.1 as int))
                && i < p.1 <= ts@.len(),
            Result::Err(_) => spec_term(tviews(ts@), i as int) is None,
        }),
    decreases ts@.len() - i, 0int,
{
    let ghost tv = tviews(ts@);
    // binding the length keeps the position arithmetic below within usize
    let n = ts.len();
    proof {
        assert(tv[i as int] == ts@[i as int].0@);
    }
    let j = nl_skip(ts, i + 1);
    proof {
        if j < ts@.len() {
            assert(tv[j as int] == ts@[j as int].0@);
        }
    }
    let op = if j < ts.len() {
        oper_of(&ts[j].0)
    } else {
        Option::None
    };
    match op {
        Option::Some(op) => {
            let k1 = nl_skip(ts, j + 1);
            match parse_term_at(ts, k1) {
                Result::Ok((a, p)) => {
                    proof {
                        assert(adv(k1 as int, ts@.len() as int, p as int) == p as int);
                    }
                    let k2 = nl_skip(ts, p);
                    match parse_term_at(ts, k2) {
                        Result::Ok((b, q)) => {
                            proof {
                                assert(adv(k2 as int, ts@.len() as int, q as int) == q as int);
                            }
                            let e = nl_skip(ts, q);
                            proof {
                                if e < ts@.len() {
                                    assert(tv[e as int] == ts@[e as int].0@);
                                }
                            }
                            if e < ts.len() && matches!(&ts[e].0, Token::RParen) {
                                Result::Ok(
                                    (
                                        Term::NumOp { op, fst: Box::new(a), snd: Box::new(b) },
                                        e + 1,
                                    ),
                                )
                            } else {
                                Result::Err(mk_unexpected(ts, e))
                            }
                        },
                        Result::Err(d) => Result::Err(d),
                    }
                },
                Result::Err(d) => Result::Err(d),
            }
        },
        Option::None => {
            match parse_term_at(ts, j) {
                Result::Ok((f, p)) => {
                    proof {
                        assert(adv(j as int, ts@.len() as int, p as int) == p as int);
                    }
                    parse_app_args(ts, p, f)
                },
                Result::Err(d) => Result::Err(d),
            }
        },
    }
}

/// Parse the remaining arguments of a parenthesized application onto
/// `acc`.
fn parse_app_args(ts: &Vec<(Token, Span)>, i: usize, acc: Term) -> (r: Result<
    (Term, usize),
    Diagnostic,
>)
    requires
        i <= ts@.len(),
        tokens_wf(ts@),
    ensures
        (match r {
            Result::Err(d) => !(d.kind matches DiagnosticKind::RepeatedDefinition { .. }),
            Result::Ok(_) => true,
        }),
        (match r {
            Result::Ok(p) => spec_app_args(tviews(ts@), i as int, acc@) == Option::Some(
                (p.0@, p.1 as int),
            ) && i < p.1 <= ts@.len(),
            Result::Err(_) => spec_app_args(tviews(ts@), i as int, acc@) is None,
        }),
    decreases ts@.len() - i, 2int,
{
    let ghost tv = tviews(ts@);
    let j = nl_skip(ts, i);
    proof {
        if j < ts@.len() {
            assert(tv[j as int] == ts@[j as int].0@);
        }
    }
    if j < ts.len() && matches!(&ts[j].0, Token::RParen) {
        Result::Ok((acc, j + 1))
    } else if j >= ts.len() {
        Result::Err(mk_unexpected(ts, j))
    } else {
        match parse_term_at(ts, j) {
            Result::Ok((a, p)) => {
                proof {
                    assert(adv(j as int, ts@.len() as int, p as int) == p as int);
                }
                parse_app_args(ts, p, Term::App { fun: Box::new(acc), arg: Box::new(a) })
            },
            Result::Err(d) => Result::Err(d),
        }
    }
}

/// Parse the pattern starting at `i`.
fn parse_pattern_at(ts: &Vec<(Token, Span)>, i: usize) -> (r: Result<(Pattern, usize), Diagnostic>)
    requires
        i <= ts@.len(),
        tokens_wf(ts@),
    ensures
        (match r {
            Result::Err(d) => !(d.kind matches DiagnosticKind::RepeatedDefinition { .. }),
            Result::Ok(_) => true,
        }),
        (match r {
            Result::Ok(p) => spec_pattern(tviews(ts@), i as int) == Option::Some(
                (p.0@, p.1 as int),
            ) && i < p.1 <= ts@.len(),
            Result::Err(_) => spec_pattern(tviews(ts@), i as int) is None,
        }),
    decreases ts@.len() - i, 0int,
{
    let ghost tv = tviews(ts@);
    if i >= ts.len() {
        return Result::Err(mk_unexpected(ts, i));
    }
    proof {
        assert(tv[i as int] == ts@[i as int].0@);
    }
    match &ts[i].0 {
        Token::LParen => match parse_name(ts, i + 1) {
            Result::Ok((n, j)) => parse_pat_args(ts, j, n, Vec::new()),
            Result::Err(d) => Result::Err(d),
        },
        Token::Number(v) => Result::Ok((Pattern::Num(*v), i + 1)),
        Token::Asterisk => Result::Ok((Pattern::Var(Option::None), i + 1)),
        Token::Name(_) => match parse_name(ts, i) {
            Result::Ok((n, j)) => Result::Ok((Pattern::Var(Option::Some(n)), j)),
            Result::Err(d) => Result::Err(d),
        },
        _ => Result::Err(mk_unexpected(ts, i)),
    }
}

/// Parse the sub-patterns of a constructor pattern up to `)`.
fn parse_pat_args(ts: &Vec<(Token, Span)>, i: usize, n: Name, acc: Vec<Pattern>) -> (r: Result<
    (Pattern, usize),
    Diagnostic,
>)
    requires
        i <= ts@.len(),
        tokens_wf(ts@),
    ensures
        (match r {
            Result::Err(d) => !(d.kind matches DiagnosticKind::RepeatedDefinition { .. }),
            Result::Ok(_) => true,
        }),
        (match r {
            Result::Ok(p) => spec_pat_args(tviews(ts@), i as int, n@, pats_view(acc@))
                == Option::Some((p.0@, p.1 as int)) && i < p.1 <= ts@.len(),
            Result::Err(_) => spec_pat_args(tviews(ts@), i as int, n@, pats_view(acc@)) is None,
        }),
    decreases ts@.len() - i, 1int,
{
    let ghost tv = tviews(ts@);
    proof {
        if i < ts@.len() {
            assert(tv[i as int] == ts@[i as int].0@);
        }
    }
    if i < ts.len() && matches!(&ts[i].0, Token::RParen) {
        Result::Ok((Pattern::Ctr(n, acc), i + 1))
    } else if i >= ts.len() {
        Result::Err(mk_unexpected(ts, i))
    } else {
        match parse_pattern_at(ts, i) {
            Result::Ok((p, q)) => {
                proof {
                    assert(adv(i as int, ts@.len() as int, q as int) == q as int);
                }
                let ghost accv = acc@;
                let mut acc = acc;
                acc.push(p);
                proof {
                    crate::ast::lemma_pats_view_push(accv, acc@.last());
                    assert(acc@ == accv.push(acc@.last()));
                }
                parse_pat_args(ts, q, n, acc)
            },
            Result::Err(d) => Result::Err(d),
        }
    }
}

/// Parse as many head patterns as the input offers.
fn parse_rule_pats(ts: &Vec<(Token, Span)>, i: usize, acc: Vec<Pattern>) -> (r: (
    Vec<Pattern>,
    usize,
))
    requires
        i <= ts@.len(),
        tokens_wf(ts@),
    ensures
        spec_rule_pats(tviews(ts@), i as int, pats_view(acc@)) == (pats_view(r.0@), r.1 as int),
        i <= r.1 <= ts@.len(),
    decreases ts@.len() - i, 1int,
{
    if i >= ts.len() {
        return (acc, i);
    }
    match parse_pattern_at(ts, i) {
        Result::Ok((p, q)) => {
            proof {
                assert(adv(i as int, ts@.len() as int, q as int) == q as int);
            }
            let ghost accv = acc@;
            let mut acc = acc;
            acc.push(p);
            proof {
                crate::ast::lemma_pats_view_push(accv, acc@.last());
                assert(acc@ == accv.push(acc@.last()));
            }
            parse_rule_pats(ts, q, acc)
        },
        Result::Err(_) => (acc, i),
    }
}

/// Fold further juxtaposed terms onto `acc` until none parses.
fn parse_inline_args(ts: &Vec<(Token, Span)>, i: usize, acc: Term) -> (r: (Term, usize))
    requires
        i <= ts@.len(),
        tokens_wf(ts@),
    ensures
        spec_inline_args(tviews(ts@), i as int, acc@) == (r.0@, r.1 as int),
        i <= r.1 <= ts@.len(),
    decreases ts@.len() - i, 1int,
{
    if i >= ts.len() {
        return (acc, i);
    }
    match parse_term_at(ts, i) {
        Result::Ok((a, q)) => {
            proof {
                assert(adv(i as int, ts@.len() as int, q as int) == q as int);
            }
            parse_inline_args(ts, q, Term::App { fun: Box::new(acc), arg: Box::new(a) })
        },
        Result::Err(_) => (acc, i),
    }
}

/// Parse an inline body: a prefix numeric operation, or an application by
/// juxtaposition.
pub(crate) fn parse_inline(ts: &Vec<(Token, Span)>, i: usize) -> (r: Result<
    (Term, usize),
    Diagnostic,
>)
    requires
        i <= ts@.len(),
        tokens_wf(ts@),
    ensures
        (match r {
            Result::Err(d) => !(d.kind matches DiagnosticKind::RepeatedDefinition { .. }),
            Result::Ok(_) => true,
        }),
        (match r {
            Result::Ok(p) => spec_inline(tviews(ts@), i as int) == Option::Some(
                (p.0@, p.1 as int),
            ) && i < p.1 <= ts@.len(),
            Result::Err(_) => spec_inline(tviews(ts@), i as int) is None,
        }),
{
    let ghost tv = tviews(ts@);
    if i >= ts.len() {
        return Result::Err(mk_unexpected(ts, i));
    }
    proof {
        assert(tv[i as int] == ts@[i as int].0@);
    }
    match oper_of(&ts[i].0) {
        Option::Some(op) => match parse_term_at(ts, i + 1) {
            Result::Ok((a, p)) => {
                proof {
                    assert(adv(i as int + 1, ts@.len() as int, p as int) == p as int);
                }
                match parse_term_at(ts, p) {
                    Result::Ok((b, q)) => Result::Ok(
                        (Term::NumOp { op, fst: Box::new(a), snd: Box::new(b) }, q),
                    ),
                    Result::Err(d) => Result::Err(d),
                }
            },
            Result::Err(d) => Result::Err(d),
        },
        Option::None => match parse_term_at(ts, i) {
            Result::Ok((f, p)) => {
                proof {
                    assert(adv(i as int, ts@.len() as int, p as int) == p as int);
                }
                let (t, e) = parse_inline_args(ts, p, f);
                Result::Ok((t, e))
            },
            Result::Err(d) => Result::Err(d),
        },
    }
}

/// Parse one rule: head name (optionally alone in parentheses), patterns,
/// `=`, inline body.
pub(crate) fn parse_rule(ts: &Vec<(Token, Span)>, i: usize) -> (r: Result<
    (Rule, usize),
    Diagnostic,
>)
    requires
        i <= ts@.len(),
        tokens_wf(ts@),
    ensures
        (match r {
            Result::Err(d) => !(d.kind matches DiagnosticKind::RepeatedDefinition { .. }),
            Result::Ok(_) => true,
        }),
        (match r {
            Result::Ok(p) => spec_rule(tviews(ts@), i as int) == Option::Some((p.0@, p.1 as int))
                && i < p.1 <= ts@.len(),
            Result::Err(_) => spec_rule(tviews(ts@), i as int) is None,
        }),
{
    let ghost tv = tviews(ts@);
    if i >= ts.len() {
        return Result::Err(mk_unexpected(ts, i));
    }
    proof {
        assert(tv[i as int] == ts@[i as int].0@);
    }
    let head: Result<(Name, usize), Diagnostic> = match &ts[i].0 {
        Token::Name(_) => parse_name(ts, i),
        Token::LParen => match parse_name(ts, i + 1) {
            Result::Ok((n, j)) => {
                proof {
                    if j < ts@.len() {
                        assert(tv[j as int] == ts@[j as int].0@);
                    }
                }
                if j < ts.len() && matches!(&ts[j].0, Token::RParen) {
                    Result::Ok((n, j + 1))
                } else {
                    Result::Err(mk_unexpected(ts, j))
                }
            },
            Result::Err(d) => Result::Err(d),
        },
        _ => Result::Err(mk_unexpected(ts, i)),
    };
    match head {
        Result::Ok((n, h)) => {
            let (pats, p) = parse_rule_pats(ts, h, Vec::new());
            proof {
                assert(pats_view(Seq::<Pattern>::empty()) =~= Seq::<PatternV>::empty());
            }
            let e = nl_skip(ts, p);
            proof {
                if e < ts@.len() {
                    assert(tv[e as int] == ts@[e as int].0@);
                }
            }
            if e < ts.len() && matches!(&ts[e].0, Token::Equals) {
                let b = nl_skip(ts, e + 1);
                match parse_inline(ts, b) {
                    Result::Ok((t, q)) => {
                        proof {
                            lemma_name_wf_valid(n@);
                            assert(spec_max_name_len() == 4) by {
                                reveal_with_fuel(log64, 8);
                            }
                            lemma_name_val_fits(n@);
                        }
                        let id = DefId::from_name(&n);
                        Result::Ok((Rule { def_id: id, pats, body: t }, q))
                    },
                    Result::Err(d) => Result::Err(d),
                }
            } else {
                Result::Err(mk_unexpected(ts, e))
            }
        },
        Result::Err(d) => Result::Err(d),
    }
}

} // verus!
