use vstd::prelude::*;
use crate::name::{DefId, Name};

verus! {

broadcast use vstd::seq::axiom_seq_index_decreases, vstd::seq::axiom_seq_subrange_decreases,
    vstd::std_specs::vec::axiom_vec_decreases_to_view;

/// A half-open source range, counted in characters, attached to tokens and
/// diagnostics.
#[derive(Clone, Copy, Debug, PartialEq, Eq, Structural)]
pub struct Span {
    pub start: usize,
    pub end: usize,
}

/// The closed enumeration of binary numeric operators.
#[derive(Clone, Copy, Debug, PartialEq, Eq, Structural)]
pub enum NumOper {
    Add,
    Sub,
    Mul,
    Div,
    Mod,
    And,
    Or,
    Xor,
    Shl,
    Shr,
    Lte,
    Ltn,
    Gte,
    Gtn,
    Eql,
    Neq,
}

/// The term language: lambda calculus with explicit duplication, a second
/// (sigil-marked, non-lexical) variable regime, and numeric primitives.
#[derive(Debug)]
pub enum Term {
    Var { nam: Name },
    GlobalVar { nam: Name },
    Num { val: u64 },
    Lam { nam: Option<Name>, bod: Box<Term> },
    GlobalLam { nam: Name, bod: Box<Term> },
    Dup { fst: Option<Name>, snd: Option<Name>, val: Box<Term>, nxt: Box<Term> },
    App { fun: Box<Term>, arg: Box<Term> },
    NumOp { op: NumOper, fst: Box<Term>, snd: Box<Term> },
}

/// The mathematical shape of a `Term`: names are abstracted to their
/// character sequences.
pub enum TermV {
    Var { nam: Seq<char> },
    GlobalVar { nam: Seq<char> },
    Num { val: u64 },
    Lam { nam: Option<Seq<char>>, bod: Box<TermV> },
    GlobalLam { nam: Seq<char>, bod: Box<TermV> },
    Dup { fst: Option<Seq<char>>, snd: Option<Seq<char>>, val: Box<TermV>, nxt: Box<TermV> },
    App { fun: Box<TermV>, arg: Box<TermV> },
    NumOp { op: NumOper, fst: Box<TermV>, snd: Box<TermV> },
}

pub open spec fn opt_name_view(o: Option<Name>) -> Option<Seq<char>> {
    match o {
        Option::Some(n) => Option::Some(n@),
        Option::None => Option::None,
    }
}

impl View for Term {
    type V = TermV;

    open spec fn view(&self) -> TermV
        decreases self,
    {
        match self {
            Term::Var { nam } => TermV::Var { nam: nam@ },
            Term::GlobalVar { nam } => TermV::GlobalVar { nam: nam@ },
            Term::Num { val } => TermV::Num { val: *val },
            Term::Lam { nam, bod } => TermV::Lam {
                nam: opt_name_view(*nam),
                bod: Box::new((**bod).view()),
            },
            Term::GlobalLam { nam, bod } => TermV::GlobalLam {
                nam: nam@,
                bod: Box::new((**bod).view()),
            },
            Term::Dup { fst, snd, val, nxt } => TermV::Dup {
                fst: opt_name_view(*fst),
                snd: opt_name_view(*snd),
                val: Box::new((**val).view()),
                nxt: Box::new((**nxt).view()),
            },
            Term::App { fun, arg } => TermV::App {
                fun: Box::new((**fun).view()),
                arg: Box::new((**arg).view()),
            },
            Term::NumOp { op, fst, snd } => TermV::NumOp {
                op: *op,
                fst: Box::new((**fst).view()),
                snd: Box::new((**snd).view()),
            },
        }
    }
}

/// A rule-head pattern: a constructor applied to sub-patterns, a numeric
/// literal, or a (possibly erased) variable.
#[derive(Debug)]
pub enum Pattern {
    Ctr(Name, Vec<Pattern>),
    Num(u64),
    Var(Option<Name>),
}

/// The mathematical shape of a `Pattern`.
pub enum PatternV {
    Ctr(Seq<char>, Seq<PatternV>),
    Num(u64),
    Var(Option<Seq<char>>),
}

pub open spec fn pat_view(p: Pattern) -> PatternV
    decreases p, 0int,
{
    match p {
        Pattern::Ctr(n, ps) => PatternV::Ctr(n@, pats_view(ps@)),
        Pattern::Num(v) => PatternV::Num(v),
        Pattern::Var(o) => PatternV::Var(opt_name_view(o)),
    }
}

pub open spec fn pats_view(ps: Seq<Pattern>) -> Seq<PatternV>
    decreases ps, 1int,
{
    if ps.len() == 0 {
        Seq::empty()
    } else {
        proof {
            assert(ps.drop_last() == ps.subrange(0, ps.len() - 1));
        }
        pats_view(ps.drop_last()).push(pat_view(ps.last()))
    }
}

pub proof fn lemma_pats_view_len(ps: Seq<Pattern>)
    ensures
        pats_view(ps).len() == ps.len(),
    decreases ps.len(),
{
    if ps.len() > 0 {
        lemma_pats_view_len(ps.drop_last());
    }
}

pub proof fn lemma_pats_view_index(ps: Seq<Pattern>, k: int)
    requires
        0 <= k < ps.len(),
    ensures
        pats_view(ps)[k] == pat_view(ps[k]),
    decreases ps.len(),
{
    lemma_pats_view_len(ps);
    lemma_pats_view_len(ps.drop_last());
    if k == ps.len() - 1 {
        assert(pats_view(ps) == pats_view(ps.drop_last()).push(pat_view(ps.last())));
    } else {
        lemma_pats_view_index(ps.drop_last(), k);
        assert(ps.drop_last()[k] == ps[k]);
    }
}

pub proof fn lemma_pats_view_push(s: Seq<Pattern>, p: Pattern)
    ensures
        pats_view(s.push(p)) == pats_view(s).push(pat_view(p)),
{
    assert(s.push(p).drop_last() =~= s);
    assert(s.push(p).last() == p);
}

impl View for Pattern {
    type V = PatternV;

    open spec fn view(&self) -> PatternV {
        pat_view(*self)
    }
}

/// One clause of a definition: the key its head name packs to, the head
/// patterns (their count is the clause's arity), and the body.
#[derive(Debug)]
pub struct Rule {
    pub def_id: DefId,
    pub pats: Vec<Pattern>,
    pub body: Term,
}

/// The mathematical shape of a `Rule`.
pub struct RuleV {
    pub id: int,
    pub pats: Seq<PatternV>,
    pub body: TermV,
}

impl View for Rule {
    type V = RuleV;

    open spec fn view(&self) -> RuleV {
        RuleV { id: self.def_id.0 as int, pats: pats_view(self.pats@), body: self.body@ }
    }
}

/// A named definition: its clauses in source order, which is the clause
/// selection priority of the downstream pattern-match compiler.
#[derive(Debug)]
pub struct Definition {
    pub name: Name,
    pub rules: Vec<Rule>,
}

/// The mathematical shape of a `Definition`.
pub struct DefinitionV {
    pub name: Seq<char>,
    pub rules: Seq<RuleV>,
}

impl View for Definition {
    type V = DefinitionV;

    open spec fn view(&self) -> DefinitionV {
        DefinitionV { name: self.name@, rules: self.rules@.map_values(|r: Rule| r@) }
    }
}

/// What went wrong, and where.
#[derive(Debug)]
pub enum DiagnosticKind {
    /// The lexer produced an error token: the input is not lexically valid.
    LexError,
    /// A token that no grammar alternative accepts at its position.
    UnexpectedToken,
    /// The input ended inside an unfinished form.
    UnexpectedEnd,
    /// An identifier longer than the runtime pointer encoding can carry.
    NameTooLong { name: String, capacity: usize },
    /// A definition whose clauses restart after another definition came
    /// between.
    RepeatedDefinition { name: Name },
}

/// One problem found during parsing, anchored at a source range.
#[derive(Debug)]
pub struct Diagnostic {
    pub kind: DiagnosticKind,
    pub span: Span,
}

} // verus!
