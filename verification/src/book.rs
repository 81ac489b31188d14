use vstd::prelude::*;
use crate::ast::{
    Definition, DefinitionV, Diagnostic, DiagnosticKind, Rule, RuleV, Span, Term,
};
use crate::lexer::{Token, lex, spec_lex, tokens_wf, tviews};
use crate::name::{DefId, Name, spec_val_to_name};
use crate::lexer::spec_lex_sp;
use crate::parser::{
    adv, lemma_nl_idem, mk_unexpected, nl, nl_skip, nx_skip, parse_inline, parse_rule, spec_rules,
    spec_rules_clauses, spec_standalone,
};

verus! {

/// The program representation handed to the downstream compiler: one
/// definition per key, in order of first appearance.
#[derive(Debug)]
pub struct DefinitionBook {
    pub defs: Vec<(DefId, Definition)>,
}

impl View for DefinitionBook {
    type V = Seq<(int, DefinitionV)>;

    open spec fn view(&self) -> Seq<(int, DefinitionV)> {
        self.defs@.map_values(|p: (DefId, Definition)| (p.0.0 as int, p.1@))
    }
}

impl DefinitionBook {
    /// The empty book.
    pub fn new() -> (r: DefinitionBook)
        ensures
            r@ == Seq::<(int, DefinitionV)>::empty(),
    {
        let r = DefinitionBook { defs: Vec::new() };
        proof {
            assert(r@ =~= Seq::<(int, DefinitionV)>::empty());
        }
        r
    }

    /// How many definitions the book holds.
    pub fn len(&self) -> (r: usize)
        ensures
            r as int == self@.len(),
    {
        self.defs.len()
    }

    /// Whether the book holds a definition under `id`.
    pub fn contains_id(&self, id: DefId) -> (b: bool)
        ensures
            b == book_has(self@, id.0 as int),
    {
        book_contains(&self.defs, id)
    }

    /// The definition stored under `id`, if the book holds one.
    pub fn get(&self, id: DefId) -> (r: Option<&Definition>)
        ensures
            (match r {
                Option::Some(d) => exists|m: int|
                    0 <= m < self@.len() && self@[m] == (id.0 as int, d@),
                Option::None => !book_has(self@, id.0 as int),
            }),
    {
        let ghost bv = self@;
        let mut m: usize = 0;
        while m < self.defs.len()
            invariant
                m <= self.defs@.len(),
                bv == self@,
                bv.len() == self.defs@.len(),
                forall|w: int| 0 <= w < m ==> (#[trigger] bv[w]).0 != id.0 as int,
            decreases self.defs@.len() - m,
        {
            proof {
                assert(bv[m as int] == (self.defs@[m as int].0.0 as int, self.defs@[m as int].1@));
            }
            if self.defs[m].0.0 == id.0 {
                return Option::Some(&self.defs[m].1);
            }
            m = m + 1;
        }
        Option::None
    }
}

/// Whether the book already holds a definition under `id`.
pub open spec fn book_has(b: Seq<(int, DefinitionV)>, id: int) -> bool {
    exists|m: int| 0 <= m < b.len() && (#[trigger] b[m]).0 == id
}

/// The clause views of a parsed clause/span list.
pub open spec fn rviews(s: Seq<(Rule, Span)>) -> Seq<RuleV> {
    s.map_values(|p: (Rule, Span)| p.0@)
}

/// The end of the clause run that begins before `m` with key `id`: the
/// first position at or after `m` whose clause has another key.
pub open spec fn run_end_from(rs: Seq<RuleV>, m: int, id: int) -> int
    decreases rs.len() - m when 0 <= m <= rs.len()
{
    if m < rs.len() && rs[m].id == id {
        run_end_from(rs, m + 1, id)
    } else {
        m
    }
}

pub proof fn lemma_run_end_from(rs: Seq<RuleV>, m: int, id: int)
    requires
        0 <= m <= rs.len(),
    ensures
        m <= run_end_from(rs, m, id) <= rs.len(),
    decreases rs.len() - m,
{
    if m < rs.len() && rs[m].id == id {
        lemma_run_end_from(rs, m + 1, id);
    }
}

/// The book-assembly algorithm over the clause list, from run `k` on:
/// split the clauses into maximal runs of consecutive clauses sharing one
/// key; each run becomes a definition, inserted only if its key is not
/// present yet (the first run wins); a later run under a present key is
/// discarded and recorded, with the run's bounds, for a
/// `RepeatedDefinition` diagnostic.
pub open spec fn spec_assemble(
    rs: Seq<RuleV>,
    k: int,
    acc: Seq<(int, DefinitionV)>,
    dups: Seq<(Seq<char>, int, int)>,
) -> (Seq<(int, DefinitionV)>, Seq<(Seq<char>, int, int)>)
    decreases rs.len() - k when 0 <= k <= rs.len()
{
    if k >= rs.len() {
        (acc, dups)
    } else {
        let id = rs[k].id;
        let e = run_end_from(rs, k + 1, id);
        proof {
            lemma_run_end_from(rs, k + 1, id);
        }
        let name = spec_val_to_name(id);
        if book_has(acc, id) {
            spec_assemble(rs, e, acc, dups.push((name, k, e)))
        } else {
            spec_assemble(
                rs,
                e,
                acc.push((id, DefinitionV { name, rules: rs.subrange(k, e) })),
                dups,
            )
        }
    }
}

/// The book and the rejected runs of a clause list.
pub open spec fn spec_book_of(rs: Seq<RuleV>) -> (
    Seq<(int, DefinitionV)>,
    Seq<(Seq<char>, int, int)>,
) {
    spec_assemble(rs, 0, Seq::empty(), Seq::empty())
}

/// No key appears twice in the book.
pub open spec fn book_ids_unique(b: Seq<(int, DefinitionV)>) -> bool {
    forall|m: int, w: int| 0 <= m < w < b.len() ==> (#[trigger] b[m]).0 != (#[trigger] b[w]).0
}

proof fn lemma_assemble_unique(
    rs: Seq<RuleV>,
    k: int,
    acc: Seq<(int, DefinitionV)>,
    dups: Seq<(Seq<char>, int, int)>,
)
    requires
        0 <= k <= rs.len(),
        book_ids_unique(acc),
    ensures
        book_ids_unique(spec_assemble(rs, k, acc, dups).0),
    decreases rs.len() - k,
{
    if k < rs.len() {
        let id = rs[k].id;
        let e = run_end_from(rs, k + 1, id);
        lemma_run_end_from(rs, k + 1, id);
        let name = spec_val_to_name(id);
        if book_has(acc, id) {
            lemma_assemble_unique(rs, e, acc, dups.push((name, k, e)));
        } else {
            let acc2 = acc.push((id, DefinitionV { name, rules: rs.subrange(k, e) }));
            assert(book_ids_unique(acc2)) by {
                assert forall|m: int, w: int| 0 <= m < w < acc2.len() implies (#[trigger] acc2[m]).0
                    != (#[trigger] acc2[w]).0 by {
                    if w == acc2.len() - 1 {
                        assert(acc2[m] == acc[m]);
                        assert(acc2[w].0 == id);
                    } else {
                        assert(acc2[m] == acc[m] && acc2[w] == acc[w]);
                    }
                }
            }
            lemma_assemble_unique(rs, e, acc2, dups);
        }
    }
}

proof fn lemma_assemble_dups_bounds(
    rs: Seq<RuleV>,
    k: int,
    acc: Seq<(int, DefinitionV)>,
    dups: Seq<(Seq<char>, int, int)>,
)
    requires
        0 <= k <= rs.len(),
        forall|m: int| 0 <= m < dups.len() ==> 0 <= (#[trigger] dups[m]).1 < dups[m].2 <= rs.len(),
    ensures
        ({
            let res = spec_assemble(rs, k, acc, dups);
            forall|m: int|
                0 <= m < res.1.len() ==> 0 <= (#[trigger] res.1[m]).1 < res.1[m].2 <= rs.len()
        }),
    decreases rs.len() - k,
{
    if k < rs.len() {
        let id = rs[k].id;
        let e = run_end_from(rs, k + 1, id);
        lemma_run_end_from(rs, k + 1, id);
        let name = spec_val_to_name(id);
        if book_has(acc, id) {
            let dups2 = dups.push((name, k, e));
            assert(forall|m: int|
                0 <= m < dups2.len() ==> 0 <= (#[trigger] dups2[m]).1 < dups2[m].2 <= rs.len());
            lemma_assemble_dups_bounds(rs, e, acc, dups2);
            assert(spec_assemble(rs, k, acc, dups) == spec_assemble(rs, e, acc, dups2));
        } else {
            let acc2 = acc.push((id, DefinitionV { name, rules: rs.subrange(k, e) }));
            lemma_assemble_dups_bounds(rs, e, acc2, dups);
            assert(spec_assemble(rs, k, acc, dups) == spec_assemble(rs, e, acc2, dups));
        }
    }
}

/// Every rejected run the assembler records lies within the clause list.
pub proof fn lemma_book_dups_bounds(rs: Seq<RuleV>)
    ensures
        forall|m: int|
            0 <= m < spec_book_of(rs).1.len() ==> 0 <= (#[trigger] spec_book_of(rs).1[m]).1
                < spec_book_of(rs).1[m].2 <= rs.len(),
{
    lemma_assemble_dups_bounds(rs, 0, Seq::empty(), Seq::empty());
}

/// The book maps each key to at most one definition: whatever the clause
/// list, the assembled book's keys are pairwise distinct.
pub proof fn lemma_book_keys_unique(rs: Seq<RuleV>)
    ensures
        book_ids_unique(spec_book_of(rs).0),
{
    lemma_assemble_unique(rs, 0, Seq::empty(), Seq::empty());
}

fn book_contains(defs: &Vec<(DefId, Definition)>, id: DefId) -> (b: bool)
    ensures
        b == book_has(defs@.map_values(|p: (DefId, Definition)| (p.0.0 as int, p.1@)), id.0 as int),
{
    let ghost bv = defs@.map_values(|p: (DefId, Definition)| (p.0.0 as int, p.1@));
    let mut m: usize = 0;
    while m < defs.len()
        invariant
            m <= defs@.len(),
            bv == defs@.map_values(|p: (DefId, Definition)| (p.0.0 as int, p.1@)),
            forall|w: int| 0 <= w < m ==> (#[trigger] bv[w]).0 != id.0 as int,
        decreases defs@.len() - m,
    {
        proof {
            assert(bv[m as int] == (defs@[m as int].0.0 as int, defs@[m as int].1@));
        }
        if defs[m].0.0 == id.0 {
            return true;
        }
        m = m + 1;
    }
    false
}

/// Group a parsed clause list into a book. Consecutive clauses with one
/// key form one multi-clause definition; a run whose key is already
/// present is discarded with a `RepeatedDefinition` diagnostic spanning
/// the run, from the first clause's start to the last clause's end.
pub fn rules_to_book(rules: Vec<(Rule, Span)>) -> (r: (DefinitionBook, Vec<Diagnostic>))
    ensures
        ({
            let bd = spec_book_of(rviews(rules@));
            &&& r.0@ == bd.0
            &&& r.1@.len() == bd.1.len()
            &&& forall|m: int|
                0 <= m < bd.1.len() ==> {
                    &&& (#[trigger] r.1@[m]).kind matches DiagnosticKind::RepeatedDefinition {
                        name,
                    } && name@ == bd.1[m].0
                    &&& r.1@[m].span == (Span {
                        start: rules@[bd.1[m].1].1.start,
                        end: rules@[bd.1[m].2 - 1].1.end,
                    })
                }
        }),
{
    let ghost rs0 = rules@;
    let ghost rv = rviews(rs0);
    let mut rules = rules;
    let n0 = rules.len();
    proof {
        assert(rs0.len() == n0 as int);
    }
    let mut book = DefinitionBook { defs: Vec::new() };
    let mut diags: Vec<Diagnostic> = Vec::new();
    let mut k: usize = 0;
    let ghost mut dups_g: Seq<(Seq<char>, int, int)> = Seq::empty();
    proof {
        assert(rules@ =~= rs0.subrange(0, rs0.len() as int));
        assert(book@ =~= Seq::<(int, DefinitionV)>::empty());
    }
    while rules.len() > 0
        invariant
            rs0.len() <= usize::MAX,
            k as int + rules@.len() == rs0.len(),
            rules@ == rs0.subrange(k as int, rs0.len() as int),
            rv == rviews(rs0),
            spec_book_of(rv) == spec_assemble(rv, k as int, book@, dups_g),
            diags@.len() == dups_g.len(),
            forall|m: int|
                0 <= m < dups_g.len() ==> {
                    &&& (#[trigger] diags@[m]).kind matches DiagnosticKind::RepeatedDefinition {
                        name,
                    } && name@ == dups_g[m].0
                    &&& diags@[m].span == (Span {
                        start: rs0[dups_g[m].1].1.start,
                        end: rs0[dups_g[m].2 - 1].1.end,
                    })
                },
        decreases rules@.len(),
    {
        let ghost rules_pre = rules@;
        let (r0, sp0) = rules.remove(0);
        let id = r0.def_id;
        proof {
            assert(rules_pre[0] == rs0[k as int]);
            assert(rv[k as int] == rs0[k as int].0@);
            assert(rules@ =~= rs0.subrange(k as int + 1, rs0.len() as int));
        }
        let mut run: Vec<Rule> = Vec::new();
        run.push(r0);
        let first_sp = sp0;
        let mut last_sp = sp0;
        let mut e: usize = k + 1;
        proof {
            assert(run@.map_values(|x: Rule| x@) =~= rv.subrange(k as int, e as int));
        }
        while rules.len() > 0 && rules[0].0.def_id.0 == id.0
            invariant
                rs0.len() <= usize::MAX,
                k < e,
                e as int + rules@.len() == rs0.len(),
                rules@ == rs0.subrange(e as int, rs0.len() as int),
                rv == rviews(rs0),
                run@.map_values(|x: Rule| x@) == rv.subrange(k as int, e as int),
                run_end_from(rv, k as int + 1, id.0 as int) == run_end_from(
                    rv,
                    e as int,
                    id.0 as int,
                ),
                last_sp == rs0[e - 1].1,
            decreases rules@.len(),
        {
            let ghost rules_pre2 = rules@;
            proof {
                assert(rules_pre2[0] == rs0[e as int]);
                assert(rv[e as int] == rs0[e as int].0@);
            }
            let (rr, sp) = rules.remove(0);
            let ghost runv = run@;
            run.push(rr);
            last_sp = sp;
            e = e + 1;
            proof {
                assert(rules@ == rules_pre2.remove(0));
                assert forall|w: int| 0 <= w < rules@.len() implies rules@[w] == rs0.subrange(
                    e as int,
                    rs0.len() as int,
                )[w] by {
                    assert(rules_pre2.remove(0)[w] == rules_pre2[w + 1]);
                    assert(rules_pre2[w + 1] == rs0[e as int + w]);
                }
                assert(rules@ =~= rs0.subrange(e as int, rs0.len() as int));
                assert(run@ == runv.push(rr));
                assert(rr == rules_pre2[0].0);
                assert(rr@ == rv[e as int - 1]);
                runv.lemma_push_map_commute(|x: Rule| x@, rr);
                assert(run@.map_values(|x: Rule| x@) == runv.map_values(|x: Rule| x@).push(rr@));
                assert(rv.subrange(k as int, e as int - 1).push(rv[e as int - 1]) =~= rv.subrange(
                    k as int,
                    e as int,
                ));
                assert(run@.map_values(|x: Rule| x@) =~= rv.subrange(k as int, e as int));
            }
        }
        proof {
            if rules@.len() > 0 {
                assert(rules@[0] == rs0[e as int]);
                assert(rv[e as int] == rs0[e as int].0@);
            }
            assert(run_end_from(rv, e as int, id.0 as int) == e as int);
        }
        let present = book_contains(&book.defs, id);
        let ghost book_pre = book@;
        let ghost dups_pre = dups_g;
        let ghost diags_pre = diags@;
        if present {
            let name = Name::from_def_id(id);
            diags.push(
                Diagnostic {
                    kind: DiagnosticKind::RepeatedDefinition { name },
                    span: Span { start: first_sp.start, end: last_sp.end },
                },
            );
            proof {
                dups_g = dups_g.push((spec_val_to_name(id.0 as int), k as int, e as int));
                assert(spec_assemble(rv, k as int, book_pre, dups_pre) == spec_assemble(
                    rv,
                    e as int,
                    book_pre,
                    dups_g,
                ));
            }
        } else {
            let name = Name::from_def_id(id);
            let def = Definition { name, rules: run };
            book.defs.push((id, def));
            proof {
                assert(book@ =~= book_pre.push(
                    (id.0 as int, DefinitionV {
                        name: spec_val_to_name(id.0 as int),
                        rules: rv.subrange(k as int, e as int),
                    }),
                ));
                assert(spec_assemble(rv, k as int, book_pre, dups_pre) == spec_assemble(
                    rv,
                    e as int,
                    book@,
                    dups_g,
                ));
            }
        }
        k = e;
    }
    proof {
        assert(rs0.subrange(k as int, rs0.len() as int).len() == 0);
        assert(spec_assemble(rv, k as int, book@, dups_g) == (book@, dups_g));
    }
    (book, diags)
}


/// The parsed clause/span list matches the clause information `infos`:
/// same clauses in order, each span running from its first token's start
/// to its last token's end.
pub open spec fn rules_match_infos(
    infos: Seq<(RuleV, int, int)>,
    rules: Seq<(Rule, Span)>,
    ts: Seq<(Token, Span)>,
) -> bool {
    &&& rules.len() == infos.len()
    &&& forall|k: int|
        0 <= k < infos.len() ==> {
            &&& 0 <= (#[trigger] infos[k]).1 < infos[k].2 <= ts.len()
            &&& rules[k].0@ == infos[k].0
            &&& rules[k].1.start == ts[infos[k].1].1.start
            &&& rules[k].1.end == ts[infos[k].2 - 1].1.end
        }
}

proof fn lemma_rules_step(
    ts: Seq<(Token, Span)>,
    infos1: Seq<(RuleV, int, int)>,
    rules1: Seq<(Rule, Span)>,
    pr: (Rule, Span),
    iold: int,
    q: int,
)
    requires
        rules_match_infos(infos1, rules1, ts),
        0 <= iold < q <= ts.len(),
        pr.1.start == ts[iold].1.start,
        pr.1.end == ts[q - 1].1.end,
    ensures
        rules_match_infos(infos1.push((pr.0@, iold, q)), rules1.push(pr), ts),
{
    let infos2 = infos1.push((pr.0@, iold, q));
    let rules2 = rules1.push(pr);
    assert forall|k2: int| 0 <= k2 < infos2.len() implies {
        &&& 0 <= (#[trigger] infos2[k2]).1 < infos2[k2].2 <= ts.len()
        &&& rules2[k2].0@ == infos2[k2].0
        &&& rules2[k2].1.start == ts[infos2[k2].1].1.start
        &&& rules2[k2].1.end == ts[infos2[k2].2 - 1].1.end
    } by {
        if k2 < infos2.len() - 1 {
            assert(rules2[k2] == rules1[k2]);
            assert(infos2[k2] == infos1[k2]);
            assert(0 <= infos1[k2].1 < infos1[k2].2 <= ts.len());
        } else {
            assert(infos2[k2] == (pr.0@, iold, q));
            assert(rules2[k2] == pr);
            assert(0 <= infos2[k2].1 < infos2[k2].2 <= ts.len());
        }
    }
    assert(rules_match_infos(infos2, rules2, ts));
}

/// Parse every rule of a source file, collecting a diagnostic for each
/// malformed clause and resuming at the next line break. Each accepted
/// clause carries the source range from its first to its last token; the
/// diagnostics here are grammar-level, never a `RepeatedDefinition`.
#[verifier::rlimit(100)]
#[verifier::spinoff_prover]
pub fn parse_rules(ts: &Vec<(Token, Span)>) -> (r: (Vec<(Rule, Span)>, Vec<Diagnostic>))
    requires
        tokens_wf(ts@),
    ensures
        ({
            let pr = spec_rules(tviews(ts@), 0);
            &&& rviews(r.0@) == spec_rules_clauses(pr.0)
            &&& rules_match_infos(pr.0, r.0@, ts@)
            &&& r.1@.len() == pr.1
            &&& forall|m: int|
                0 <= m < r.1@.len() ==> !((#[trigger] r.1@[m]).kind
                    matches DiagnosticKind::RepeatedDefinition { .. })
        }),
{
    let ghost tv = tviews(ts@);
    let mut rules: Vec<(Rule, Span)> = Vec::new();
    let mut diags: Vec<Diagnostic> = Vec::new();
    let ghost mut infos: Seq<(RuleV, int, int)> = Seq::empty();
    let i0 = nl_skip(ts, 0);
    proof {
        lemma_nl_idem(tv, 0);
        assert(infos + spec_rules(tv, i0 as int).0 =~= spec_rules(tv, i0 as int).0);
        assert(spec_rules(tv, 0).0 == spec_rules(tv, i0 as int).0 && spec_rules(tv, 0).1
            == spec_rules(tv, i0 as int).1);
    }
    let mut i = i0;
    while i < ts.len()
        invariant
            i <= ts@.len(),
            tv == tviews(ts@),
            tokens_wf(ts@),
            nl(tv, i as int) == i as int,
            spec_rules(tv, 0).0 == infos + spec_rules(tv, i as int).0,
            spec_rules(tv, 0).1 == diags@.len() + spec_rules(tv, i as int).1,
            rules_match_infos(infos, rules@, ts@),
            forall|m: int|
                0 <= m < diags@.len() ==> !((#[trigger] diags@[m]).kind
                    matches DiagnosticKind::RepeatedDefinition { .. }),
        decreases ts@.len() - i,
    {
        let ghost rules_pre = rules@;
        let ghost infos_pre = infos;
        let ghost iold = i as int;
        match parse_rule(ts, i) {
            Result::Ok((r0, q)) => {
                proof {
                    assert(adv(iold, ts@.len() as int, q as int) == q as int);
                    if q < ts@.len() {
                        assert(tv[q as int] == ts@[q as int].0@);
                    }
                }
                if q == ts.len() || matches!(&ts[q].0, Token::NewLine) {
                    let ghost rv0 = r0@;
                    let sp = Span { start: ts[i].1.start, end: ts[q - 1].1.end };
                    rules.push((r0, sp));
                    let inext = nl_skip(ts, q);
                    proof {
                        infos = infos.push((rv0, iold, q as int));
                        let pr0 = rules@.last();
                        assert(rules@ == rules_pre.push(pr0));
                        assert(pr0.0@ == rv0 && pr0.1 == sp);
                        lemma_rules_step(ts@, infos_pre, rules_pre, pr0, iold, q as int);
                        assert(infos == infos_pre.push((pr0.0@, iold, q as int)));
                        assert(rules_match_infos(infos, rules@, ts@));
                        lemma_nl_idem(tv, q as int);
                        assert(spec_rules(tv, q as int).0 == spec_rules(tv, inext as int).0
                            && spec_rules(tv, q as int).1 == spec_rules(tv, inext as int).1);
                        assert(spec_rules(tv, iold).0 == seq![(rv0, iold, q as int)] + spec_rules(
                            tv,
                            q as int,
                        ).0);
                        assert(infos_pre.push((rv0, iold, q as int)) + spec_rules(
                            tv,
                            inext as int,
                        ).0 =~= infos_pre + (seq![(rv0, iold, q as int)] + spec_rules(
                            tv,
                            inext as int,
                        ).0));
                    }
                    i = inext;
                } else {
                    diags.push(mk_unexpected(ts, q));
                    let k = nx_skip(ts, q);
                    let inext = nl_skip(ts, k);
                    proof {
                        lemma_nl_idem(tv, k as int);
                        assert(spec_rules(tv, k as int).0 == spec_rules(tv, inext as int).0
                            && spec_rules(tv, k as int).1 == spec_rules(tv, inext as int).1);
                        assert(spec_rules(tv, iold).0 == spec_rules(tv, k as int).0);
                        assert(spec_rules(tv, iold).1 == spec_rules(tv, k as int).1 + 1);
                    }
                    i = inext;
                }
            },
            Result::Err(d) => {
                diags.push(d);
                let k = nx_skip(ts, i + 1);
                let inext = nl_skip(ts, k);
                proof {
                    lemma_nl_idem(tv, k as int);
                    assert(spec_rules(tv, k as int).0 == spec_rules(tv, inext as int).0
                        && spec_rules(tv, k as int).1 == spec_rules(tv, inext as int).1);
                    assert(spec_rules(tv, iold).0 == spec_rules(tv, k as int).0);
                    assert(spec_rules(tv, iold).1 == spec_rules(tv, k as int).1 + 1);
                }
                i = inext;
            },
        }
    }
    proof {
        assert(spec_rules(tv, i as int).0 =~= Seq::<(RuleV, int, int)>::empty());
        assert(infos + spec_rules(tv, i as int).0 =~= infos);
        assert(spec_rules(tv, 0).0 == infos);
        assert forall|k: int| 0 <= k < rules@.len() implies #[trigger] rviews(rules@)[k]
            == spec_rules_clauses(infos)[k] by {
            assert(rviews(rules@)[k] == rules@[k].0@);
            assert(spec_rules_clauses(infos)[k] == infos[k].0);
        }
        assert(rviews(rules@) =~= spec_rules_clauses(infos));
    }
    (rules, diags)
}

/// End-of-input diagnostics carry no token to anchor at; give them the
/// position just past the source, the token stream's end-of-input span.
fn anchor_end_diagnostics(ds: Vec<Diagnostic>, n: usize) -> (r: Vec<Diagnostic>)
    ensures
        r@.len() == ds@.len(),
        forall|m: int|
            0 <= m < r@.len() ==> {
                &&& (#[trigger] r@[m]).kind == ds@[m].kind
                &&& if (ds@[m].kind matches DiagnosticKind::UnexpectedEnd) {
                    r@[m].span == (Span { start: n, end: n })
                } else {
                    r@[m] == ds@[m]
                }
            },
{
    let ghost ds0 = ds@;
    let mut rest = ds;
    let mut out: Vec<Diagnostic> = Vec::new();
    proof {
        assert(rest@ =~= ds0.subrange(0, ds0.len() as int));
    }
    while rest.len() > 0
        invariant
            out@.len() + rest@.len() == ds0.len(),
            rest@ == ds0.subrange(out@.len() as int, ds0.len() as int),
            forall|m: int|
                0 <= m < out@.len() ==> {
                    &&& (#[trigger] out@[m]).kind == ds0[m].kind
                    &&& if (ds0[m].kind matches DiagnosticKind::UnexpectedEnd) {
                        out@[m].span == (Span { start: n, end: n })
                    } else {
                        out@[m] == ds0[m]
                    }
                },
        decreases rest@.len(),
    {
        let ghost rest_pre = rest@;
        let ghost done = out@.len() as int;
        let d = rest.remove(0);
        proof {
            assert(rest_pre[0] == ds0[done]);
            assert forall|w: int| 0 <= w < rest@.len() implies rest@[w] == ds0.subrange(
                done + 1,
                ds0.len() as int,
            )[w] by {
                assert(rest_pre.remove(0)[w] == rest_pre[w + 1]);
                assert(rest_pre[w + 1] == ds0[done + 1 + w]);
            }
            assert(rest@ =~= ds0.subrange(done + 1, ds0.len() as int));
        }
        if matches!(d.kind, DiagnosticKind::UnexpectedEnd) {
            out.push(Diagnostic { kind: d.kind, span: Span { start: n, end: n } });
        } else {
            out.push(d);
        }
    }
    out
}

/// Parse a whole source file into a definition book.
///
/// The result is `Ok` exactly when no diagnostic arose; otherwise every
/// diagnostic collected in the pass is returned: first the grammar-level
/// ones in source order (never a `RepeatedDefinition`; one at the end of
/// the input is anchored just past the source), then one
/// `RepeatedDefinition` per rejected clause run, in run order, naming the
/// repeated definition and spanning the run from its first clause's first
/// token to its last clause's last token.
pub fn parse_definition_book(code: &str) -> (r: Result<DefinitionBook, Vec<Diagnostic>>)
    ensures
        ({
            let tsp = spec_lex_sp(code@, 0);
            let pr = spec_rules(spec_lex(code@, 0), 0);
            let bd = spec_book_of(spec_rules_clauses(pr.0));
            &&& (r is Ok <==> pr.1 == 0 && bd.1.len() == 0)
            &&& (match r {
                Result::Ok(b) => b@ == bd.0 && book_ids_unique(b@),
                Result::Err(ds) => {
                    &&& ds@.len() == pr.1 + bd.1.len()
                    &&& ds@.len() > 0
                    &&& forall|m: int|
                        0 <= m < pr.1 ==> !((#[trigger] ds@[m]).kind
                            matches DiagnosticKind::RepeatedDefinition { .. })
                    &&& forall|m: int|
                        pr.1 <= m < ds@.len() ==> ((#[trigger] ds@[m]).kind
                            matches DiagnosticKind::RepeatedDefinition { name }
                            && name@ == bd.1[m - pr.1].0
                            && ds@[m].span.start as int == tsp[pr.0[bd.1[m - pr.1].1].1].0
                            && ds@[m].span.end as int == tsp[pr.0[bd.1[m - pr.1].2 - 1].2 - 1].1)
                    &&& forall|m: int|
                        0 <= m < ds@.len() ==> (((#[trigger] ds@[m]).kind
                            matches DiagnosticKind::UnexpectedEnd) ==> ds@[m].span.start as int
                            == code@.len() && ds@[m].span.end as int == code@.len())
                },
            })
        }),
{
    let toks = lex(code);
    let n = code.unicode_len();
    let (rules, diags0) = parse_rules(&toks);
    let mut diags = anchor_end_diagnostics(diags0, n);
    let ghost rseq = rules@;
    let ghost rv = rviews(rules@);
    let ghost tsp = spec_lex_sp(code@, 0);
    let ghost pr = spec_rules(spec_lex(code@, 0), 0);
    proof {
        lemma_book_keys_unique(rv);
        lemma_book_dups_bounds(rv);
    }
    let (bk, mut dups) = rules_to_book(rules);
    let ghost diags_pre = diags@;
    let ghost dups_pre = dups@;
    diags.append(&mut dups);
    proof {
        assert(diags@ == diags_pre + dups_pre);
        let bd = spec_book_of(spec_rules_clauses(pr.0));
        assert(rv == spec_rules_clauses(pr.0));
        assert forall|w: int| 0 <= w < dups_pre.len() implies {
            &&& (#[trigger] dups_pre[w]).kind matches DiagnosticKind::RepeatedDefinition { name }
                && name@ == bd.1[w].0
            &&& dups_pre[w].span.start as int == tsp[pr.0[bd.1[w].1].1].0
            &&& dups_pre[w].span.end as int == tsp[pr.0[bd.1[w].2 - 1].2 - 1].1
        } by {
            let da = bd.1[w].1;
            let db = bd.1[w].2;
            assert(0 <= da < db <= rv.len());
            assert(dups_pre[w].span == (Span {
                start: rseq[da].1.start,
                end: rseq[db - 1].1.end,
            }));
            assert(rseq[da].1.start == toks@[pr.0[da].1].1.start);
            assert(rseq[db - 1].1.end == toks@[pr.0[db - 1].2 - 1].1.end);
            assert(crate::lexer::tspans(toks@)[pr.0[da].1] == (
                toks@[pr.0[da].1].1.start as int,
                toks@[pr.0[da].1].1.end as int,
            ));
            assert(crate::lexer::tspans(toks@)[pr.0[db - 1].2 - 1] == (
                toks@[pr.0[db - 1].2 - 1].1.start as int,
                toks@[pr.0[db - 1].2 - 1].1.end as int,
            ));
        }
    }
    if diags.len() == 0 {
        Result::Ok(bk)
    } else {
        Result::Err(diags)
    }
}

/// Parse a single standalone term: line breaks, one inline form (an
/// application by juxtaposition, or a prefix numeric operation), line
/// breaks, end of input. On failure the one diagnostic is grammar-level;
/// at the end of the input it is anchored just past the source.
pub fn parse_term(code: &str) -> (r: Result<Term, Vec<Diagnostic>>)
    ensures
        ({
            let st = spec_standalone(spec_lex(code@, 0));
            &&& (r is Ok <==> st is Some)
            &&& (match r {
                Result::Ok(t) => st == Option::Some(t@),
                Result::Err(ds) => {
                    &&& ds@.len() == 1
                    &&& !(ds@[0].kind matches DiagnosticKind::RepeatedDefinition { .. })
                    &&& (ds@[0].kind matches DiagnosticKind::UnexpectedEnd ==> ds@[0].span.start
                        as int == code@.len() && ds@[0].span.end as int == code@.len())
                },
            })
        }),
{
    let toks = lex(code);
    let n = code.unicode_len();
    let i = nl_skip(&toks, 0);
    match parse_inline(&toks, i) {
        Result::Ok((t, p)) => {
            proof {
                assert(adv(i as int, toks@.len() as int, p as int) == p as int);
            }
            let e = nl_skip(&toks, p);
            if e == toks.len() {
                Result::Ok(t)
            } else {
                let mut ds: Vec<Diagnostic> = Vec::new();
                ds.push(mk_unexpected(&toks, e));
                Result::Err(ds)
            }
        },
        Result::Err(d) => {
            let d = if matches!(d.kind, DiagnosticKind::UnexpectedEnd) {
                Diagnostic { kind: d.kind, span: Span { start: n, end: n } }
            } else {
                d
            };
            let mut ds: Vec<Diagnostic> = Vec::new();
            ds.push(d);
            Result::Err(ds)
        },
    }
}

} // verus!
