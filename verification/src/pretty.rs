use vstd::prelude::*;
use crate::ast::{NumOper, Pattern, PatternV, Term, TermV};
use crate::lexer::{TokenV, spec_lex};
use crate::parser::spec_oper;

verus! {

broadcast use vstd::seq::axiom_seq_index_decreases, vstd::seq::axiom_seq_subrange_decreases,
    vstd::std_specs::vec::axiom_vec_decreases_to_view;

/// The character of one decimal digit.
pub open spec fn digit_char(d: int) -> char {
    ((48 + d) as u8) as char
}

/// The decimal digits of `n`, most significant first.
pub open spec fn dec_digits(n: int) -> Seq<char>
    decreases n when n >= 0
{
    if n < 10 {
        seq![digit_char(if n >= 0 { n } else { 0 })]
    } else {
        dec_digits(n / 10).push(digit_char(n % 10))
    }
}

/// The source text of an operator.
pub open spec fn oper_chars(op: NumOper) -> Seq<char> {
    match op {
        NumOper::Add => seq!['+'],
        NumOper::Sub => seq!['-'],
        NumOper::Mul => seq!['*'],
        NumOper::Div => seq!['/'],
        NumOper::Mod => seq!['%'],
        NumOper::And => seq!['&'],
        NumOper::Or => seq!['|'],
        NumOper::Xor => seq!['^'],
        NumOper::Shl => seq!['<', '<'],
        NumOper::Shr => seq!['>', '>'],
        NumOper::Lte => seq!['<', '='],
        NumOper::Ltn => seq!['<'],
        NumOper::Gte => seq!['>', '='],
        NumOper::Gtn => seq!['>'],
        NumOper::Eql => seq!['=', '='],
        NumOper::Neq => seq!['!', '='],
    }
}

/// A binder: its name, or `*` for an erased one.
pub open spec fn print_opt_name(o: Option<Seq<char>>) -> Seq<char> {
    match o {
        Option::Some(n) => n,
        Option::None => seq!['*'],
    }
}

/// The source text of a term, on one line, with `@` for lambdas and every
/// application parenthesized. Aimed at parser-produced terms: their names
/// are never keywords, so the text reads back as the same term (the tests
/// exercise this round trip; it is not proved here).
pub open spec fn print_term(t: TermV) -> Seq<char>
    decreases t,
{
    match t {
        TermV::Var { nam } => nam,
        TermV::GlobalVar { nam } => seq!['$'] + nam,
        TermV::Num { val } => dec_digits(val as int),
        TermV::Lam { nam, bod } => seq!['@'] + print_opt_name(nam) + seq![' '] + print_term(*bod),
        TermV::GlobalLam { nam, bod } => seq!['@', '$'] + nam + seq![' '] + print_term(*bod),
        TermV::Dup { fst, snd, val, nxt } => seq!['d', 'u', 'p', ' '] + print_opt_name(fst)
            + seq![' '] + print_opt_name(snd) + seq![' ', '=', ' '] + print_term(*val)
            + seq![';', ' '] + print_term(*nxt),
        TermV::App { fun, arg } => seq!['('] + print_term(*fun) + seq![' '] + print_term(*arg)
            + seq![')'],
        TermV::NumOp { op, fst, snd } => seq!['('] + oper_chars(op) + seq![' '] + print_term(*fst)
            + seq![' '] + print_term(*snd) + seq![')'],
    }
}

/// The source text of a pattern.
pub open spec fn print_pattern(p: PatternV) -> Seq<char>
    decreases p, 0int,
{
    match p {
        PatternV::Ctr(n, ps) => seq!['('] + n + print_pats(ps) + seq![')'],
        PatternV::Num(v) => dec_digits(v as int),
        PatternV::Var(o) => print_opt_name(o),
    }
}

/// The source texts of sub-patterns, each preceded by a space.
pub open spec fn print_pats(ps: Seq<PatternV>) -> Seq<char>
    decreases ps, 1int,
{
    if ps.len() == 0 {
        Seq::empty()
    } else {
        proof {
            assert(ps.drop_last() == ps.subrange(0, ps.len() - 1));
        }
        print_pats(ps.drop_last()) + seq![' '] + print_pattern(ps.last())
    }
}

fn digit_str(d: u64) -> (r: &'static str)
    requires
        d < 10,
    ensures
        r@ == seq![digit_char(d as int)],
{
    proof {
        reveal_strlit("0");
        reveal_strlit("1");
        reveal_strlit("2");
        reveal_strlit("3");
        reveal_strlit("4");
        reveal_strlit("5");
        reveal_strlit("6");
        reveal_strlit("7");
        reveal_strlit("8");
        reveal_strlit("9");
    }
    let r = match d {
        0 => "0",
        1 => "1",
        2 => "2",
        3 => "3",
        4 => "4",
        5 => "5",
        6 => "6",
        7 => "7",
        8 => "8",
        _ => "9",
    };
    proof {
        assert(r@ =~= seq![digit_char(d as int)]);
    }
    r
}

/// The decimal text of a number.
pub fn u64_to_string(n: u64) -> (r: String)
    ensures
        r@ == dec_digits(n as int),
    decreases n,
{
    if n < 10 {
        let r = String::from_str(digit_str(n));
        proof {
            assert(r@ =~= dec_digits(n as int));
        }
        r
    } else {
        let mut s = u64_to_string(n / 10);
        s.append(digit_str(n % 10));
        proof {
            assert(s@ =~= dec_digits(n as int));
        }
        s
    }
}

fn oper_str(op: NumOper) -> (r: &'static str)
    ensures
        r@ == oper_chars(op),
{
    proof {
        reveal_strlit("+");
        reveal_strlit("-");
        reveal_strlit("*");
        reveal_strlit("/");
        reveal_strlit("%");
        reveal_strlit("&");
        reveal_strlit("|");
        reveal_strlit("^");
        reveal_strlit("<<");
        reveal_strlit(">>");
        reveal_strlit("<=");
        reveal_strlit("<");
        reveal_strlit(">=");
        reveal_strlit(">");
        reveal_strlit("==");
        reveal_strlit("!=");
    }
    let r = match op {
        NumOper::Add => "+",
        NumOper::Sub => "-",
        NumOper::Mul => "*",
        NumOper::Div => "/",
        NumOper::Mod => "%",
        NumOper::And => "&",
        NumOper::Or => "|",
        NumOper::Xor => "^",
        NumOper::Shl => "<<",
        NumOper::Shr => ">>",
        NumOper::Lte => "<=",
        NumOper::Ltn => "<",
        NumOper::Gte => ">=",
        NumOper::Gtn => ">",
        NumOper::Eql => "==",
        NumOper::Neq => "!=",
    };
    proof {
        assert(r@ =~= oper_chars(op));
    }
    r
}

fn opt_name_str(o: &Option<crate::name::Name>) -> (r: String)
    ensures
        r@ == print_opt_name(crate::ast::opt_name_view(*o)),
{
    match o {
        Option::Some(n) => n.0.clone(),
        Option::None => {
            proof {
                reveal_strlit("*");
            }
            let r = String::from_str("*");
            proof {
                assert(r@ =~= seq!['*']);
            }
            r
        },
    }
}

/// The source text of a term: `print_term` of its shape. For
/// parser-produced terms the text reads back as the same term; a
/// hand-built term whose name spells a keyword would not.
pub fn term_to_string(t: &Term) -> (r: String)
    ensures
        r@ == print_term(t@),
    decreases t,
{
    proof {
        reveal_strlit("$");
        reveal_strlit("@");
        reveal_strlit("@$");
        reveal_strlit(" ");
        reveal_strlit("dup ");
        reveal_strlit(" = ");
        reveal_strlit("; ");
        reveal_strlit("(");
        reveal_strlit(")");
    }
    match t {
        Term::Var { nam } => nam.0.clone(),
        Term::GlobalVar { nam } => {
            let mut s = String::from_str("$");
            s.append(nam.0.as_str());
            proof {
                assert(s@ =~= print_term(t@));
            }
            s
        },
        Term::Num { val } => u64_to_string(*val),
        Term::Lam { nam, bod } => {
            let mut s = String::from_str("@");
            let o = opt_name_str(nam);
            s.append(o.as_str());
            s.append(" ");
            let b = term_to_string(bod);
            s.append(b.as_str());
            proof {
                assert(s@ =~= print_term(t@));
            }
            s
        },
        Term::GlobalLam { nam, bod } => {
            let mut s = String::from_str("@$");
            s.append(nam.0.as_str());
            s.append(" ");
            let b = term_to_string(bod);
            s.append(b.as_str());
            proof {
                assert(s@ =~= print_term(t@));
            }
            s
        },
        Term::Dup { fst, snd, val, nxt } => {
            let mut s = String::from_str("dup ");
            let f = opt_name_str(fst);
            s.append(f.as_str());
            s.append(" ");
            let sn = opt_name_str(snd);
            s.append(sn.as_str());
            s.append(" = ");
            let v = term_to_string(val);
            s.append(v.as_str());
            s.append("; ");
            let nx = term_to_string(nxt);
            s.append(nx.as_str());
            proof {
                assert(s@ =~= print_term(t@));
            }
            s
        },
        Term::App { fun, arg } => {
            let mut s = String::from_str("(");
            let f = term_to_string(fun);
            s.append(f.as_str());
            s.append(" ");
            let a = term_to_string(arg);
            s.append(a.as_str());
            s.append(")");
            proof {
                assert(s@ =~= print_term(t@));
            }
            s
        },
        Term::NumOp { op, fst, snd } => {
            let mut s = String::from_str("(");
            s.append(oper_str(*op));
            s.append(" ");
            let a = term_to_string(fst);
            s.append(a.as_str());
            s.append(" ");
            let b = term_to_string(snd);
            s.append(b.as_str());
            s.append(")");
            proof {
                assert(s@ =~= print_term(t@));
            }
            s
        },
    }
}

/// The source text of a pattern: `print_pattern` of its shape. For
/// parser-produced patterns the text reads back as the same pattern.
pub fn pattern_to_string(p: &Pattern) -> (r: String)
    ensures
        r@ == print_pattern(p@),
    decreases *p, 0int,
{
    proof {
        reveal_strlit("(");
        reveal_strlit(")");
    }
    match p {
        Pattern::Ctr(n, ps) => {
            let mut s = String::from_str("(");
            s.append(n.0.as_str());
            proof {
                assert(decreases_to!(*p => *ps));
                assert(decreases_to!(*ps => ps@));
                assert(ps@.subrange(0, ps@.len() as int) =~= ps@);
            }
            let rest = pats_to_string(ps, ps.len());
            s.append(rest.as_str());
            s.append(")");
            proof {
                crate::ast::lemma_pats_view_len(ps@);
                assert(crate::ast::pats_view(ps@).subrange(0, ps@.len() as int)
                    =~= crate::ast::pats_view(ps@));
                assert(s@ =~= print_pattern(p@));
            }
            s
        },
        Pattern::Num(v) => u64_to_string(*v),
        Pattern::Var(o) => opt_name_str(o),
    }
}

/// The source texts of the first `k` sub-patterns, each preceded by a
/// space.
fn pats_to_string(ps: &Vec<Pattern>, k: usize) -> (r: String)
    requires
        k <= ps@.len(),
    ensures
        r@ == print_pats(crate::ast::pats_view(ps@).subrange(0, k as int)),
    decreases ps@.subrange(0, k as int), 1int,
{
    proof {
        reveal_strlit(" ");
        crate::ast::lemma_pats_view_len(ps@);
    }
    if k == 0 {
        let r = String::new();
        proof {
            assert(crate::ast::pats_view(ps@).subrange(0, 0) =~= Seq::<PatternV>::empty());
        }
        r
    } else {
        let ghost pv = crate::ast::pats_view(ps@);
        proof {
            assert(pv.subrange(0, k as int - 1) =~= pv.subrange(0, k as int).subrange(
                0,
                k as int - 1,
            ));
            crate::ast::lemma_pats_view_index(ps@, k as int - 1);
            assert(pv.subrange(0, k as int)[k as int - 1] == ps@[k as int - 1]@);
            assert(ps@.subrange(0, k as int - 1) =~= ps@.subrange(0, k as int).subrange(
                0,
                k as int - 1,
            ));
            assert(ps@.subrange(0, k as int)[k as int - 1] == ps@[k as int - 1]);
            assert(decreases_to!(ps@.subrange(0, k as int) => ps@.subrange(0, k as int)[k as int
                - 1]));
        }
        let mut s = pats_to_string(ps, k - 1);
        s.append(" ");
        let q = pattern_to_string(&ps[k - 1]);
        s.append(q.as_str());
        proof {
            assert(" "@ =~= seq![' ']);
            assert(pv.subrange(0, k as int).drop_last() =~= pv.subrange(0, k as int - 1));
            assert(pv.subrange(0, k as int).last() == pv[k as int - 1]);
            assert(print_pats(pv.subrange(0, k as int)) == print_pats(
                pv.subrange(0, k as int - 1),
            ) + seq![' '] + print_pattern(pv[k as int - 1]));
            assert(s@ =~= print_pats(pv.subrange(0, k as int)));
        }
        s
    }
}

/// Printing and reading back an operator changes nothing: the printed
/// text of every operator lexes to a single token, and that token denotes
/// the operator it came from.
pub proof fn lemma_oper_print_lex_round_trip(op: NumOper)
    ensures
        spec_lex(oper_chars(op), 0).len() == 1,
        spec_oper(spec_lex(oper_chars(op), 0)[0]) == Option::Some(op),
{
    reveal_with_fuel(spec_lex, 4);
    let cs = oper_chars(op);
    match op {
        NumOper::Add => {
            assert(spec_lex(cs, 0) =~= seq![TokenV::Add]);
        },
        NumOper::Sub => {
            assert(spec_lex(cs, 0) =~= seq![TokenV::Sub]);
        },
        NumOper::Mul => {
            assert(spec_lex(cs, 0) =~= seq![TokenV::Asterisk]);
        },
        NumOper::Div => {
            assert(spec_lex(cs, 0) =~= seq![TokenV::Div]);
        },
        NumOper::Mod => {
            assert(spec_lex(cs, 0) =~= seq![TokenV::Mod]);
        },
        NumOper::And => {
            assert(spec_lex(cs, 0) =~= seq![TokenV::And]);
        },
        NumOper::Or => {
            assert(spec_lex(cs, 0) =~= seq![TokenV::Or]);
        },
        NumOper::Xor => {
            assert(spec_lex(cs, 0) =~= seq![TokenV::Xor]);
        },
        NumOper::Shl => {
            assert(spec_lex(cs, 0) =~= seq![TokenV::Shl]);
        },
        NumOper::Shr => {
            assert(spec_lex(cs, 0) =~= seq![TokenV::Shr]);
        },
        NumOper::Lte => {
            assert(spec_lex(cs, 0) =~= seq![TokenV::Lte]);
        },
        NumOper::Ltn => {
            assert(spec_lex(cs, 0) =~= seq![TokenV::Ltn]);
        },
        NumOper::Gte => {
            assert(spec_lex(cs, 0) =~= seq![TokenV::Gte]);
        },
        NumOper::Gtn => {
            assert(spec_lex(cs, 0) =~= seq![TokenV::Gtn]);
        },
        NumOper::Eql => {
            assert(spec_lex(cs, 0) =~= seq![TokenV::EqualsEquals]);
        },
        NumOper::Neq => {
            assert(spec_lex(cs, 0) =~= seq![TokenV::NotEquals]);
        },
    }
}

} // verus!
