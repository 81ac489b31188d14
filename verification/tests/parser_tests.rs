use hvm_lang::ast::{Diagnostic, DiagnosticKind, NumOper, Pattern, Span, Term};
use hvm_lang::name::{max_name_len, DefId, Name};
use hvm_lang::{parse_definition_book, parse_term, rules_to_book};
use hvm_lang::ast::Rule;

fn dbg(t: &Term) -> String {
    format!("{:?}", t)
}

fn nam(s: &str) -> Name {
    Name(s.to_string())
}

#[test]
fn name_of_exact_capacity_parses() {
    let max = max_name_len();
    let name: String = "a".repeat(max);
    let src = format!("{} = 1", name);
    let book = parse_definition_book(&src).unwrap();
    assert_eq!(book.defs.len(), 1);
    assert_eq!(book.defs[0].1.name.0, name);
}

#[test]
fn name_one_past_capacity_is_rejected() {
    let max = max_name_len();
    let name: String = "a".repeat(max + 1);
    let src = format!("{} = 1", name);
    let errs = parse_definition_book(&src).unwrap_err();
    assert!(errs.iter().any(|d| match &d.kind {
        DiagnosticKind::NameTooLong { name: n, capacity } => n == &name && capacity == &max,
        _ => false,
    }));
}

#[test]
fn capacity_matches_runtime_pointer_payload() {
    // 32-bit pointer word, 4 tag bits: floor(log64(2^28)) = 4.
    assert_eq!(max_name_len(), 4);
}

#[test]
fn numop_parses_as_numop_not_application() {
    let t = parse_term("(+ 1 2)").unwrap();
    let expected = Term::NumOp {
        op: NumOper::Add,
        fst: Box::new(Term::Num { val: 1 }),
        snd: Box::new(Term::Num { val: 2 }),
    };
    assert_eq!(dbg(&t), dbg(&expected));
}

#[test]
fn application_folds_left() {
    let t = parse_term("(f 1 2)").unwrap();
    let expected = Term::App {
        fun: Box::new(Term::App {
            fun: Box::new(Term::Var { nam: nam("f") }),
            arg: Box::new(Term::Num { val: 1 }),
        }),
        arg: Box::new(Term::Num { val: 2 }),
    };
    assert_eq!(dbg(&t), dbg(&expected));
}

#[test]
fn let_is_sugar_for_applied_lambda() {
    let t1 = parse_term("let x = 1; x").unwrap();
    let t2 = parse_term("(@x x 1)").unwrap();
    assert_eq!(dbg(&t1), dbg(&t2));
    let expected = Term::App {
        fun: Box::new(Term::Lam {
            nam: Some(nam("x")),
            bod: Box::new(Term::Var { nam: nam("x") }),
        }),
        arg: Box::new(Term::Num { val: 1 }),
    };
    assert_eq!(dbg(&t1), dbg(&expected));
}

#[test]
fn dup_parses_value_and_continuation() {
    let t = parse_term("dup a b = 1; (+ a b)").unwrap();
    let expected = Term::Dup {
        fst: Some(nam("a")),
        snd: Some(nam("b")),
        val: Box::new(Term::Num { val: 1 }),
        nxt: Box::new(Term::NumOp {
            op: NumOper::Add,
            fst: Box::new(Term::Var { nam: nam("a") }),
            snd: Box::new(Term::Var { nam: nam("b") }),
        }),
    };
    assert_eq!(dbg(&t), dbg(&expected));
}

#[test]
fn newline_separates_binding_like_semicolon() {
    let t1 = parse_term("dup a b = 1; (+ a b)").unwrap();
    let t2 = parse_term("dup a b = 1\n(+ a b)").unwrap();
    assert_eq!(dbg(&t1), dbg(&t2));
}

#[test]
fn erased_lambda_parameter_binds_nothing() {
    let t = parse_term("\u{03BB}* 1").unwrap();
    let expected = Term::Lam { nam: None, bod: Box::new(Term::Num { val: 1 }) };
    assert_eq!(dbg(&t), dbg(&expected));
}

#[test]
fn global_lambda_and_global_var() {
    let t = parse_term("@$g $g").unwrap();
    let expected = Term::GlobalLam {
        nam: nam("g"),
        bod: Box::new(Term::GlobalVar { nam: nam("g") }),
    };
    assert_eq!(dbg(&t), dbg(&expected));
}

fn mk_rule(name: &str, pats: Vec<Pattern>, body: Term) -> Rule {
    Rule { def_id: DefId::from_name(&nam(name)), pats, body }
}

fn sp(start: usize, end: usize) -> Span {
    Span { start, end }
}

#[test]
fn non_contiguous_clauses_are_a_repeated_definition() {
    // f 0 = 1 ; g x = x ; f 1 = 2 — the second f run is rejected.
    let rules = vec![
        (mk_rule("f", vec![Pattern::Num(0)], Term::Num { val: 1 }), sp(0, 7)),
        (
            mk_rule("g", vec![Pattern::Var(Some(nam("x")))], Term::Var { nam: nam("x") }),
            sp(8, 17),
        ),
        (mk_rule("f", vec![Pattern::Num(1)], Term::Num { val: 2 }), sp(18, 25)),
    ];
    let (book, diags) = rules_to_book(rules);
    assert_eq!(book.defs.len(), 2);
    assert_eq!(book.defs[0].1.name.0, "f");
    assert_eq!(book.defs[0].1.rules.len(), 1);
    assert_eq!(format!("{:?}", book.defs[0].1.rules[0].body), format!("{:?}", Term::Num { val: 1 }));
    assert_eq!(book.defs[1].1.name.0, "g");
    assert_eq!(book.defs[1].1.rules.len(), 1);
    assert_eq!(diags.len(), 1);
    match &diags[0].kind {
        DiagnosticKind::RepeatedDefinition { name } => assert_eq!(name.0, "f"),
        k => panic!("expected RepeatedDefinition, got {:?}", k),
    }
    // The diagnostic spans the rejected run: the third clause.
    assert_eq!(diags[0].span, sp(18, 25));
}

#[test]
fn adjacent_clauses_merge_into_one_definition() {
    let rules = vec![
        (mk_rule("f", vec![Pattern::Num(0)], Term::Num { val: 1 }), sp(0, 7)),
        (mk_rule("f", vec![Pattern::Num(1)], Term::Num { val: 2 }), sp(8, 15)),
        (
            mk_rule("g", vec![Pattern::Var(Some(nam("x")))], Term::Var { nam: nam("x") }),
            sp(16, 25),
        ),
    ];
    let (book, diags) = rules_to_book(rules);
    assert!(diags.is_empty());
    assert_eq!(book.defs.len(), 2);
    assert_eq!(book.defs[0].1.name.0, "f");
    assert_eq!(book.defs[0].1.rules.len(), 2);
    assert_eq!(format!("{:?}", book.defs[0].1.rules[0].body), format!("{:?}", Term::Num { val: 1 }));
    assert_eq!(format!("{:?}", book.defs[0].1.rules[1].body), format!("{:?}", Term::Num { val: 2 }));
}

#[test]
fn whole_source_with_non_contiguous_clauses_reports_one_diagnostic() {
    let errs = parse_definition_book("f 0 = 1\ng x = x\nf 1 = 2").unwrap_err();
    let repeated: Vec<&Diagnostic> = errs
        .iter()
        .filter(|d| matches!(d.kind, DiagnosticKind::RepeatedDefinition { .. }))
        .collect();
    assert_eq!(errs.len(), 1);
    assert_eq!(repeated.len(), 1);
}

#[test]
fn whole_source_with_adjacent_clauses_parses() {
    let book = parse_definition_book("f 0 = 1\nf 1 = 2\ng x = x").unwrap();
    assert_eq!(book.defs.len(), 2);
    assert_eq!(book.defs[0].1.rules.len(), 2);
}

#[test]
fn malformed_dup_yields_diagnostics_and_no_book() {
    // Unterminated dup: no continuation after the value.
    let errs = parse_definition_book("f = dup a b = 1").unwrap_err();
    assert!(!errs.is_empty());
}

#[test]
fn several_bad_lines_give_several_diagnostics() {
    let errs = parse_definition_book("f = )\ng = 1\nh = )").unwrap_err();
    assert!(errs.len() >= 2);
}

#[test]
fn lexically_invalid_input_surfaces_a_lex_error() {
    let errs = parse_definition_book("f = ?").unwrap_err();
    assert!(errs.iter().any(|d| matches!(d.kind, DiagnosticKind::LexError)));
}

#[test]
fn truncated_rule_reports_unexpected_end() {
    let errs = parse_definition_book("f =").unwrap_err();
    assert!(errs.iter().any(|d| matches!(d.kind, DiagnosticKind::UnexpectedEnd)));
}

#[test]
fn number_past_machine_word_is_a_lex_error() {
    let errs = parse_term("99999999999999999999999999").unwrap_err();
    assert!(!errs.is_empty());
}

#[test]
fn largest_number_parses() {
    let t = parse_term("18446744073709551615").unwrap();
    assert_eq!(dbg(&t), dbg(&Term::Num { val: u64::MAX }));
}

#[test]
fn every_operator_token_maps_to_its_operator() {
    let cases = [
        ("+", NumOper::Add),
        ("-", NumOper::Sub),
        ("*", NumOper::Mul),
        ("/", NumOper::Div),
        ("%", NumOper::Mod),
        ("&", NumOper::And),
        ("|", NumOper::Or),
        ("^", NumOper::Xor),
        ("<<", NumOper::Shl),
        (">>", NumOper::Shr),
        ("<=", NumOper::Lte),
        ("<", NumOper::Ltn),
        (">=", NumOper::Gte),
        (">", NumOper::Gtn),
        ("==", NumOper::Eql),
        ("!=", NumOper::Neq),
    ];
    for (tok, op) in cases {
        let t = parse_term(&format!("({} 1 2)", tok)).unwrap();
        match t {
            Term::NumOp { op: got, .. } => {
                assert_eq!(format!("{:?}", got), format!("{:?}", op))
            },
            other => panic!("expected a numeric operation for {}, got {:?}", tok, other),
        }
    }
}

#[test]
fn constructor_patterns_parse_recursively() {
    let book = parse_definition_book("f (Cons h t) 0 * = h").unwrap();
    let rule = &book.defs[0].1.rules[0];
    assert_eq!(rule.pats.len(), 3);
    match &rule.pats[0] {
        Pattern::Ctr(n, args) => {
            assert_eq!(n.0, "Cons");
            assert_eq!(args.len(), 2);
        },
        p => panic!("expected a constructor pattern, got {:?}", p),
    }
    assert!(matches!(rule.pats[1], Pattern::Num(0)));
    assert!(matches!(rule.pats[2], Pattern::Var(None)));
}

#[test]
fn definition_name_survives_the_key_round_trip() {
    // The definition's name is decoded from its key, so this fails if the
    // base-64 packing or unpacking strays from the runtime's.
    let book = parse_definition_book("foo = 1\n_b2 = 2").unwrap();
    assert_eq!(book.defs[0].1.name.0, "foo");
    assert_eq!(book.defs[1].1.name.0, "_b2");
    let id = DefId::from_name(&nam("Zz_9"));
    assert_eq!(Name::from_def_id(id).0, "Zz_9");
}

#[test]
fn parenthesized_zero_pattern_head_parses() {
    let book = parse_definition_book("(main) = 42").unwrap();
    assert_eq!(book.defs[0].1.name.0, "main");
    assert!(book.defs[0].1.rules[0].pats.is_empty());
}

#[test]
fn standalone_term_rejects_trailing_tokens() {
    assert!(parse_term("1 2 \n 3").is_err());
    assert!(parse_term("+ 1 2").is_ok());
}

#[test]
fn newlines_are_soft_inside_parentheses() {
    let t1 = parse_term("(f\n1\n2)").unwrap();
    let t2 = parse_term("(f 1 2)").unwrap();
    assert_eq!(dbg(&t1), dbg(&t2));
}

use hvm_lang::pretty::{pattern_to_string, term_to_string, u64_to_string};

#[test]
fn printed_numbers_read_back() {
    assert_eq!(u64_to_string(0), "0");
    assert_eq!(u64_to_string(90210), "90210");
    assert_eq!(u64_to_string(u64::MAX), "18446744073709551615");
}

#[test]
fn terms_round_trip_through_printing() {
    let sources = [
        "(+ 1 2)",
        "(f 1 2)",
        "let x = 1; x",
        "dup a b = 1; (+ a b)",
        "@* 1",
        "@$g ($g 5)",
        "(@x (x x) @y y)",
        "dup * b = (f 2); b",
        "(<= 1 (>> 8 2))",
    ];
    for src in sources {
        let t = parse_term(src).unwrap();
        let printed = term_to_string(&t);
        let t2 = parse_term(&printed)
            .unwrap_or_else(|e| panic!("reparse of {:?} failed: {:?}", printed, e));
        assert_eq!(format!("{:?}", t), format!("{:?}", t2), "source {:?}", src);
    }
}

#[test]
fn books_round_trip_through_printing() {
    let src = "f 0 = 1\nf (Cons h t) = (+ h 1)\ng x = @y (x y)\n(main) = (g f)";
    let book = parse_definition_book(src).unwrap();
    let mut lines: Vec<String> = Vec::new();
    for (_, def) in &book.defs {
        for rule in &def.rules {
            let mut pats = String::new();
            for p in &rule.pats {
                pats.push(' ');
                pats.push_str(&pattern_to_string(p));
            }
            lines.push(format!("{}{} = {}", def.name.0, pats, term_to_string(&rule.body)));
        }
    }
    let printed = lines.join("\n");
    let book2 = parse_definition_book(&printed)
        .unwrap_or_else(|e| panic!("reparse of {:?} failed: {:?}", printed, e));
    assert_eq!(format!("{:?}", book), format!("{:?}", book2));
}

#[test]
fn book_lookup_by_definition_key() {
    let book = parse_definition_book("f 0 = 1\ng x = x").unwrap();
    assert_eq!(book.len(), 2);
    let f_id = DefId::from_name(&nam("f"));
    assert!(book.contains_id(f_id));
    let d = book.get(f_id).unwrap();
    assert_eq!(d.name.0, "f");
    let missing = DefId::from_name(&nam("zzz"));
    assert!(!book.contains_id(missing));
    assert!(book.get(missing).is_none());
}

#[test]
fn empty_source_gives_an_empty_book() {
    let book = parse_definition_book("").unwrap();
    assert_eq!(book.len(), 0);
    let book = parse_definition_book("\n\n  \n").unwrap();
    assert_eq!(book.len(), 0);
}

#[test]
fn names_may_continue_with_digits_but_not_start_with_one() {
    let book = parse_definition_book("f1_x = 1").unwrap();
    assert_eq!(book.defs[0].1.name.0, "f1_x");
    // A leading digit lexes as a number, not a name.
    assert!(parse_definition_book("1fx = 1").is_err());
}

#[test]
fn both_dup_binders_may_be_erased() {
    let t = parse_term("dup * * = 1; 2").unwrap();
    let expected = Term::Dup {
        fst: None,
        snd: None,
        val: Box::new(Term::Num { val: 1 }),
        nxt: Box::new(Term::Num { val: 2 }),
    };
    assert_eq!(dbg(&t), dbg(&expected));
}

#[test]
fn recovery_drops_a_bad_line_and_reads_on() {
    // The malformed middle line is reported; the two f clauses then sit
    // adjacent in the recovered clause list, so no repetition is reported.
    let errs = parse_definition_book("f 0 = 1\n)\nf 1 = 2").unwrap_err();
    assert_eq!(errs.len(), 1);
    assert!(!matches!(errs[0].kind, DiagnosticKind::RepeatedDefinition { .. }));
}

#[test]
fn grammar_diagnostics_come_before_repetition_diagnostics() {
    let errs = parse_definition_book("f 0 = 1\ng = )\ng 2 = 2\nf 1 = 2").unwrap_err();
    assert_eq!(errs.len(), 2);
    assert!(!matches!(errs[0].kind, DiagnosticKind::RepeatedDefinition { .. }));
    match &errs[1].kind {
        DiagnosticKind::RepeatedDefinition { name } => assert_eq!(name.0, "f"),
        k => panic!("expected RepeatedDefinition, got {:?}", k),
    }
}

use hvm_lang::lexer::{lex, Token};
use hvm_lang::parser::parse_name;

#[test]
fn tokens_carry_their_source_ranges() {
    let toks = lex("f  = 12");
    assert_eq!(toks.len(), 3);
    assert!(matches!(&toks[0].0, Token::Name(n) if n == "f"));
    assert_eq!((toks[0].1.start, toks[0].1.end), (0, 1));
    assert!(matches!(&toks[1].0, Token::Equals));
    assert_eq!((toks[1].1.start, toks[1].1.end), (3, 4));
    assert!(matches!(&toks[2].0, Token::Number(12)));
    assert_eq!((toks[2].1.start, toks[2].1.end), (5, 7));
}

#[test]
fn error_token_sits_at_the_failing_character() {
    let toks = lex("a ? b");
    assert!(matches!(&toks[1].0, Token::Error));
    assert_eq!((toks[1].1.start, toks[1].1.end), (2, 3));
}

#[test]
fn end_of_input_diagnostics_anchor_past_the_source() {
    let errs = parse_definition_book("f =").unwrap_err();
    let end = errs
        .iter()
        .find(|d| matches!(d.kind, DiagnosticKind::UnexpectedEnd))
        .expect("an end-of-input diagnostic");
    assert_eq!((end.span.start, end.span.end), (3, 3));

    let errs = parse_term("(1").unwrap_err();
    assert_eq!(errs.len(), 1);
    assert!(matches!(errs[0].kind, DiagnosticKind::UnexpectedEnd));
    assert_eq!((errs[0].span.start, errs[0].span.end), (2, 2));
}

#[test]
fn repeated_definition_diagnostic_spans_the_rejected_run() {
    // "f 0 = 1\ng x = x\nf 1 = 2": the second f clause runs from 16 to 23.
    let errs = parse_definition_book("f 0 = 1\ng x = x\nf 1 = 2").unwrap_err();
    assert_eq!(errs.len(), 1);
    assert!(matches!(errs[0].kind, DiagnosticKind::RepeatedDefinition { .. }));
    assert_eq!((errs[0].span.start, errs[0].span.end), (16, 23));
}

#[test]
fn too_long_name_diagnostic_carries_text_capacity_and_span() {
    let toks = lex("abcdefgh = 1");
    let d = parse_name(&toks, 0).unwrap_err();
    match d.kind {
        DiagnosticKind::NameTooLong { name, capacity } => {
            assert_eq!(name, "abcdefgh");
            assert_eq!(capacity, max_name_len());
        },
        k => panic!("expected NameTooLong, got {:?}", k),
    }
    assert_eq!((d.span.start, d.span.end), (0, 8));
}
