use ll1_parser::error::{Trap, TrapCode};
use ll1_parser::first::FstSetSym;
use ll1_parser::follow::FollSetSym;
use ll1_parser::gram::{Gram, GramProd, GramSym, GramSymStr};
use ll1_parser::parser::LL1Parser;
use ll1_parser::predict::PredSetSym;

fn t(name: &str) -> GramSym {
    GramSym::Terminal(name.to_string())
}

fn n(name: &str) -> GramSym {
    GramSym::NonTerminal(name.to_string())
}

fn prod(lhs: &str, rhs: Vec<GramSym>) -> GramProd {
    GramProd::new(n(lhs), GramSymStr::Str(rhs))
}

fn eps(lhs: &str) -> GramProd {
    GramProd::new(n(lhs), GramSymStr::Epsilon)
}

fn fst(name: &str) -> FstSetSym {
    FstSetSym::Sym(name.to_string())
}

fn fol(name: &str) -> FollSetSym {
    FollSetSym::Sym(name.to_string())
}

/// E -> T E2; E2 -> + T E2 | epsilon; T -> F T2; T2 -> * F T2 | epsilon;
/// F -> ( E ) | id
fn arith() -> Gram {
    Gram::new(
        "arith",
        n("E"),
        vec![
            prod("E", vec![n("T"), n("E2")]),
            prod("E2", vec![t("+"), n("T"), n("E2")]),
            eps("E2"),
            prod("T", vec![n("F"), n("T2")]),
            prod("T2", vec![t("*"), n("F"), n("T2")]),
            eps("T2"),
            prod("F", vec![t("("), n("E"), t(")")]),
            prod("F", vec![t("id")]),
        ],
    )
    .unwrap()
}

/// S -> A B c; A -> B | a; B -> A | epsilon | b C; C -> C d
fn chains() -> Gram {
    Gram::new(
        "chains",
        n("S"),
        vec![
            prod("S", vec![n("A"), n("B"), t("c")]),
            prod("A", vec![n("B")]),
            prod("A", vec![t("a")]),
            prod("B", vec![n("A")]),
            eps("B"),
            prod("B", vec![t("b"), n("C")]),
            prod("C", vec![n("C"), t("d")]),
        ],
    )
    .unwrap()
}

#[test]
fn first_sets_of_arithmetic() {
    let g = arith();
    let first = g.first_sets();
    for nt in ["E", "T", "F"] {
        assert!(first.contains(&n(nt), &fst("(")));
        assert!(first.contains(&n(nt), &fst("id")));
        assert!(!first.contains(&n(nt), &fst("+")));
        assert!(!first.contains(&n(nt), &fst("*")));
        assert!(!first.contains(&n(nt), &fst(")")));
        assert!(!first.contains(&n(nt), &FstSetSym::Epsilon));
    }
    assert!(first.contains(&n("E2"), &fst("+")));
    assert!(first.contains(&n("E2"), &FstSetSym::Epsilon));
    assert!(!first.contains(&n("E2"), &fst("*")));
    assert!(first.contains(&n("T2"), &fst("*")));
    assert!(first.contains(&n("T2"), &FstSetSym::Epsilon));
    assert!(!first.contains(&n("T2"), &fst("id")));
}

#[test]
fn first_of_a_terminal_is_itself() {
    let g = arith();
    let first = g.first_sets();
    assert!(first.contains(&t("id"), &fst("id")));
    assert!(!first.contains(&t("id"), &fst("+")));
    assert!(!first.contains(&t("id"), &FstSetSym::Epsilon));
    assert!(first.contains(&t("unknown"), &fst("unknown")));
    assert!(!first.contains(&n("unknown"), &fst("id")));
    assert!(!first.contains(&n("unknown"), &FstSetSym::Epsilon));
}

#[test]
fn epsilon_follows_nullable_chains() {
    let g = chains();
    let first = g.first_sets();
    assert!(first.contains(&n("A"), &FstSetSym::Epsilon));
    assert!(first.contains(&n("B"), &FstSetSym::Epsilon));
    assert!(!first.contains(&n("S"), &FstSetSym::Epsilon));
    assert!(!first.contains(&n("C"), &FstSetSym::Epsilon));
    assert!(first.contains(&n("A"), &fst("a")));
    assert!(first.contains(&n("A"), &fst("b")));
    assert!(first.contains(&n("B"), &fst("a")));
    assert!(first.contains(&n("B"), &fst("b")));
    assert!(first.contains(&n("S"), &fst("a")));
    assert!(first.contains(&n("S"), &fst("b")));
    assert!(first.contains(&n("S"), &fst("c")));
    assert!(!first.contains(&n("C"), &fst("d")));
    assert!(!first.contains(&n("A"), &fst("c")));
}

#[test]
fn follow_sets_of_arithmetic() {
    let g = arith();
    let first = g.first_sets();
    let follow = g.follow_sets(&first);
    assert!(follow.contains(&n("E"), &FollSetSym::EndMarker));
    assert!(follow.contains(&n("E"), &fol(")")));
    assert!(!follow.contains(&n("E"), &fol("+")));
    assert!(follow.contains(&n("E2"), &FollSetSym::EndMarker));
    assert!(follow.contains(&n("E2"), &fol(")")));
    for nt in ["T", "T2"] {
        assert!(follow.contains(&n(nt), &fol("+")));
        assert!(follow.contains(&n(nt), &fol(")")));
        assert!(follow.contains(&n(nt), &FollSetSym::EndMarker));
        assert!(!follow.contains(&n(nt), &fol("*")));
    }
    assert!(follow.contains(&n("F"), &fol("*")));
    assert!(follow.contains(&n("F"), &fol("+")));
    assert!(follow.contains(&n("F"), &fol(")")));
    assert!(follow.contains(&n("F"), &FollSetSym::EndMarker));
    assert!(!follow.contains(&n("F"), &fol("(")));
    assert!(!follow.contains(&t("id"), &FollSetSym::EndMarker));
}

#[test]
fn end_marker_follows_the_start_symbol() {
    for g in [arith(), chains()] {
        let first = g.first_sets();
        let follow = g.follow_sets(&first);
        assert!(follow.contains(g.start_sym(), &FollSetSym::EndMarker));
    }
    let lone = Gram::new("lone", n("S"), vec![]).unwrap();
    let first = lone.first_sets();
    let follow = lone.follow_sets(&first);
    assert!(follow.contains(&n("S"), &FollSetSym::EndMarker));
    assert!(!follow.contains(&n("S"), &fol("a")));
}

#[test]
fn prediction_table_of_arithmetic() {
    let g = arith();
    let first = g.first_sets();
    let follow = g.follow_sets(&first);
    let table = g.prediction_sets(&first, &follow).unwrap();
    let la = |s: &str| PredSetSym::Sym(s.to_string());
    assert_eq!(
        *table.predict(&n("E"), la("id")).unwrap(),
        prod("E", vec![n("T"), n("E2")])
    );
    assert_eq!(
        *table.predict(&n("E2"), la("+")).unwrap(),
        prod("E2", vec![t("+"), n("T"), n("E2")])
    );
    assert_eq!(*table.predict(&n("E2"), la(")")).unwrap(), eps("E2"));
    assert_eq!(
        *table.predict(&n("E2"), PredSetSym::EndMarker).unwrap(),
        eps("E2")
    );
    assert_eq!(*table.predict(&n("T2"), la("+")).unwrap(), eps("T2"));
    assert_eq!(
        *table.predict(&n("F"), la("(")).unwrap(),
        prod("F", vec![t("("), n("E"), t(")")])
    );
    assert_eq!(
        *table.predict(&n("F"), la("id")).unwrap(),
        prod("F", vec![t("id")])
    );
    assert!(table.predict(&n("F"), la("+")).is_none());
    assert!(table.predict(&n("E"), PredSetSym::EndMarker).is_none());
    assert!(table.predict(&n("E"), la("unknown")).is_none());
    assert!(table.predict(&n("X"), la("id")).is_none());
    assert!(table.predict(&t("id"), la("id")).is_none());
}

#[test]
fn prediction_table_is_the_same_twice() {
    let g = arith();
    let first = g.first_sets();
    let follow = g.follow_sets(&first);
    let one = g.prediction_sets(&first, &follow).unwrap();
    let first2 = g.first_sets();
    let follow2 = g.follow_sets(&first2);
    let two = g.prediction_sets(&first2, &follow2).unwrap();
    let mut las = vec![PredSetSym::EndMarker];
    for s in ["+", "*", "(", ")", "id", "x"] {
        las.push(PredSetSym::Sym(s.to_string()));
    }
    for nt in ["E", "E2", "T", "T2", "F", "X"] {
        for la in las.iter() {
            let a = one.predict(&n(nt), la.clone());
            let b = two.predict(&n(nt), la.clone());
            assert_eq!(a, b);
        }
    }
}

#[test]
fn common_prefix_is_ambiguous() {
    let g = Gram::new(
        "prefix",
        n("A"),
        vec![prod("A", vec![t("a")]), prod("A", vec![t("a"), t("b")])],
    )
    .unwrap();
    match LL1Parser::new(g) {
        Err(TrapCode::AmbigousLLRule(rule)) => assert_eq!(rule, "A -> a b"),
        Ok(_) => panic!("the grammar is not LL(1)"),
    }
}

#[test]
fn first_follow_clash_is_ambiguous() {
    let g = Gram::new(
        "clash",
        n("S"),
        vec![
            prod("S", vec![n("A"), t("a")]),
            prod("A", vec![t("a")]),
            eps("A"),
        ],
    )
    .unwrap();
    match LL1Parser::new(g) {
        Err(code) => {
            assert_eq!(code, TrapCode::AmbigousLLRule("A -> \u{3b5}".to_string()));
            assert_eq!(code.emit_box_err().msg(), "A -> \u{3b5}");
        }
        Ok(_) => panic!("the grammar is not LL(1)"),
    }
}

#[test]
fn left_recursion_is_ambiguous() {
    let g = Gram::new(
        "left",
        n("E"),
        vec![prod("E", vec![n("E"), t("+"), t("x")]), prod("E", vec![t("x")])],
    )
    .unwrap();
    assert!(matches!(
        LL1Parser::new(g),
        Err(TrapCode::AmbigousLLRule(_))
    ));
}

#[test]
fn repeated_rule_is_no_ambiguity() {
    let g = Gram::new(
        "twice",
        n("S"),
        vec![prod("S", vec![t("a")]), prod("S", vec![t("a")])],
    )
    .unwrap();
    assert!(LL1Parser::new(g).is_ok());
}

#[test]
fn disjoint_alternatives_build_a_parser() {
    assert!(LL1Parser::new(arith()).is_ok());
    let g = Gram::new(
        "ab",
        n("A"),
        vec![prod("A", vec![t("a")]), prod("A", vec![t("b"), n("A")])],
    )
    .unwrap();
    assert!(LL1Parser::new(g).is_ok());
}

#[test]
fn grammar_needs_nonterminals_on_the_left() {
    assert!(Gram::new("bad", t("S"), vec![]).is_none());
    assert!(Gram::new(
        "bad",
        n("S"),
        vec![GramProd::new(t("a"), GramSymStr::Epsilon)]
    )
    .is_none());
    let g = Gram::new("good", n("S"), vec![eps("S")]).unwrap();
    assert_eq!(g.name(), "good");
    assert_eq!(*g.start_sym(), n("S"));
    assert_eq!(*g.productions(), vec![eps("S")]);
}

#[test]
fn symbols_compare_by_kind_and_name() {
    assert_eq!(t("a"), t("a"));
    assert_ne!(t("a"), n("a"));
    assert_ne!(t("a"), t("b"));
    assert!(t("a").is_terminal());
    assert!(!t("a").is_nonterminal());
    assert!(n("a").is_nonterminal());
    assert_eq!(n("abc").name(), "abc");
    assert!(t("z") < n("a"));
    assert!(t("a") < t("b"));
    assert_eq!(t("a").clone(), t("a"));
    assert_eq!(GramSymStr::Epsilon, GramSymStr::Epsilon);
    assert_ne!(GramSymStr::Epsilon, GramSymStr::Str(vec![]));
    assert_eq!(
        GramSymStr::Str(vec![t("a"), n("B")]).clone(),
        GramSymStr::Str(vec![t("a"), n("B")])
    );
    assert_ne!(
        GramSymStr::Str(vec![t("a"), n("B")]),
        GramSymStr::Str(vec![t("a")])
    );
    assert_ne!(prod("A", vec![t("a")]), prod("B", vec![t("a")]));
}

#[test]
fn rules_are_written_with_an_arrow() {
    assert_eq!(prod("E", vec![n("T"), t("+"), n("E")]).text(), "E -> T + E");
    assert_eq!(prod("E", vec![t("x")]).text(), "E -> x");
    assert_eq!(prod("E", vec![]).text(), "E -> ");
    assert_eq!(eps("E").text(), "E -> \u{3b5}");
}

#[test]
fn traps_keep_their_message() {
    let trap = Trap::new("something failed");
    assert_eq!(trap.msg(), "something failed");
    let boxed = Trap::new_box_err("boxed");
    assert_eq!(boxed.msg(), "boxed");
    let code = TrapCode::AmbigousLLRule("A -> a".to_string());
    assert_eq!(code.emit_box_err().msg(), "A -> a");
}
