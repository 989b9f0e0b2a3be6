use ll1_parser::ast::{ASTNode, AST};
use ll1_parser::error::ParseError;
use ll1_parser::gram::{Gram, GramProd, GramSym, GramSymStr};
use ll1_parser::parser::LL1Parser;
use ll1_parser::text::decimal;
use ll1_parser::token::{SrcLoc, Token};
use ll1_parser::VerboseLv;

fn t(name: &str) -> GramSym {
    GramSym::Terminal(name.to_string())
}

fn n(name: &str) -> GramSym {
    GramSym::NonTerminal(name.to_string())
}

fn tok(name: &str, col: usize) -> Token {
    Token::new(name, name, SrcLoc::new((1, col)))
}

fn sample() -> AST {
    let mut inner = AST::new(&n("B"));
    inner.insert_leaf(tok("x", 1));
    let mut root = AST::new(&n("A"));
    root.insert_leaf(tok("a", 0));
    root.insert_tree(inner);
    root.insert_node(ASTNode::Leaf(tok("x", 2)));
    root.insert_node(ASTNode::Tree(AST::new(&n("C"))));
    root
}

#[test]
fn children_keep_their_order() {
    let root = sample();
    assert_eq!(*root.sym(), n("A"));
    assert_eq!(root.len(), 4);
    assert_eq!(root.elem_syms(), vec![t("a"), n("B"), t("x"), n("C")]);
    let pairs = root.elems_vec();
    assert_eq!(pairs.len(), 4);
    assert_eq!(pairs[0].0, t("a"));
    assert_eq!(pairs[0].1.get_token().unwrap().loc().col, 0);
    assert_eq!(pairs[1].0, n("B"));
    assert_eq!(pairs[1].1.get_ast().unwrap().elem_syms(), vec![t("x")]);
    assert_eq!(pairs[2].1.to_gram_sym(), t("x"));
    assert_eq!(pairs[3].1.to_gram_sym(), n("C"));
    assert!(pairs[0].1.get_ast().is_none());
    assert!(pairs[1].1.get_token().is_none());
}

#[test]
fn get_elem_finds_the_first_child() {
    let root = sample();
    let x = root.get_elem(&t("x")).unwrap();
    assert_eq!(x.get_token().unwrap().loc().col, 2);
    let b = root.get_elem(&n("B")).unwrap().get_ast().unwrap();
    assert_eq!(b.get_elem(&t("x")).unwrap().get_token().unwrap().loc().col, 1);
    assert!(root.get_elem(&t("b")).is_none());
    assert!(root.get_elem(&n("x")).is_none());
    assert!(AST::new(&n("A")).get_elem(&t("a")).is_none());
}

#[test]
fn copy_is_deep_and_equal() {
    let root = sample();
    let copy = root.copy_tree();
    assert_eq!(copy.text(), root.text());
    assert_eq!(copy.elem_syms(), root.elem_syms());
    let node = ASTNode::Tree(root);
    assert_eq!(node.copy_node().text(), copy.text());
}

#[test]
fn trees_are_dumped_by_level() {
    let root = sample();
    let expected = "(0)A: \n  (1)a: a (1, 0)\n  (1)B: \n    (2)x: x (1, 1)\n  (1)x: x (1, 2)\n  (1)C: \n";
    assert_eq!(root.text(), expected);
    assert_eq!(root.dump(0), expected);
    let inner = root.get_elem(&n("B")).unwrap();
    assert_eq!(inner.dump(3), "      (3)B: \n        (4)x: x (1, 1)\n");
    assert_eq!(inner.text(), "(0)B: \n  (1)x: x (1, 1)\n");
    let leaf = root.get_elem(&t("a")).unwrap();
    assert_eq!(leaf.dump(1), "  (1)a: a (1, 0)\n");
    assert_eq!(leaf.text(), "(0)a: a (1, 0)\n");
    assert_eq!(AST::new(&n("E")).dump(12), format!("{}(12)E: \n", " ".repeat(24)));
}

#[test]
fn parsed_tree_is_dumped_in_derivation_order() {
    let g = Gram::new(
        "anbn",
        n("S"),
        vec![
            GramProd::new(n("S"), GramSymStr::Str(vec![t("a"), n("S"), t("b")])),
            GramProd::new(n("S"), GramSymStr::Epsilon),
        ],
    )
    .unwrap();
    let p = LL1Parser::new(g).unwrap();
    let tree = p
        .parse(vec![tok("a", 0), tok("a", 1), tok("b", 2), tok("b", 3)])
        .unwrap();
    assert_eq!(
        tree.text(),
        "(0)S: \n  (1)a: a (1, 0)\n  (1)S: \n    (2)a: a (1, 1)\n    (2)b: b (1, 2)\n  (1)b: b (1, 3)\n"
    );
}

#[test]
fn numbers_are_written_in_decimal() {
    assert_eq!(decimal(0), "0");
    assert_eq!(decimal(7), "7");
    assert_eq!(decimal(10), "10");
    assert_eq!(decimal(1234567890), "1234567890");
    assert_eq!(decimal(usize::MAX), usize::MAX.to_string());
}

#[test]
fn failures_are_reported_in_words() {
    assert_eq!(ParseError::EmptyTokens.message(), "empty tokens");
    assert_eq!(
        ParseError::UnexpectedRoot { token: tok("x", 3) }.message(),
        "Unexpected token: `x: x (1, 3)` for root grammar"
    );
    assert_eq!(
        ParseError::Unmatched { token: tok("x", 3), expected: t("y") }.message(),
        "Unmatched token x: x (1, 3), a y expected"
    );
    assert_eq!(
        ParseError::UnexpectedDerive { token: tok("x", 3), sym: n("E") }.message(),
        "Unexpected token x: x (1, 3) for derive E"
    );
    assert_eq!(
        ParseError::Unfinished { node: n("E"), sym: t(")") }.message(),
        "Unfinished production: E still waits for )"
    );
    assert_eq!(
        ParseError::TokensRemain { at: 12 }.message(),
        "Tokens remain from position 12"
    );
}

#[test]
fn symbols_are_matched_left_to_right() {
    let g = Gram::new(
        "abc",
        n("S"),
        vec![GramProd::new(
            n("S"),
            GramSymStr::Str(vec![t("a"), t("b"), t("c")]),
        )],
    )
    .unwrap();
    let p = LL1Parser::new(g).unwrap();
    let tree = p.parse(vec![tok("a", 0), tok("b", 1), tok("c", 2)]).unwrap();
    assert_eq!(tree.elem_syms(), vec![t("a"), t("b"), t("c")]);
    assert!(p.parse(vec![tok("a", 0), tok("c", 1), tok("b", 2)]).is_err());
    assert!(p.parse(vec![tok("c", 0), tok("b", 1), tok("a", 2)]).is_err());
}

#[test]
fn empty_right_side_opens_an_empty_node() {
    let g = Gram::new(
        "hollow",
        n("S"),
        vec![
            GramProd::new(n("S"), GramSymStr::Str(vec![n("A"), t("x")])),
            GramProd::new(n("A"), GramSymStr::Str(vec![])),
        ],
    )
    .unwrap();
    let p = LL1Parser::new(g).unwrap();
    let tree = p.parse(vec![tok("x", 0)]).unwrap();
    assert_eq!(tree.elem_syms(), vec![n("A"), t("x")]);
    assert_eq!(tree.get_elem(&n("A")).unwrap().get_ast().unwrap().len(), 0);
}

#[test]
fn epsilon_start_leaves_the_tokens_unread() {
    let g = Gram::new(
        "anbn",
        n("S"),
        vec![
            GramProd::new(n("S"), GramSymStr::Str(vec![t("a"), n("S"), t("b")])),
            GramProd::new(n("S"), GramSymStr::Epsilon),
        ],
    )
    .unwrap();
    let p = LL1Parser::new(g).unwrap();
    assert!(matches!(
        p.parse(vec![tok("b", 0)]),
        Err(ParseError::TokensRemain { at: 0 })
    ));
}

#[test]
fn nullable_tail_is_passed_over_at_the_end() {
    let g = Gram::new(
        "tail",
        n("S"),
        vec![
            GramProd::new(n("S"), GramSymStr::Str(vec![t("a"), n("B"), n("C")])),
            GramProd::new(n("B"), GramSymStr::Epsilon),
            GramProd::new(n("C"), GramSymStr::Str(vec![n("B")])),
            GramProd::new(n("C"), GramSymStr::Str(vec![t("c")])),
        ],
    )
    .unwrap();
    let p = LL1Parser::new(g).unwrap();
    let tree = p.parse(vec![tok("a", 0)]).unwrap();
    assert_eq!(tree.elem_syms(), vec![t("a")]);
    let tree = p.parse(vec![tok("a", 0), tok("c", 1)]).unwrap();
    assert_eq!(tree.elem_syms(), vec![t("a"), n("C")]);
}

#[test]
fn verbosity_is_kept() {
    let g = Gram::new("g", n("S"), vec![GramProd::new(n("S"), GramSymStr::Epsilon)]).unwrap();
    let p = LL1Parser::with_verbose(g, VerboseLv::V2).unwrap();
    assert_eq!(p.verbose(), VerboseLv::V2);
    assert!(VerboseLv::V0 < VerboseLv::V1);
    assert_eq!(p.gram().name(), "g");
    let g = Gram::new("h", n("S"), vec![]).unwrap();
    assert_eq!(LL1Parser::new(g).unwrap().verbose(), VerboseLv::V0);
}

#[test]
fn empty_subtrees_are_opened_before_a_token() {
    let both = |lhs: &str, sym: &str| {
        GramProd::new(n(lhs), GramSymStr::Str(vec![n(sym), n(sym)]))
    };
    let g = Gram::new(
        "hollow",
        n("S"),
        vec![
            GramProd::new(n("S"), GramSymStr::Str(vec![n("A"), n("A"), t("x")])),
            both("A", "B"),
            both("B", "C"),
            GramProd::new(n("C"), GramSymStr::Epsilon),
        ],
    )
    .unwrap();
    let p = LL1Parser::new(g).unwrap();
    let tree = p.parse(vec![tok("x", 0)]).unwrap();
    assert_eq!(tree.elem_syms(), vec![n("A"), n("A"), t("x")]);
    let a = tree.get_elem(&n("A")).unwrap().get_ast().unwrap();
    assert_eq!(a.elem_syms(), vec![n("B"), n("B")]);
    assert_eq!(a.get_elem(&n("B")).unwrap().get_ast().unwrap().len(), 0);
    assert!(matches!(
        p.parse(vec![tok("x", 0), tok("x", 1)]),
        Err(ParseError::TokensRemain { at: 1 })
    ));
}

#[test]
fn long_nesting_parses() {
    let g = Gram::new(
        "anbn",
        n("S"),
        vec![
            GramProd::new(n("S"), GramSymStr::Str(vec![t("a"), n("S"), t("b")])),
            GramProd::new(n("S"), GramSymStr::Epsilon),
        ],
    )
    .unwrap();
    let p = LL1Parser::new(g).unwrap();
    let mut tokens = Vec::new();
    for i in 0..400 {
        tokens.push(tok("a", i));
    }
    for i in 400..800 {
        tokens.push(tok("b", i));
    }
    let tree = p.parse(tokens).unwrap();
    let mut depth = 0;
    let mut node = &tree;
    while let Some(inner) = node.get_elem(&n("S")) {
        node = inner.get_ast().unwrap();
        depth += 1;
    }
    assert_eq!(depth, 399);
    assert_eq!(node.elem_syms(), vec![t("a"), t("b")]);
}
