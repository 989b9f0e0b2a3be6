use ll1_parser::ast::{ASTNode, AST};
use ll1_parser::error::ParseError;
use ll1_parser::gram::{Gram, GramProd, GramSym, GramSymStr};
use ll1_parser::parser::LL1Parser;
use ll1_parser::predict::PredSetSym;
use ll1_parser::token::{SrcLoc, Token};

fn t(name: &str) -> GramSym {
    GramSym::Terminal(name.to_string())
}

fn n(name: &str) -> GramSym {
    GramSym::NonTerminal(name.to_string())
}

fn prod(lhs: &str, rhs: Vec<GramSym>) -> GramProd {
    GramProd::new(n(lhs), GramSymStr::Str(rhs))
}

fn eps(lhs: &str) -> GramProd {
    GramProd::new(n(lhs), GramSymStr::Epsilon)
}

fn toks(names: &[&str]) -> Vec<Token> {
    let mut v = Vec::new();
    for (i, name) in names.iter().enumerate() {
        v.push(Token::new(name, name, SrcLoc::new((1, i))));
    }
    v
}

/// S -> a S b | epsilon
fn anbn() -> LL1Parser {
    let g = Gram::new(
        "anbn",
        n("S"),
        vec![prod("S", vec![t("a"), n("S"), t("b")]), eps("S")],
    )
    .unwrap();
    LL1Parser::new(g).unwrap()
}

/// E -> T E2; E2 -> + T E2 | epsilon; T -> id | ( E )
fn sums() -> LL1Parser {
    let g = Gram::new(
        "sums",
        n("E"),
        vec![
            prod("E", vec![n("T"), n("E2")]),
            prod("E2", vec![t("+"), n("T"), n("E2")]),
            eps("E2"),
            prod("T", vec![t("id")]),
            prod("T", vec![t("("), n("E"), t(")")]),
        ],
    )
    .unwrap();
    LL1Parser::new(g).unwrap()
}

fn leaf_names(ast: &AST, out: &mut Vec<String>) {
    for pair in ast.elems_vec() {
        match &pair.1 {
            ASTNode::Leaf(tok) => out.push(tok.name().to_string()),
            ASTNode::Tree(sub) => leaf_names(sub, out),
        }
    }
}

fn depth(ast: &AST) -> usize {
    let mut d = 0;
    for pair in ast.elems_vec() {
        if let ASTNode::Tree(sub) = &pair.1 {
            d = d.max(depth(sub));
        }
    }
    d + 1
}

#[test]
fn nested_pairs_parse_to_two_nested_nodes() {
    let p = anbn();
    let tree = p.parse(toks(&["a", "a", "b", "b"])).unwrap();
    assert_eq!(*tree.sym(), n("S"));
    assert_eq!(tree.elem_syms(), vec![t("a"), n("S"), t("b")]);
    assert_eq!(depth(&tree), 2);
    let inner = tree.get_elem(&n("S")).unwrap().get_ast().unwrap();
    assert_eq!(inner.elem_syms(), vec![t("a"), t("b")]);
    let mut names = Vec::new();
    leaf_names(&tree, &mut names);
    assert_eq!(names, vec!["a", "a", "b", "b"]);
}

#[test]
fn unbalanced_pairs_fail() {
    let p = anbn();
    let r = p.parse(toks(&["a", "b", "b"]));
    assert!(matches!(r, Err(ParseError::TokensRemain { at: 2 })));
}

#[test]
fn no_tokens_fail_as_empty() {
    let p = anbn();
    assert!(matches!(p.parse(Vec::new()), Err(ParseError::EmptyTokens)));
    let q = sums();
    assert!(matches!(q.parse(Vec::new()), Err(ParseError::EmptyTokens)));
}

#[test]
fn strict_prefix_is_unfinished() {
    let p = anbn();
    let r = p.parse(toks(&["a", "a", "b"]));
    match r {
        Err(ParseError::Unfinished { node, sym }) => {
            assert_eq!(node, n("S"));
            assert_eq!(sym, t("b"));
        }
        _ => panic!("expected an unfinished production"),
    }
    let q = sums();
    assert!(matches!(
        q.parse(toks(&["id", "+"])),
        Err(ParseError::Unfinished { .. })
    ));
    assert!(matches!(
        q.parse(toks(&["(", "id"])),
        Err(ParseError::Unfinished { .. })
    ));
}

#[test]
fn trailing_tokens_do_not_parse() {
    let q = sums();
    assert!(matches!(
        q.parse(toks(&["id", "id"])),
        Err(ParseError::UnexpectedDerive { .. })
    ));
    assert!(matches!(
        q.parse(toks(&["id", ")"])),
        Err(ParseError::TokensRemain { at: 1 })
    ));
}

#[test]
fn first_token_must_fit_the_start_symbol() {
    let q = sums();
    match q.parse(toks(&["+", "id"])) {
        Err(ParseError::UnexpectedRoot { token }) => assert_eq!(token.name(), "+"),
        _ => panic!("expected a root error"),
    }
}

#[test]
fn wrong_terminal_is_unmatched() {
    let q = sums();
    match q.parse(toks(&["(", "id", "id"])) {
        Err(ParseError::UnexpectedDerive { token, sym }) => {
            assert_eq!(token.name(), "id");
            assert_eq!(sym, n("E2"));
        }
        _ => panic!("expected a derive error"),
    }
    let g = Gram::new("ab", n("S"), vec![prod("S", vec![t("a"), t("b")])]).unwrap();
    let p = LL1Parser::new(g).unwrap();
    match p.parse(toks(&["a", "a"])) {
        Err(ParseError::Unmatched { token, expected }) => {
            assert_eq!(token.name(), "a");
            assert_eq!(token.loc().col, 1);
            assert_eq!(expected, t("b"));
        }
        _ => panic!("expected an unmatched token"),
    }
}

#[test]
fn sums_round_trip() {
    let q = sums();
    let input = ["(", "id", "+", "id", ")", "+", "id"];
    let tree = q.parse(toks(&input)).unwrap();
    let mut names = Vec::new();
    leaf_names(&tree, &mut names);
    assert_eq!(names, input.to_vec());
    assert_eq!(tree.elem_syms(), vec![n("T"), n("E2")]);
    let e2 = tree.get_elem(&n("E2")).unwrap().get_ast().unwrap();
    assert_eq!(e2.elem_syms(), vec![t("+"), n("T")]);
}

#[test]
fn predict_prod_finds_the_production() {
    let q = sums();
    let p = q
        .predict_prod(&n("T"), PredSetSym::Sym("(".to_string()))
        .unwrap();
    assert_eq!(*p, prod("T", vec![t("("), n("E"), t(")")]));
    let e = q.predict_prod(&n("E2"), PredSetSym::EndMarker).unwrap();
    assert_eq!(*e, eps("E2"));
    assert!(q.predict_prod(&n("T"), PredSetSym::EndMarker).is_none());
    assert!(q.predict_prod(&t("id"), PredSetSym::EndMarker).is_none());
    assert_eq!(q.name(), "sums");
}
