use ll1_parser::source::SrcFileInfo;
use ll1_parser::token::{SrcLoc, Token};
use std::path::PathBuf;

#[test]
fn lines_start_behind_line_feeds() {
    assert_eq!(SrcFileInfo::build_lines(""), vec![0]);
    assert_eq!(SrcFileInfo::build_lines("abc"), vec![0]);
    assert_eq!(SrcFileInfo::build_lines("ab\ncd\n"), vec![0, 3, 6]);
    assert_eq!(SrcFileInfo::build_lines("\n\nx"), vec![0, 1, 2]);
    assert_eq!(SrcFileInfo::build_lines("\u{e9}\u{4e2d}\nz"), vec![0, 3]);
}

#[test]
fn offsets_map_to_line_and_column() {
    let src = SrcFileInfo::from_source(PathBuf::from("a.txt"), "ab\ncde\n\nf".to_string());
    let at = |o: usize| {
        let loc = src.offset2srcloc(o);
        (loc.ln, loc.col)
    };
    assert_eq!(at(0), (1, 0));
    assert_eq!(at(1), (1, 1));
    assert_eq!(at(2), (1, 2));
    assert_eq!(at(3), (2, 0));
    assert_eq!(at(5), (2, 2));
    assert_eq!(at(6), (2, 3));
    assert_eq!(at(7), (3, 0));
    assert_eq!(at(8), (4, 0));
    assert_eq!(at(9), (4, 1));
    assert_eq!(at(100), (4, 92));
    assert_eq!(src.get_srcstr(), "ab\ncde\n\nf");
    assert_eq!(*src.get_path(), PathBuf::from("a.txt"));
}

#[test]
fn one_line_has_every_offset() {
    let src = SrcFileInfo::from_source(PathBuf::from("one"), "hello".to_string());
    assert_eq!(src.offset2srcloc(0), SrcLoc::new((1, 0)));
    assert_eq!(src.offset2srcloc(4), SrcLoc::new((1, 4)));
    let empty = SrcFileInfo::from_source(PathBuf::new(), String::new());
    assert_eq!(empty.offset2srcloc(0), SrcLoc::new((1, 0)));
}

#[test]
fn tokens_know_their_symbols() {
    let tok = Token::new("id", "x1", SrcLoc::new((3, 4)));
    assert_eq!(tok.name(), "id");
    assert_eq!(tok.value(), "x1");
    assert_eq!(tok.loc(), SrcLoc { ln: 3, col: 4 });
    assert_eq!(
        tok.to_gram_sym(),
        ll1_parser::gram::GramSym::Terminal("id".to_string())
    );
    assert_eq!(
        tok.to_fst_set_sym(),
        ll1_parser::first::FstSetSym::Sym("id".to_string())
    );
    assert_eq!(
        tok.to_foll_set_sym(),
        ll1_parser::follow::FollSetSym::Sym("id".to_string())
    );
    assert_eq!(
        tok.to_pred_set_sym(),
        ll1_parser::predict::PredSetSym::Sym("id".to_string())
    );
    assert!(tok.is_sym(&ll1_parser::gram::GramSym::Terminal("id".to_string())));
    assert!(!tok.is_sym(&ll1_parser::gram::GramSym::NonTerminal("id".to_string())));
    let copy = tok.clone();
    assert_eq!(copy.value(), "x1");
    assert_eq!(tok.text(), "id: x1 (3, 4)");
    assert_eq!(SrcLoc::new((10, 205)).text(), "(10, 205)");
}
