//! Tokens and the places in a source text that they come from.
use crate::first::FstSetSym;
use crate::follow::FollSetSym;
use crate::gram::{GramSym, SymView};
use crate::predict::PredSetSym;
use crate::theory::{FstView, Lookahead};
use vstd::prelude::*;
use vstd::string::StringExecFns;

verus! {

/// A place in a source text: a line and a column in it.
#[derive(Debug, Clone, Copy, PartialEq, Eq, Structural)]
pub struct SrcLoc {
    pub ln: usize,
    pub col: usize,
}

impl SrcLoc {
    pub fn new(loc_tuple: (usize, usize)) -> (r: Self)
        ensures
            r.ln == loc_tuple.0,
            r.col == loc_tuple.1,
    {
        Self { ln: loc_tuple.0, col: loc_tuple.1 }
    }
}

/// What a token is, as a mathematical value.
pub struct TokenView {
    pub name: Seq<char>,
    pub value: Seq<char>,
    pub loc: SrcLoc,
}

/// A token: the name of the terminal it stands for, the text it was read
/// from, and where that text stood.
#[derive(Debug)]
pub struct Token {
    name: String,
    value: String,
    loc: SrcLoc,
}

impl View for Token {
    type V = TokenView;

    closed spec fn view(&self) -> TokenView {
        TokenView { name: self.name@, value: self.value@, loc: self.loc }
    }
}

impl Clone for Token {
    fn clone(&self) -> (r: Self)
        ensures
            r@ == self@,
    {
        Token { name: self.name.clone(), value: self.value.clone(), loc: self.loc }
    }
}

impl Token {
    pub fn new(name: &str, value: &str, loc: SrcLoc) -> (r: Self)
        ensures
            r@ == (TokenView { name: name@, value: value@, loc }),
    {
        Token { name: String::from_str(name), value: String::from_str(value), loc }
    }

    pub fn name(&self) -> (r: &str)
        ensures
            r@ == self@.name,
    {
        self.name.as_str()
    }

    pub fn value(&self) -> (r: &str)
        ensures
            r@ == self@.value,
    {
        self.value.as_str()
    }

    pub fn loc(&self) -> (r: SrcLoc)
        ensures
            r == self@.loc,
    {
        self.loc
    }

    pub fn to_fst_set_sym(&self) -> (r: FstSetSym)
        ensures
            r@ == FstView::Sym(self@.name),
    {
        FstSetSym::Sym(self.name.clone())
    }

    /// The terminal that this token stands for.
    pub fn to_gram_sym(&self) -> (r: GramSym)
        ensures
            r@ == SymView::Terminal(self@.name),
    {
        GramSym::Terminal(self.name.clone())
    }

    pub fn to_pred_set_sym(&self) -> (r: PredSetSym)
        ensures
            r@ == Lookahead::Sym(self@.name),
    {
        PredSetSym::Sym(self.name.clone())
    }

    pub fn to_foll_set_sym(&self) -> (r: FollSetSym)
        ensures
            r@ == Lookahead::Sym(self@.name),
    {
        FollSetSym::Sym(self.name.clone())
    }

    /// Whether this token stands for the symbol `sym`.
    pub fn is_sym(&self, sym: &GramSym) -> (r: bool)
        ensures
            r == (sym@ == SymView::Terminal(self@.name)),
    {
        match sym {
            GramSym::Terminal(n) => *n == self.name,
            GramSym::NonTerminal(_) => false,
        }
    }
}

/// The views of a sequence of tokens, position by position.
pub open spec fn tokens_view(v: Seq<Token>) -> Seq<TokenView> {
    Seq::new(v.len(), |i: int| v[i]@)
}

} // verus!
