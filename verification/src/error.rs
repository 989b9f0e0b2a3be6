//! Diagnostics: a failure with a message, and the kinds of failure that carry
//! more than a message.
use crate::gram::GramSym;
use crate::machine::ParseErrorView;
use crate::token::Token;
use vstd::prelude::*;
use vstd::string::StringExecFns;

verus! {

/// A failure that carries a message for a person to read.
#[derive(Debug, Clone, PartialEq, Eq)]
pub struct Trap {
    msg: String,
}

impl View for Trap {
    type V = Seq<char>;

    closed spec fn view(&self) -> Seq<char> {
        self.msg@
    }
}

impl Trap {
    pub fn new_box_err(msg: &str) -> (r: Box<Trap>)
        ensures
            r@ == msg@,
    {
        Box::new(Self::new(msg))
    }

    pub fn new(msg: &str) -> (r: Self)
        ensures
            r@ == msg@,
    {
        Self { msg: String::from_str(msg) }
    }

    /// The message.
    pub fn msg(&self) -> (r: &str)
        ensures
            r@ == self@,
    {
        self.msg.as_str()
    }
}

/// What a failure with a kind is, as a mathematical value.
pub enum TrapCodeView {
    AmbigousLLRule(Seq<char>),
}

/// A failure with a kind.
#[derive(Debug, Clone, PartialEq, Eq)]
pub enum TrapCode {
    /// The grammar is not LL(1): the rule written out here asks for a table
    /// slot that a different rule holds.
    AmbigousLLRule(String),
}

impl View for TrapCode {
    type V = TrapCodeView;

    open spec fn view(&self) -> TrapCodeView {
        match self {
            TrapCode::AmbigousLLRule(s) => TrapCodeView::AmbigousLLRule(s@),
        }
    }
}

impl TrapCode {
    /// The message of this failure, as a failure of its own.
    pub fn emit_box_err(&self) -> (r: Box<Trap>)
        ensures
            self@ matches TrapCodeView::AmbigousLLRule(m) && r@ == m,
    {
        match self {
            Self::AmbigousLLRule(msg) => Trap::new_box_err(msg.as_str()),
        }
    }
}

/// Why a parse failed.
#[derive(Debug)]
pub enum ParseError {
    /// There was no token at all.
    EmptyTokens,
    /// No production of the start symbol can begin with the first token.
    UnexpectedRoot { token: Token },
    /// The derivation asks for the terminal `expected` where `token` stands.
    Unmatched { token: Token, expected: GramSym },
    /// No production of `sym` can begin with `token`.
    UnexpectedDerive { token: Token, sym: GramSym },
    /// The tokens ended while the node for `node` still waited for `sym`,
    /// which cannot be left out.
    Unfinished { node: GramSym, sym: GramSym },
    /// The derivation was complete with the tokens from position `at` on
    /// still unread.
    TokensRemain { at: usize },
}

impl View for ParseError {
    type V = ParseErrorView;

    open spec fn view(&self) -> ParseErrorView {
        match self {
            ParseError::EmptyTokens => ParseErrorView::EmptyTokens,
            ParseError::UnexpectedRoot { token } => ParseErrorView::UnexpectedRoot { token: token@ },
            ParseError::Unmatched { token, expected } => ParseErrorView::Unmatched {
                token: token@,
                expected: expected@,
            },
            ParseError::UnexpectedDerive { token, sym } => ParseErrorView::UnexpectedDerive {
                token: token@,
                sym: sym@,
            },
            ParseError::Unfinished { node, sym } => ParseErrorView::Unfinished {
                node: node@,
                sym: sym@,
            },
            ParseError::TokensRemain { at } => ParseErrorView::TokensRemain { at: *at as nat },
        }
    }
}

} // verus!
