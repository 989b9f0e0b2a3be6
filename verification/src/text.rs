//! How values are written out for a person to read.
use crate::ast::{NodeView, TreeView};
use crate::error::ParseError;
use crate::gram::SymView;
use crate::machine::ParseErrorView;
use crate::token::{SrcLoc, Token, TokenView};
use vstd::prelude::*;
use vstd::string::StringExecFns;

verus! {

/// The character of a decimal digit.
pub open spec fn digit_char(d: nat) -> char {
    if d == 0 {
        '0'
    } else if d == 1 {
        '1'
    } else if d == 2 {
        '2'
    } else if d == 3 {
        '3'
    } else if d == 4 {
        '4'
    } else if d == 5 {
        '5'
    } else if d == 6 {
        '6'
    } else if d == 7 {
        '7'
    } else if d == 8 {
        '8'
    } else {
        '9'
    }
}

/// A number in decimal digits, without leading zeros.
pub open spec fn decimal_text(n: nat) -> Seq<char>
    decreases n,
{
    if n < 10 {
        seq![digit_char(n)]
    } else {
        decimal_text(n / 10).push(digit_char(n % 10))
    }
}

fn digit_str(d: usize) -> (r: &'static str)
    requires
        d < 10,
    ensures
        r@ == seq![digit_char(d as nat)],
{
    proof {
        reveal_strlit("0");
        reveal_strlit("1");
        reveal_strlit("2");
        reveal_strlit("3");
        reveal_strlit("4");
        reveal_strlit("5");
        reveal_strlit("6");
        reveal_strlit("7");
        reveal_strlit("8");
        reveal_strlit("9");
    }
    let r = if d == 0 {
        "0"
    } else if d == 1 {
        "1"
    } else if d == 2 {
        "2"
    } else if d == 3 {
        "3"
    } else if d == 4 {
        "4"
    } else if d == 5 {
        "5"
    } else if d == 6 {
        "6"
    } else if d == 7 {
        "7"
    } else if d == 8 {
        "8"
    } else {
        "9"
    };
    assert(r@ =~= seq![digit_char(d as nat)]);
    r
}

/// Writes a number in decimal digits.
pub fn decimal(n: usize) -> (r: String)
    ensures
        r@ == decimal_text(n as nat),
    decreases n,
{
    if n < 10 {
        String::from_str(digit_str(n))
    } else {
        let mut s = decimal(n / 10);
        s.append(digit_str(n % 10));
        assert(s@ =~= decimal_text((n / 10) as nat).push(digit_char((n % 10) as nat)));
        s
    }
}

/// Two spaces for each level of a tree.
pub open spec fn pad_text(level: nat) -> Seq<char>
    decreases level,
{
    if level == 0 {
        Seq::empty()
    } else {
        pad_text((level - 1) as nat) + "  "@
    }
}

fn padding(level: usize) -> (r: String)
    ensures
        r@ == pad_text(level as nat),
{
    let mut s = String::new();
    let mut l: usize = 0;
    while l < level
        invariant
            l <= level,
            s@ == pad_text(l as nat),
        decreases level - l,
    {
        s.append("  ");
        l += 1;
    }
    s
}

/// A place as it is written: `(line, column)`.
pub open spec fn loc_text(loc: SrcLoc) -> Seq<char> {
    "("@ + decimal_text(loc.ln as nat) + ", "@ + decimal_text(loc.col as nat) + ")"@
}

/// A token as it is written: its name, its text and its place.
pub open spec fn token_text(t: TokenView) -> Seq<char> {
    t.name + ": "@ + t.value + " "@ + loc_text(t.loc)
}

/// The level below `level`, which stays where it is when it cannot be counted
/// further.
pub open spec fn next_level(level: usize) -> usize {
    if level < usize::MAX {
        (level + 1) as usize
    } else {
        level
    }
}

/// The head of a line of a dumped tree: the padding and the level in
/// brackets.
pub open spec fn line_head(level: usize) -> Seq<char> {
    pad_text(level as nat) + "("@ + decimal_text(level as nat) + ")"@
}

/// A child of a tree node as it is dumped at `level`: a token on one line, a
/// subtree on as many as it takes.
pub open spec fn node_text(n: NodeView, level: usize) -> Seq<char>
    decreases n,
{
    match n {
        NodeView::Leaf(t) => line_head(level) + token_text(t) + "\n"@,
        NodeView::Tree(t) => tree_text(t, level),
    }
}

/// A tree as it is dumped at `level`: a line with its symbol, then its
/// children one level below.
pub open spec fn tree_text(t: TreeView, level: usize) -> Seq<char>
    decreases t,
{
    line_head(level) + t.sym.name() + ": \n"@ + kids_text(t.kids, next_level(level))
}

pub open spec fn kids_text(kids: Seq<(SymView, NodeView)>, level: usize) -> Seq<char>
    decreases kids,
{
    if kids.len() == 0 {
        Seq::empty()
    } else {
        kids_text(kids.drop_last(), level) + node_text(kids.last().1, level)
    }
}

pub(crate) fn head(level: usize) -> (r: String)
    ensures
        r@ == line_head(level),
{
    let mut s = padding(level);
    s.append("(");
    let d = decimal(level);
    s.append(d.as_str());
    s.append(")");
    s
}

impl SrcLoc {
    /// The place as it is written: `(line, column)`.
    pub fn text(&self) -> (r: String)
        ensures
            r@ == loc_text(*self),
    {
        let mut s = String::from_str("(");
        let ln = decimal(self.ln);
        s.append(ln.as_str());
        s.append(", ");
        let col = decimal(self.col);
        s.append(col.as_str());
        s.append(")");
        s
    }
}

impl Token {
    /// The token as it is written: its name, its text and its place.
    pub fn text(&self) -> (r: String)
        ensures
            r@ == token_text(self@),
    {
        let mut s = String::from_str(self.name());
        s.append(": ");
        s.append(self.value());
        s.append(" ");
        let loc = self.loc().text();
        s.append(loc.as_str());
        s
    }
}

/// A failed parse as it is reported.
pub open spec fn message_text(e: ParseErrorView) -> Seq<char> {
    match e {
        ParseErrorView::EmptyTokens => "empty tokens"@,
        ParseErrorView::UnexpectedRoot { token } => "Unexpected token: `"@ + token_text(token)
            + "` for root grammar"@,
        ParseErrorView::Unmatched { token, expected } => "Unmatched token "@ + token_text(token)
            + ", a "@ + expected.name() + " expected"@,
        ParseErrorView::UnexpectedDerive { token, sym } => "Unexpected token "@ + token_text(token)
            + " for derive "@ + sym.name(),
        ParseErrorView::Unfinished { node, sym } => "Unfinished production: "@ + node.name()
            + " still waits for "@ + sym.name(),
        ParseErrorView::TokensRemain { at } => "Tokens remain from position "@ + decimal_text(at),
    }
}

impl ParseError {
    /// The failure as it is reported.
    pub fn message(&self) -> (r: String)
        ensures
            r@ == message_text(self@),
    {
        match self {
            ParseError::EmptyTokens => String::from_str("empty tokens"),
            ParseError::UnexpectedRoot { token } => {
                let mut s = String::from_str("Unexpected token: `");
                let t = token.text();
                s.append(t.as_str());
                s.append("` for root grammar");
                s
            },
            ParseError::Unmatched { token, expected } => {
                let mut s = String::from_str("Unmatched token ");
                let t = token.text();
                s.append(t.as_str());
                s.append(", a ");
                s.append(expected.name().as_str());
                s.append(" expected");
                s
            },
            ParseError::UnexpectedDerive { token, sym } => {
                let mut s = String::from_str("Unexpected token ");
                let t = token.text();
                s.append(t.as_str());
                s.append(" for derive ");
                s.append(sym.name().as_str());
                s
            },
            ParseError::Unfinished { node, sym } => {
                let mut s = String::from_str("Unfinished production: ");
                s.append(node.name().as_str());
                s.append(" still waits for ");
                s.append(sym.name().as_str());
                s
            },
            ParseError::TokensRemain { at } => {
                let mut s = String::from_str("Tokens remain from position ");
                let d = decimal(*at);
                s.append(d.as_str());
                s
            },
        }
    }
}

} // verus!
