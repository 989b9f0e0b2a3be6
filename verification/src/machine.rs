//! The derivation as a machine over mathematical values: a stack of frames,
//! each a tree node under construction with the symbols it still waits for,
//! and a cursor into the tokens. The parser is proved to do what this
//! machine does.
use crate::ast::{NodeView, TreeView};
use crate::gram::{GramView, ProdView, SymStrView, SymView};
use crate::rank::{lemma_join_costs, lemma_pass_costs, lemma_push_costs, stack_phi};
use crate::theory::{Lookahead, conflict, lemma_entry, lemma_eps_entry_nullable, predict_table};
use crate::token::TokenView;
use vstd::prelude::*;

verus! {

/// A frame of the derivation stack.
pub struct FrameView {
    pub node: TreeView,
    pub pending: Seq<SymView>,
}

/// Why a parse failed, as a mathematical value.
pub enum ParseErrorView {
    EmptyTokens,
    UnexpectedRoot { token: TokenView },
    Unmatched { token: TokenView, expected: SymView },
    UnexpectedDerive { token: TokenView, sym: SymView },
    Unfinished { node: SymView, sym: SymView },
    TokensRemain { at: nat },
}

/// What one step of the derivation leads to: the end, or the next state.
pub enum Step {
    Done(Result<TreeView, ParseErrorView>),
    Go { below: Seq<FrameView>, top: FrameView, i: nat },
}

/// One step of the derivation, from the state with the frames `below` under
/// the frame `top` and the cursor at `i`.
///
/// - A frame that waits for nothing is complete. The root frame ends the
///   parse: with its tree when the cursor stands behind the last token,
///   `TokensRemain` otherwise. Any other frame's tree becomes the next child
///   of the frame below.
/// - With no token left, the next symbol must have a table entry under the
///   end mark; it is then passed over.
/// - A terminal must be the token under the cursor, which becomes a leaf.
/// - A nonterminal is expanded by the table's production for it and the
///   token under the cursor: the empty production passes it over, any other
///   opens a subtree in a frame of its own.
pub open spec fn step(
    g: GramView,
    toks: Seq<TokenView>,
    below: Seq<FrameView>,
    top: FrameView,
    i: nat,
) -> Step {
    let table = predict_table(g);
    if top.pending.len() == 0 {
        if below.len() == 0 {
            if i >= toks.len() {
                Step::Done(Ok(top.node))
            } else {
                Step::Done(Err(ParseErrorView::TokensRemain { at: i }))
            }
        } else {
            let parent = below.last();
            let joined = FrameView {
                node: parent.node.with_kid((top.node.sym, NodeView::Tree(top.node))),
                pending: parent.pending,
            };
            Step::Go { below: below.drop_last(), top: joined, i }
        }
    } else {
        let s = top.pending[0];
        let rest = FrameView { node: top.node, pending: top.pending.drop_first() };
        if i >= toks.len() {
            if table.dom().contains((s, Lookahead::EndMarker)) {
                Step::Go { below, top: rest, i }
            } else {
                Step::Done(Err(ParseErrorView::Unfinished { node: top.node.sym, sym: s }))
            }
        } else if s is Terminal {
            if s == SymView::Terminal(toks[i as int].name) {
                let fed = FrameView {
                    node: top.node.with_kid((s, NodeView::Leaf(toks[i as int]))),
                    pending: rest.pending,
                };
                Step::Go { below, top: fed, i: i + 1 }
            } else {
                Step::Done(Err(ParseErrorView::Unmatched { token: toks[i as int], expected: s }))
            }
        } else {
            let key = (s, Lookahead::Sym(toks[i as int].name));
            if !table.dom().contains(key) {
                Step::Done(Err(ParseErrorView::UnexpectedDerive { token: toks[i as int], sym: s }))
            } else {
                match table[key].rhs {
                    SymStrView::Epsilon => Step::Go { below, top: rest, i },
                    SymStrView::Str(v) => Step::Go {
                        below: below.push(rest),
                        top: FrameView { node: TreeView::bare(s), pending: v },
                        i,
                    },
                }
            }
        }
    }
}

/// The work that the frames below the top one still stand for: a unit for
/// each frame and for each symbol it waits for.
pub open spec fn weight(below: Seq<FrameView>) -> nat
    decreases below.len(),
{
    if below.len() == 0 {
        0
    } else {
        weight(below.drop_last()) + below.last().pending.len() + 1
    }
}

/// What the symbols that can be reached before the token under the cursor
/// is read may cost; nothing when no token is left.
pub open spec fn potential(
    g: GramView,
    toks: Seq<TokenView>,
    first: bool,
    below: Seq<FrameView>,
    top: FrameView,
    i: nat,
) -> nat {
    if i < toks.len() {
        stack_phi(g, toks[i as int].name, first, below.push(top))
    } else {
        0
    }
}

/// The second state is nearer to the end than the first, the cursor being
/// where it was: its costs are lower, or else as high with less work
/// waiting.
pub open spec fn nearer(
    g: GramView,
    toks: Seq<TokenView>,
    i: nat,
    below: Seq<FrameView>,
    top: FrameView,
    below2: Seq<FrameView>,
    top2: FrameView,
) -> bool {
    let a1 = potential(g, toks, true, below, top, i);
    let a2 = potential(g, toks, false, below, top, i);
    let a3 = weight(below) + top.pending.len();
    let b1 = potential(g, toks, true, below2, top2, i);
    let b2 = potential(g, toks, false, below2, top2, i);
    let b3 = weight(below2) + top2.pending.len();
    b1 < a1 || (b1 == a1 && (b2 < a2 || (b2 == a2 && b3 < a3)))
}

/// For a grammar without collisions, each step reads a token or leads to a
/// state that is nearer to the end.
pub proof fn lemma_step_decreases(
    g: GramView,
    toks: Seq<TokenView>,
    below: Seq<FrameView>,
    top: FrameView,
    i: nat,
)
    requires
        g.well_formed(),
        !conflict(g),
    ensures
        step(g, toks, below, top, i) matches Step::Go { below: below2, top: top2, i: i2 } ==> (i
            < i2 <= toks.len()) || (i2 == i && nearer(g, toks, i, below, top, below2, top2)),
{
    let table = predict_table(g);
    if top.pending.len() == 0 {
        if below.len() > 0 {
            let parent = below.last();
            let joined = FrameView {
                node: parent.node.with_kid((top.node.sym, NodeView::Tree(top.node))),
                pending: parent.pending,
            };
            if i < toks.len() {
                let t = toks[i as int].name;
                lemma_join_costs(g, t, true, below, top, joined);
                lemma_join_costs(g, t, false, below, top, joined);
            }
        }
    } else {
        let s = top.pending[0];
        let rest = FrameView { node: top.node, pending: top.pending.drop_first() };
        if i < toks.len() && !(s is Terminal) {
            let t = toks[i as int].name;
            let key = (s, Lookahead::Sym(t));
            if table.dom().contains(key) {
                match table[key].rhs {
                    SymStrView::Epsilon => {
                        lemma_eps_entry_nullable(g, s, key.1);
                        lemma_pass_costs(g, t, true, below, top);
                        lemma_pass_costs(g, t, false, below, top);
                    },
                    SymStrView::Str(v) => {
                        let k = lemma_entry(g, s, key.1);
                        let opened = FrameView { node: TreeView::bare(s), pending: v };
                        lemma_push_costs(g, t, below, top, opened, k);
                    },
                }
            }
        }
    }
}

/// What the derivation ends in, from the state with the frames `below` under
/// the frame `top` and the cursor at `i`: what the step that ends it gives.
pub open spec fn run(
    g: GramView,
    toks: Seq<TokenView>,
    below: Seq<FrameView>,
    top: FrameView,
    i: nat,
) -> Result<TreeView, ParseErrorView>
    decreases
            toks.len() - i,
            potential(g, toks, true, below, top, i),
            potential(g, toks, false, below, top, i),
            weight(below) + top.pending.len(),
    when g.well_formed() && !conflict(g)
{
    match step(g, toks, below, top, i) {
        Step::Done(r) => r,
        Step::Go { below: below2, top: top2, i: i2 } => {
            proof {
                lemma_step_decreases(g, toks, below, top, i);
            }
            run(g, toks, below2, top2, i2)
        },
    }
}

/// The number of steps that the derivation takes to its end.
pub open spec fn steps(
    g: GramView,
    toks: Seq<TokenView>,
    below: Seq<FrameView>,
    top: FrameView,
    i: nat,
) -> nat
    decreases
            toks.len() - i,
            potential(g, toks, true, below, top, i),
            potential(g, toks, false, below, top, i),
            weight(below) + top.pending.len(),
    when g.well_formed() && !conflict(g)
{
    match step(g, toks, below, top, i) {
        Step::Done(r) => 0,
        Step::Go { below: below2, top: top2, i: i2 } => {
            proof {
                lemma_step_decreases(g, toks, below, top, i);
            }
            1 + steps(g, toks, below2, top2, i2)
        },
    }
}

/// What parsing `toks` by the grammar `g` gives.
///
/// No token at all is `EmptyTokens`. The start symbol must have a table entry
/// under the first token, else `UnexpectedRoot`. The derivation then starts
/// from the root frame, which waits for the right-hand side of that entry.
pub open spec fn parse_spec(g: GramView, toks: Seq<TokenView>) -> Result<TreeView, ParseErrorView> {
    if toks.len() == 0 {
        Err(ParseErrorView::EmptyTokens)
    } else {
        let table = predict_table(g);
        let key = (g.start, Lookahead::Sym(toks[0].name));
        if !table.dom().contains(key) {
            Err(ParseErrorView::UnexpectedRoot { token: toks[0] })
        } else {
            let root = FrameView { node: TreeView::bare(g.start), pending: table[key].rhs.syms() };
            run(g, toks, Seq::empty(), root, 0)
        }
    }
}

} // verus!
