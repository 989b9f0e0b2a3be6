//! What a tree that the parser gives is worth: its leaves are the tokens, in
//! order, and each of its nodes is an instance of a production of the
//! grammar, less the symbols that derived the empty string.
use crate::ast::{NodeView, TreeView};
use crate::gram::{GramView, SymStrView, SymView};
use crate::machine::{FrameView, parse_spec, run, steps};
use crate::theory::{
    Lookahead, claims, conflict, lemma_end_entry_nullable, lemma_entry, lemma_eps_entry_nullable,
    lemma_nullable_intro, nullable, predict_table, predicted, seq_nullable,
};
use crate::token::TokenView;
use vstd::prelude::*;

verus! {

/// `ks` is `alpha` with some symbols that can vanish left out.
pub open spec fn thins(g: GramView, alpha: Seq<SymView>, ks: Seq<SymView>) -> bool
    decreases alpha.len(),
{
    if alpha.len() == 0 {
        ks.len() == 0
    } else {
        ||| (ks.len() > 0 && ks.last() == alpha.last() && thins(
            g,
            alpha.drop_last(),
            ks.drop_last(),
        ))
        ||| (nullable(g, alpha.last()) && thins(g, alpha.drop_last(), ks))
    }
}

/// The tokens at the leaves of a tree, from left to right.
pub open spec fn leaves(t: TreeView) -> Seq<TokenView>
    decreases t,
{
    leaves_of(t.kids)
}

pub open spec fn leaves_of(kids: Seq<(SymView, NodeView)>) -> Seq<TokenView>
    decreases kids,
{
    if kids.len() == 0 {
        Seq::empty()
    } else {
        leaves_of(kids.drop_last()) + (match kids.last().1 {
            NodeView::Leaf(tok) => seq![tok],
            NodeView::Tree(sub) => leaves(sub),
        })
    }
}

/// The tree is built by the grammar: the children of each node are the right
/// side of a production of the node's symbol, less symbols that can vanish; a
/// leaf stands for the terminal that its token names; a subtree stands for
/// its own symbol.
pub open spec fn valid_tree(g: GramView, t: TreeView) -> bool
    decreases t,
{
    &&& exists|k: int|
        0 <= k < g.prods.len() && #[trigger] g.lhs(k) == t.sym && thins(g, g.rhs(k), t.kid_syms())
    &&& valid_kids(g, t.kids)
}

pub open spec fn valid_kids(g: GramView, kids: Seq<(SymView, NodeView)>) -> bool
    decreases kids,
{
    kids.len() == 0 || (valid_kids(g, kids.drop_last()) && (match kids.last().1 {
        NodeView::Leaf(tok) => kids.last().0 == SymView::Terminal(tok.name),
        NodeView::Tree(sub) => kids.last().0 == sub.sym && valid_tree(g, sub),
    }))
}

/// The frame's node is an instance of production `k` as far as position `d`,
/// and waits for the rest of it.
pub open spec fn fits(g: GramView, f: FrameView, k: int, d: int) -> bool {
    &&& g.lhs(k) == f.node.sym
    &&& f.pending == g.rhs(k).skip(d)
    &&& thins(g, g.rhs(k).take(d), f.node.kid_syms())
}

/// The top frame is in order.
pub open spec fn open_ok(g: GramView, f: FrameView) -> bool {
    &&& valid_kids(g, f.node.kids)
    &&& exists|k: int, d: int|
        0 <= k < g.prods.len() && 0 <= d <= g.rhs(k).len() && #[trigger] fits(g, f, k, d)
}

/// The frame's node is an instance of production `k` as far as position `d`,
/// where the symbol `child` stands, whose subtree is being built above; the
/// frame waits for what comes after `child`.
pub open spec fn waits(g: GramView, f: FrameView, k: int, d: int, child: SymView) -> bool {
    &&& g.lhs(k) == f.node.sym
    &&& g.rhs(k)[d] == child
    &&& f.pending == g.rhs(k).skip(d + 1)
    &&& thins(g, g.rhs(k).take(d), f.node.kid_syms())
}

pub open spec fn waiting_ok(g: GramView, f: FrameView, child: SymView) -> bool {
    &&& valid_kids(g, f.node.kids)
    &&& exists|k: int, d: int|
        0 <= k < g.prods.len() && 0 <= d < g.rhs(k).len() && #[trigger] waits(g, f, k, d, child)
}

/// Every frame below the top is in order, each waiting for the one above.
pub open spec fn stack_ok(g: GramView, below: Seq<FrameView>, child: SymView) -> bool
    decreases below.len(),
{
    below.len() == 0 || (waiting_ok(g, below.last(), child) && stack_ok(
        g,
        below.drop_last(),
        below.last().node.sym,
    ))
}

/// The tokens at the leaves of the frames' nodes, from the bottom frame up.
pub open spec fn yield_of(below: Seq<FrameView>) -> Seq<TokenView>
    decreases below.len(),
{
    if below.len() == 0 {
        Seq::empty()
    } else {
        yield_of(below.drop_last()) + leaves(below.last().node)
    }
}

/// The symbol of the bottom frame's node.
pub open spec fn root_sym(below: Seq<FrameView>, top: FrameView) -> SymView {
    if below.len() == 0 {
        top.node.sym
    } else {
        below[0].node.sym
    }
}

/// The state of a derivation is in order: the frames are, and their leaves
/// are the tokens before the cursor.
pub open spec fn state_ok(
    g: GramView,
    toks: Seq<TokenView>,
    below: Seq<FrameView>,
    top: FrameView,
    i: nat,
) -> bool {
    &&& i <= toks.len()
    &&& yield_of(below) + leaves(top.node) == toks.take(i as int)
    &&& open_ok(g, top)
    &&& stack_ok(g, below, top.node.sym)
}

pub proof fn lemma_kid_syms_push(t: TreeView, kid: (SymView, NodeView))
    ensures
        t.with_kid(kid).kid_syms() == t.kid_syms().push(kid.0),
        t.with_kid(kid).kids.drop_last() == t.kids,
        t.with_kid(kid).kids.last() == kid,
{
    assert(t.with_kid(kid).kid_syms() =~= t.kid_syms().push(kid.0));
    assert(t.with_kid(kid).kids.drop_last() =~= t.kids);
}

/// A frame that waits for nothing holds a tree built by the grammar.
pub proof fn lemma_complete(g: GramView, f: FrameView)
    requires
        open_ok(g, f),
        f.pending.len() == 0,
    ensures
        valid_tree(g, f.node),
{
    let (k, d) = choose|k: int, d: int|
        0 <= k < g.prods.len() && 0 <= d <= g.rhs(k).len() && #[trigger] fits(g, f, k, d);
    assert(g.rhs(k).skip(d).len() == 0);
    assert(g.rhs(k).take(d) =~= g.rhs(k));
    assert(g.lhs(k) == f.node.sym && thins(g, g.rhs(k), f.node.kid_syms()));
}

/// Passing over a symbol that can vanish keeps the top frame in order.
pub proof fn lemma_pass(g: GramView, f: FrameView) -> (rest: FrameView)
    requires
        open_ok(g, f),
        f.pending.len() > 0,
        nullable(g, f.pending[0]),
    ensures
        rest == (FrameView { node: f.node, pending: f.pending.drop_first() }),
        open_ok(g, rest),
{
    let rest = FrameView { node: f.node, pending: f.pending.drop_first() };
    let (k, d) = choose|k: int, d: int|
        0 <= k < g.prods.len() && 0 <= d <= g.rhs(k).len() && #[trigger] fits(g, f, k, d);
    let rhs = g.rhs(k);
    assert(d < rhs.len());
    assert(f.pending[0] == rhs[d]);
    assert(rest.pending =~= rhs.skip(d + 1));
    assert(rhs.take(d + 1).drop_last() =~= rhs.take(d));
    assert(rhs.take(d + 1).last() == rhs[d]);
    assert(thins(g, rhs.take(d + 1), f.node.kid_syms()));
    assert(fits(g, rest, k, d + 1));
    rest
}

/// Giving the top frame's node the child that its next symbol asks for keeps
/// the frame in order.
pub proof fn lemma_grow(g: GramView, f: FrameView, kid: (SymView, NodeView)) -> (grown: FrameView)
    requires
        open_ok(g, f),
        f.pending.len() > 0,
        kid.0 == f.pending[0],
        match kid.1 {
            NodeView::Leaf(tok) => kid.0 == SymView::Terminal(tok.name),
            NodeView::Tree(sub) => kid.0 == sub.sym && valid_tree(g, sub),
        },
    ensures
        grown == (FrameView { node: f.node.with_kid(kid), pending: f.pending.drop_first() }),
        open_ok(g, grown),
        leaves(grown.node) == leaves(f.node) + (match kid.1 {
            NodeView::Leaf(tok) => seq![tok],
            NodeView::Tree(sub) => leaves(sub),
        }),
{
    let grown = FrameView { node: f.node.with_kid(kid), pending: f.pending.drop_first() };
    let (k, d) = choose|k: int, d: int|
        0 <= k < g.prods.len() && 0 <= d <= g.rhs(k).len() && #[trigger] fits(g, f, k, d);
    let rhs = g.rhs(k);
    lemma_kid_syms_push(f.node, kid);
    assert(d < rhs.len());
    assert(f.pending[0] == rhs[d]);
    assert(grown.pending =~= rhs.skip(d + 1));
    assert(rhs.take(d + 1).drop_last() =~= rhs.take(d));
    assert(rhs.take(d + 1).last() == rhs[d]);
    assert(f.node.kid_syms().push(kid.0).drop_last() =~= f.node.kid_syms());
    assert(thins(g, rhs.take(d + 1), grown.node.kid_syms()));
    assert(fits(g, grown, k, d + 1));
    assert(valid_kids(g, grown.node.kids));
    grown
}

/// A complete frame's tree joins the frame below, which is then in order as
/// the top frame.
pub proof fn lemma_join(g: GramView, parent: FrameView, top: FrameView) -> (joined: FrameView)
    requires
        waiting_ok(g, parent, top.node.sym),
        open_ok(g, top),
        top.pending.len() == 0,
    ensures
        joined == (FrameView {
            node: parent.node.with_kid((top.node.sym, NodeView::Tree(top.node))),
            pending: parent.pending,
        }),
        open_ok(g, joined),
        leaves(joined.node) == leaves(parent.node) + leaves(top.node),
{
    let kid = (top.node.sym, NodeView::Tree(top.node));
    let joined = FrameView { node: parent.node.with_kid(kid), pending: parent.pending };
    lemma_complete(g, top);
    let (k, d) = choose|k: int, d: int|
        0 <= k < g.prods.len() && 0 <= d < g.rhs(k).len() && #[trigger] waits(
            g,
            parent,
            k,
            d,
            top.node.sym,
        );
    let rhs = g.rhs(k);
    lemma_kid_syms_push(parent.node, kid);
    assert(rhs.take(d + 1).drop_last() =~= rhs.take(d));
    assert(rhs.take(d + 1).last() == rhs[d]);
    assert(parent.node.kid_syms().push(kid.0).drop_last() =~= parent.node.kid_syms());
    assert(thins(g, rhs.take(d + 1), joined.node.kid_syms()));
    assert(fits(g, joined, k, d + 1));
    assert(valid_kids(g, joined.node.kids));
    joined
}

/// Opening a subtree for the top frame's next symbol leaves the old top
/// frame waiting in order and the new one in order on top.
pub proof fn lemma_open(g: GramView, f: FrameView, k2: int)
    requires
        open_ok(g, f),
        f.pending.len() > 0,
        0 <= k2 < g.prods.len(),
        g.lhs(k2) == f.pending[0],
    ensures
        waiting_ok(
            g,
            FrameView { node: f.node, pending: f.pending.drop_first() },
            f.pending[0],
        ),
        open_ok(g, FrameView { node: TreeView::bare(f.pending[0]), pending: g.rhs(k2) }),
        leaves(TreeView::bare(f.pending[0])) == Seq::<TokenView>::empty(),
{
    let rest = FrameView { node: f.node, pending: f.pending.drop_first() };
    let opened = FrameView { node: TreeView::bare(f.pending[0]), pending: g.rhs(k2) };
    let (k, d) = choose|k: int, d: int|
        0 <= k < g.prods.len() && 0 <= d <= g.rhs(k).len() && #[trigger] fits(g, f, k, d);
    let rhs = g.rhs(k);
    assert(d < rhs.len());
    assert(f.pending[0] == rhs[d]);
    assert(rest.pending =~= rhs.skip(d + 1));
    assert(waits(g, rest, k, d, f.pending[0]));
    assert(g.rhs(k2).skip(0) =~= g.rhs(k2));
    assert(g.rhs(k2).take(0) =~= Seq::empty());
    assert(opened.node.kid_syms() =~= Seq::empty());
    assert(fits(g, opened, k2, 0));
}

/// A derivation that starts in order ends, if with a tree, with a tree
/// built by the grammar whose leaves are the tokens.
pub proof fn lemma_run_sound(
    g: GramView,
    toks: Seq<TokenView>,
    below: Seq<FrameView>,
    top: FrameView,
    i: nat,
)
    requires
        g.well_formed(),
        !conflict(g),
        state_ok(g, toks, below, top, i),
    ensures
        run(g, toks, below, top, i) matches Ok(t) ==> valid_tree(g, t) && leaves(t) == toks
            && t.sym == root_sym(below, top),
    decreases steps(g, toks, below, top, i),
{
    let table = predict_table(g);
    if top.pending.len() == 0 {
        if below.len() == 0 {
            if i >= toks.len() {
                lemma_complete(g, top);
                assert(toks.take(i as int) =~= toks);
                assert(yield_of(below) + leaves(top.node) =~= leaves(top.node));
            }
        } else {
            let parent = below.last();
            let joined = lemma_join(g, parent, top);
            assert(yield_of(below.drop_last()) + leaves(joined.node) =~= yield_of(below) + leaves(
                top.node,
            ));
            if below.len() > 1 {
                assert(below.drop_last()[0] == below[0]);
            }
            lemma_run_sound(g, toks, below.drop_last(), joined, i);
        }
    } else {
        let s = top.pending[0];
        if i >= toks.len() {
            if table.dom().contains((s, Lookahead::EndMarker)) {
                lemma_end_entry_nullable(g, s);
                let rest = lemma_pass(g, top);
                lemma_run_sound(g, toks, below, rest, i);
            }
        } else if s is Terminal {
            if s == SymView::Terminal(toks[i as int].name) {
                let kid = (s, NodeView::Leaf(toks[i as int]));
                let fed = lemma_grow(g, top, kid);
                assert(toks.take(i as int).push(toks[i as int]) =~= toks.take(i as int + 1));
                assert(yield_of(below) + leaves(fed.node) =~= (yield_of(below) + leaves(
                    top.node,
                )).push(toks[i as int]));
                lemma_run_sound(g, toks, below, fed, i + 1);
            }
        } else {
            let key = (s, Lookahead::Sym(toks[i as int].name));
            if table.dom().contains(key) {
                match table[key].rhs {
                    SymStrView::Epsilon => {
                        lemma_eps_entry_nullable(g, s, key.1);
                        let rest = lemma_pass(g, top);
                        lemma_run_sound(g, toks, below, rest, i);
                    },
                    SymStrView::Str(v) => {
                        let k2 = lemma_entry(g, s, key.1);
                        lemma_open(g, top, k2);
                        let rest = FrameView { node: top.node, pending: top.pending.drop_first() };
                        let opened = FrameView { node: TreeView::bare(s), pending: v };
                        let below2 = below.push(rest);
                        assert(below2.drop_last() =~= below);
                        assert(below2.last() == rest);
                        assert(yield_of(below2) + leaves(opened.node) =~= yield_of(below) + leaves(
                            top.node,
                        ));
                        if below.len() > 0 {
                            assert(below2[0] == below[0]);
                        }
                        lemma_run_sound(g, toks, below2, opened, i);
                    },
                }
            }
        }
    }
}

/// A parse that gives a tree gives one that the grammar builds from the start
/// symbol and whose leaves are the tokens, in order.
pub proof fn lemma_parse_sound(g: GramView, toks: Seq<TokenView>)
    requires
        g.well_formed(),
        !conflict(g),
    ensures
        parse_spec(g, toks) matches Ok(t) ==> valid_tree(g, t) && leaves(t) == toks && t.sym
            == g.start,
{
    if toks.len() > 0 {
        let table = predict_table(g);
        let key = (g.start, Lookahead::Sym(toks[0].name));
        if table.dom().contains(key) {
            let k = lemma_entry(g, g.start, key.1);
            let root = FrameView { node: TreeView::bare(g.start), pending: table[key].rhs.syms() };
            assert(g.rhs(k).skip(0) =~= g.rhs(k));
            assert(g.rhs(k).take(0) =~= Seq::empty());
            assert(root.node.kid_syms() =~= Seq::empty());
            assert(fits(g, root, k, 0));
            assert(toks.take(0) =~= Seq::empty());
            assert(yield_of(Seq::<FrameView>::empty()) + leaves(root.node) =~= Seq::empty());
            lemma_run_sound(g, toks, Seq::empty(), root, 0);
        }
    }
}

} // verus!
