//! Sentences parse: for a grammar without collisions, the derivation of a
//! token sequence that the grammar generates never fails on a token.
use crate::ast::{NodeView, TreeView, syms_of};
use crate::gram::{GramView, SymStrView, SymView};
use crate::machine::{FrameView, ParseErrorView, parse_spec, run, steps};
use crate::sound::{
    fits, leaves, leaves_of, lemma_grow, lemma_join,
    lemma_open, lemma_parse_sound, lemma_pass, open_ok, root_sym, stack_ok, thins, valid_kids,
    valid_tree, waiting_ok, waits,
};
use crate::theory::{
    Lookahead, all_nullable_within, claims, collides_at, conflict, in_follow,
    lemma_claimants_agree, lemma_entry, lemma_eps_entry_nullable,
    lemma_follow_intro_first, nullable_within,
    lemma_follow_intro_lhs, lemma_follow_start, lemma_nullable_intro, lemma_starts_intro, nullable,
    predict_table, predicted, seq_nullable, seq_starts, starts, starts_within,
};
use crate::token::TokenView;
use vstd::prelude::*;

verus! {

/// `x` derives the tokens `w` by a derivation tree of height at most `n`: a
/// terminal derives one token of its name, a nonterminal what the right side
/// of one of its productions derives.
pub open spec fn yields_within(g: GramView, x: SymView, w: Seq<TokenView>, n: nat) -> bool
    decreases n, 0nat, 0nat,
{
    match x {
        SymView::Terminal(name) => w.len() == 1 && w[0].name == name,
        SymView::NonTerminal(_) => n > 0 && exists|k: int|
            0 <= k < g.prods.len() && #[trigger] g.lhs(k) == x && seq_yields_within(
                g,
                g.rhs(k),
                w,
                (n - 1) as nat,
            ),
    }
}

/// The symbols of `alpha` derive the tokens `w`, each a stretch of them, in
/// order.
pub open spec fn seq_yields_within(g: GramView, alpha: Seq<SymView>, w: Seq<TokenView>, n: nat) -> bool
    decreases n, 1nat, alpha.len(),
{
    if alpha.len() == 0 {
        w.len() == 0
    } else {
        exists|c: int|
            #![trigger w.take(c)]
            0 <= c <= w.len() && yields_within(g, alpha[0], w.take(c), n)
                && seq_yields_within(g, alpha.drop_first(), w.skip(c), n)
    }
}

pub open spec fn seq_yields(g: GramView, alpha: Seq<SymView>, w: Seq<TokenView>) -> bool {
    exists|n: nat| seq_yields_within(g, alpha, w, n)
}

/// The grammar generates the tokens: its start symbol derives them.
pub open spec fn generates(g: GramView, toks: Seq<TokenView>) -> bool {
    exists|n: nat| yields_within(g, g.start, toks, n)
}

/// What stands first in `w`, or the end mark.
pub open spec fn look(w: Seq<TokenView>) -> Lookahead {
    if w.len() == 0 {
        Lookahead::EndMarker
    } else {
        Lookahead::Sym(w[0].name)
    }
}

pub proof fn lemma_yields_mono(g: GramView, x: SymView, w: Seq<TokenView>, n: nat, m: nat)
    requires
        yields_within(g, x, w, n),
        n <= m,
    ensures
        yields_within(g, x, w, m),
    decreases n, 0nat, 0nat,
{
    if x is NonTerminal {
        let k = choose|k: int|
            0 <= k < g.prods.len() && #[trigger] g.lhs(k) == x && seq_yields_within(
                g,
                g.rhs(k),
                w,
                (n - 1) as nat,
            );
        lemma_seq_yields_mono(g, g.rhs(k), w, (n - 1) as nat, (m - 1) as nat);
        assert(g.lhs(k) == x && seq_yields_within(g, g.rhs(k), w, (m - 1) as nat));
    }
}

pub proof fn lemma_seq_yields_mono(
    g: GramView,
    alpha: Seq<SymView>,
    w: Seq<TokenView>,
    n: nat,
    m: nat,
)
    requires
        seq_yields_within(g, alpha, w, n),
        n <= m,
    ensures
        seq_yields_within(g, alpha, w, m),
    decreases n, 1nat, alpha.len(),
{
    if alpha.len() > 0 {
        let c = choose|c: int|
            #![trigger w.take(c)]
            0 <= c <= w.len() && yields_within(g, alpha[0], w.take(c), n)
                && seq_yields_within(g, alpha.drop_first(), w.skip(c), n);
        lemma_yields_mono(g, alpha[0], w.take(c), n, m);
        lemma_seq_yields_mono(g, alpha.drop_first(), w.skip(c), n, m);
        assert(yields_within(g, alpha[0], w.take(c), m) && seq_yields_within(
            g,
            alpha.drop_first(),
            w.skip(c),
            m,
        ));
    }
}

/// What two strings of symbols derive one after the other, the two
/// together derive.
pub proof fn lemma_yields_concat(
    g: GramView,
    a: Seq<SymView>,
    b: Seq<SymView>,
    w1: Seq<TokenView>,
    w2: Seq<TokenView>,
    n: nat,
)
    requires
        seq_yields_within(g, a, w1, n),
        seq_yields_within(g, b, w2, n),
    ensures
        seq_yields_within(g, a + b, w1 + w2, n),
    decreases a.len(),
{
    if a.len() == 0 {
        assert(a + b =~= b);
        assert(w1 + w2 =~= w2);
    } else {
        let c = choose|c: int|
            #![trigger w1.take(c)]
            0 <= c <= w1.len() && yields_within(g, a[0], w1.take(c), n)
                && seq_yields_within(g, a.drop_first(), w1.skip(c), n);
        lemma_yields_concat(g, a.drop_first(), b, w1.skip(c), w2, n);
        assert((a + b).drop_first() =~= a.drop_first() + b);
        assert((w1 + w2).take(c) =~= w1.take(c));
        assert((w1 + w2).skip(c) =~= w1.skip(c) + w2);
        assert((a + b)[0] == a[0]);
        assert(yields_within(g, (a + b)[0], (w1 + w2).take(c), n) && seq_yields_within(
            g,
            (a + b).drop_first(),
            (w1 + w2).skip(c),
            n,
        ));
    }
}

/// What two strings of symbols derive together falls into what the first
/// derives and what the second derives.
pub proof fn lemma_yields_split(
    g: GramView,
    a: Seq<SymView>,
    b: Seq<SymView>,
    w: Seq<TokenView>,
    n: nat,
) -> (c: int)
    requires
        seq_yields_within(g, a + b, w, n),
    ensures
        0 <= c <= w.len(),
        seq_yields_within(g, a, w.take(c), n),
        seq_yields_within(g, b, w.skip(c), n),
    decreases a.len(),
{
    if a.len() == 0 {
        assert(a + b =~= b);
        assert(w.skip(0) =~= w);
        0
    } else {
        let ab = a + b;
        let c1 = choose|c: int|
            #![trigger w.take(c)]
            0 <= c <= w.len() && yields_within(g, ab[0], w.take(c), n)
                && seq_yields_within(g, ab.drop_first(), w.skip(c), n);
        assert(ab.drop_first() =~= a.drop_first() + b);
        let c2 = lemma_yields_split(g, a.drop_first(), b, w.skip(c1), n);
        let c = c1 + c2;
        assert(w.take(c).take(c1) =~= w.take(c1));
        assert(w.take(c).skip(c1) =~= w.skip(c1).take(c2));
        assert(w.skip(c) =~= w.skip(c1).skip(c2));
        assert(ab[0] == a[0]);
        assert(yields_within(g, a[0], w.take(c).take(c1), n) && seq_yields_within(
            g,
            a.drop_first(),
            w.take(c).skip(c1),
            n,
        ));
        c
    }
}

/// A symbol that derives no token can vanish.
pub proof fn lemma_yields_nothing(g: GramView, x: SymView, w: Seq<TokenView>, n: nat)
    requires
        g.well_formed(),
        yields_within(g, x, w, n),
        w.len() == 0,
    ensures
        nullable(g, x),
    decreases n, 0nat, 0nat,
{
    let k = choose|k: int|
        0 <= k < g.prods.len() && #[trigger] g.lhs(k) == x && seq_yields_within(
            g,
            g.rhs(k),
            w,
            (n - 1) as nat,
        );
    lemma_seq_yields_nothing(g, g.rhs(k), w, (n - 1) as nat);
    lemma_nullable_intro(g, k);
}

pub proof fn lemma_seq_yields_nothing(g: GramView, alpha: Seq<SymView>, w: Seq<TokenView>, n: nat)
    requires
        g.well_formed(),
        seq_yields_within(g, alpha, w, n),
        w.len() == 0,
    ensures
        seq_nullable(g, alpha),
    decreases n, 1nat, alpha.len(),
{
    if alpha.len() > 0 {
        let c = choose|c: int|
            #![trigger w.take(c)]
            0 <= c <= w.len() && yields_within(g, alpha[0], w.take(c), n)
                && seq_yields_within(g, alpha.drop_first(), w.skip(c), n);
        lemma_yields_nothing(g, alpha[0], w.take(c), n);
        lemma_seq_yields_nothing(g, alpha.drop_first(), w.skip(c), n);
        assert forall|q: int| 0 <= q < alpha.len() implies nullable(g, #[trigger] alpha[q]) by {
            if q > 0 {
                assert(alpha.drop_first()[q - 1] == alpha[q]);
            }
        }
    }
}

/// A symbol that derives tokens can begin with the first of them.
pub proof fn lemma_yields_starts(g: GramView, x: SymView, w: Seq<TokenView>, n: nat)
    requires
        g.well_formed(),
        yields_within(g, x, w, n),
        w.len() > 0,
    ensures
        starts(g, x, w[0].name),
    decreases n, 0nat, 0nat,
{
    match x {
        SymView::Terminal(name) => {
            assert(starts_within(g, x, w[0].name, 0));
        },
        SymView::NonTerminal(_) => {
            let k = choose|k: int|
                0 <= k < g.prods.len() && #[trigger] g.lhs(k) == x && seq_yields_within(
                    g,
                    g.rhs(k),
                    w,
                    (n - 1) as nat,
                );
            lemma_seq_yields_starts(g, g.rhs(k), w, (n - 1) as nat);
            let alpha = g.rhs(k);
            let q = choose|q: int|
                0 <= q < alpha.len() && starts(g, #[trigger] alpha[q], w[0].name) && seq_nullable(
                    g,
                    alpha.take(q),
                );
            lemma_starts_intro(g, k, q, w[0].name);
        },
    }
}

pub proof fn lemma_seq_yields_starts(g: GramView, alpha: Seq<SymView>, w: Seq<TokenView>, n: nat)
    requires
        g.well_formed(),
        seq_yields_within(g, alpha, w, n),
        w.len() > 0,
    ensures
        seq_starts(g, alpha, w[0].name),
    decreases n, 1nat, alpha.len(),
{
    let t = w[0].name;
    let c = choose|c: int|
        #![trigger w.take(c)]
        0 <= c <= w.len() && yields_within(g, alpha[0], w.take(c), n)
            && seq_yields_within(g, alpha.drop_first(), w.skip(c), n);
    if c > 0 {
        lemma_yields_starts(g, alpha[0], w.take(c), n);
        assert(w.take(c)[0] == w[0]);
        assert(alpha.take(0) =~= Seq::empty());
        assert(0 <= 0 < alpha.len() && starts(g, alpha[0], t) && seq_nullable(g, alpha.take(0)));
    } else {
        lemma_yields_nothing(g, alpha[0], w.take(c), n);
        assert(w.skip(0) =~= w);
        let rest = alpha.drop_first();
        lemma_seq_yields_starts(g, rest, w, n);
        let q = choose|q: int|
            0 <= q < rest.len() && starts(g, #[trigger] rest[q], t) && seq_nullable(
                g,
                rest.take(q),
            );
        assert(alpha[q + 1] == rest[q]);
        assert forall|q2: int| 0 <= q2 < q + 1 implies nullable(
            g,
            #[trigger] alpha.take(q + 1)[q2],
        ) by {
            if q2 > 0 {
                assert(rest.take(q)[q2 - 1] == alpha[q2]);
            }
        }
        assert(0 <= q + 1 < alpha.len() && starts(g, alpha[q + 1], t) && seq_nullable(
            g,
            alpha.take(q + 1),
        ));
    }
}

/// The symbols that the frames below the top still wait for, the top-most
/// frame's first.
pub open spec fn rem_below(below: Seq<FrameView>) -> Seq<SymView>
    decreases below.len(),
{
    if below.len() == 0 {
        Seq::empty()
    } else {
        below.last().pending + rem_below(below.drop_last())
    }
}

/// `f` can come next once the top frame is complete, by what the frames
/// below still wait for.
pub open spec fn la_of(g: GramView, below: Seq<FrameView>, f: Lookahead) -> bool
    decreases below.len(),
{
    if below.len() == 0 {
        f is EndMarker
    } else {
        ||| (f matches Lookahead::Sym(t) && seq_starts(g, below.last().pending, t))
        ||| (seq_nullable(g, below.last().pending) && la_of(g, below.drop_last(), f))
    }
}

/// What begins the tokens that the frames below derive can come next.
proof fn lemma_rem_look(g: GramView, below: Seq<FrameView>, w: Seq<TokenView>, n: nat)
    requires
        g.well_formed(),
        seq_yields_within(g, rem_below(below), w, n),
    ensures
        la_of(g, below, look(w)),
    decreases below.len(),
{
    if below.len() > 0 {
        let p = below.last().pending;
        let c = lemma_yields_split(g, p, rem_below(below.drop_last()), w, n);
        if c > 0 {
            lemma_seq_yields_starts(g, p, w.take(c), n);
            assert(w.take(c)[0] == w[0]);
        } else {
            lemma_seq_yields_nothing(g, p, w.take(c), n);
            assert(w.skip(0) =~= w);
            lemma_rem_look(g, below.drop_last(), w, n);
        }
    }
}

/// What can come next once the top frame is complete can follow the top
/// frame's symbol.
proof fn lemma_ctx_follow(g: GramView, below: Seq<FrameView>, child: SymView, f: Lookahead)
    requires
        g.well_formed(),
        child is NonTerminal,
        stack_ok(g, below, child),
        below.len() == 0 ==> child == g.start,
        below.len() > 0 ==> below[0].node.sym == g.start,
        la_of(g, below, f),
    ensures
        in_follow(g, child, f),
    decreases below.len(),
{
    if below.len() == 0 {
        lemma_follow_start(g);
    } else {
        let parent = below.last();
        let (k, d) = choose|k: int, d: int|
            0 <= k < g.prods.len() && 0 <= d < g.rhs(k).len() && #[trigger] waits(
                g,
                parent,
                k,
                d,
                child,
            );
        if f is Sym && seq_starts(g, parent.pending, f->Sym_0) {
            lemma_follow_intro_first(g, k, d, f->Sym_0);
        } else {
            if below.len() > 1 {
                assert(below.drop_last()[0] == below[0]);
            }
            assert(g.prods[k].lhs is NonTerminal);
            lemma_ctx_follow(g, below.drop_last(), parent.node.sym, f);
            lemma_follow_intro_lhs(g, k, d, f);
        }
    }
}

/// The frames are in order, with the start symbol at the root.
pub open spec fn shape_ok(g: GramView, below: Seq<FrameView>, top: FrameView) -> bool {
    &&& open_ok(g, top)
    &&& stack_ok(g, below, top.node.sym)
    &&& root_sym(below, top) == g.start
}

/// The derivation is on its way to a tree: the frames are in order, and the
/// symbols that they still wait for derive the tokens from the cursor on.
pub open spec fn on_track(
    g: GramView,
    toks: Seq<TokenView>,
    below: Seq<FrameView>,
    top: FrameView,
    i: nat,
) -> bool {
    &&& i <= toks.len()
    &&& shape_ok(g, below, top)
    &&& seq_yields(g, top.pending + rem_below(below), toks.skip(i as int))
}

/// What begins the tokens that the rest of the stack derives can follow the
/// top frame's next symbol.
proof fn lemma_next_follow(
    g: GramView,
    below: Seq<FrameView>,
    top: FrameView,
    w: Seq<TokenView>,
    n: nat,
)
    requires
        g.well_formed(),
        shape_ok(g, below, top),
        top.pending.len() > 0,
        top.pending[0] is NonTerminal,
        seq_yields_within(g, top.pending.drop_first() + rem_below(below), w, n),
    ensures
        in_follow(g, top.pending[0], look(w)),
{
    let (k, d) = choose|k: int, d: int|
        0 <= k < g.prods.len() && 0 <= d <= g.rhs(k).len() && #[trigger] fits(g, top, k, d);
    let rhs = g.rhs(k);
    assert(d < rhs.len());
    assert(top.pending[0] == rhs[d]);
    let rest = top.pending.drop_first();
    assert(rest =~= rhs.skip(d + 1));
    let c = lemma_yields_split(g, rest, rem_below(below), w, n);
    if c > 0 {
        lemma_seq_yields_starts(g, rest, w.take(c), n);
        assert(w.take(c)[0] == w[0]);
        lemma_follow_intro_first(g, k, d, w[0].name);
    } else {
        lemma_seq_yields_nothing(g, rest, w.take(c), n);
        assert(w.skip(0) =~= w);
        lemma_rem_look(g, below, w, n);
        assert(g.prods[k].lhs is NonTerminal);
        lemma_ctx_follow(g, below, top.node.sym, look(w));
        lemma_follow_intro_lhs(g, k, d, look(w));
    }
}

/// What the next symbol's part in the derivation says: the production that
/// it is expanded by asks for the slot under the token at the cursor, or
/// under the end mark.
proof fn lemma_next_claims(
    g: GramView,
    toks: Seq<TokenView>,
    below: Seq<FrameView>,
    top: FrameView,
    i: nat,
) -> (r: (int, int, nat))
    requires
        g.well_formed(),
        on_track(g, toks, below, top, i),
        top.pending.len() > 0,
        top.pending[0] is NonTerminal,
    ensures
        0 <= r.0 < g.prods.len(),
        g.lhs(r.0) == top.pending[0],
        claims(g, r.0, look(toks.skip(i as int))),
        0 <= r.1 <= toks.len() - i,
        seq_yields_within(g, g.rhs(r.0), toks.skip(i as int).take(r.1), r.2),
        seq_yields_within(
            g,
            top.pending.drop_first() + rem_below(below),
            toks.skip(i as int).skip(r.1),
            r.2,
        ),
{
    let w = toks.skip(i as int);
    let s = top.pending[0];
    let all = top.pending + rem_below(below);
    let rest = top.pending.drop_first() + rem_below(below);
    let n = choose|n: nat| seq_yields_within(g, all, w, n);
    assert(all[0] == s);
    assert(all.drop_first() =~= rest);
    let c = choose|c: int|
        #![trigger w.take(c)]
        0 <= c <= w.len() && yields_within(g, all[0], w.take(c), n)
            && seq_yields_within(g, all.drop_first(), w.skip(c), n);
    let k = choose|k: int|
        0 <= k < g.prods.len() && #[trigger] g.lhs(k) == s && seq_yields_within(
            g,
            g.rhs(k),
            w.take(c),
            (n - 1) as nat,
        );
    lemma_seq_yields_mono(g, g.rhs(k), w.take(c), (n - 1) as nat, n);
    if c > 0 {
        lemma_seq_yields_starts(g, g.rhs(k), w.take(c), n);
        assert(w.take(c)[0] == w[0]);
    } else {
        lemma_seq_yields_nothing(g, g.rhs(k), w.take(c), n);
        assert(w.skip(0) =~= w);
        lemma_next_follow(g, below, top, w, n);
    }
    (k, c, n)
}

/// From a state on track, the derivation ends with a tree.
pub proof fn lemma_run_complete(
    g: GramView,
    toks: Seq<TokenView>,
    below: Seq<FrameView>,
    top: FrameView,
    i: nat,
)
    requires
        g.well_formed(),
        !conflict(g),
        on_track(g, toks, below, top, i),
    ensures
        run(g, toks, below, top, i) is Ok,
    decreases steps(g, toks, below, top, i),
{
    let table = predict_table(g);
    let w = toks.skip(i as int);
    if top.pending.len() == 0 {
        if below.len() == 0 {
            assert(top.pending + rem_below(below) =~= Seq::empty());
        } else {
            let parent = below.last();
            let joined = lemma_join(g, parent, top);
            assert(joined.pending + rem_below(below.drop_last()) =~= top.pending + rem_below(
                below,
            ));
            if below.len() > 1 {
                assert(below.drop_last()[0] == below[0]);
            }
            lemma_run_complete(g, toks, below.drop_last(), joined, i);
        }
    } else {
        let s = top.pending[0];
        let all = top.pending + rem_below(below);
        let tail = top.pending.drop_first() + rem_below(below);
        assert(all[0] == s);
        assert(all.drop_first() =~= tail);
        if s is Terminal {
            let n = choose|n: nat| seq_yields_within(g, all, w, n);
            let c = choose|c: int|
                #![trigger w.take(c)]
                0 <= c <= w.len() && yields_within(g, all[0], w.take(c), n) && seq_yields_within(
                    g,
                    all.drop_first(),
                    w.skip(c),
                    n,
                );
            assert(w.take(c).len() == 1);
            assert(w.take(c)[0] == w[0]);
            assert(w[0] == toks[i as int]);
            let kid = (s, NodeView::Leaf(toks[i as int]));
            let fed = lemma_grow(g, top, kid);
            assert(w.skip(1) =~= toks.skip(i as int + 1));
            assert(fed.pending + rem_below(below) =~= tail);
            lemma_run_complete(g, toks, below, fed, i + 1);
        } else {
            let (k, c, n) = lemma_next_claims(g, toks, below, top, i);
            let f = look(w);
            let key = (s, f);
            assert(predicted(g, key.0, key.1, g.prods[k]));
            assert(table.dom().contains(key));
            let k2 = lemma_entry(g, s, f);
            lemma_claimants_agree(g, k, k2, f);
            let rest = FrameView { node: top.node, pending: top.pending.drop_first() };
            if i >= toks.len() {
                lemma_seq_yields_nothing(g, g.rhs(k), w.take(c), n);
                lemma_nullable_intro(g, k);
                let passed = lemma_pass(g, top);
                assert(w.skip(c) =~= w);
                lemma_run_complete(g, toks, below, rest, i);
            } else {
                assert(w[0] == toks[i as int]);
                match table[(s, f)].rhs {
                    SymStrView::Epsilon => {
                        lemma_eps_entry_nullable(g, s, f);
                        let passed = lemma_pass(g, top);
                        assert(g.rhs(k) =~= Seq::empty());
                        assert(c == 0);
                        assert(w.skip(c) =~= w);
                        lemma_run_complete(g, toks, below, rest, i);
                    },
                    SymStrView::Str(v) => {
                        lemma_open(g, top, k2);
                        let opened = FrameView { node: TreeView::bare(s), pending: v };
                        let below2 = below.push(rest);
                        assert(below2.drop_last() =~= below);
                        assert(below2.last() == rest);
                        if below.len() > 0 {
                            assert(below2[0] == below[0]);
                        }
                        assert(g.rhs(k) == v);
                        lemma_yields_concat(g, v, tail, w.take(c), w.skip(c), n);
                        assert(w.take(c) + w.skip(c) =~= w);
                        assert(opened.pending + rem_below(below2) =~= v + tail);
                        lemma_run_complete(g, toks, below2, opened, i);
                    },
                }
            }
        }
    }
}

/// The tokens that a grammar without collisions generates parse.
pub proof fn lemma_sentences_parse(g: GramView, toks: Seq<TokenView>)
    requires
        g.well_formed(),
        !conflict(g),
        toks.len() > 0,
        generates(g, toks),
    ensures
        parse_spec(g, toks) is Ok,
{
    let table = predict_table(g);
    let f = Lookahead::Sym(toks[0].name);
    let n = choose|n: nat| yields_within(g, g.start, toks, n);
    let k = choose|k: int|
        0 <= k < g.prods.len() && #[trigger] g.lhs(k) == g.start && seq_yields_within(
            g,
            g.rhs(k),
            toks,
            (n - 1) as nat,
        );
    lemma_seq_yields_starts(g, g.rhs(k), toks, (n - 1) as nat);
    assert(seq_starts(g, g.rhs(k), toks[0].name));
    assert(claims(g, k, f));
    let key = (g.start, f);
    assert(predicted(g, key.0, key.1, g.prods[k]));
    assert(table.dom().contains(key));
    let k2 = lemma_entry(g, g.start, f);
    lemma_claimants_agree(g, k, k2, f);
    let root = FrameView { node: TreeView::bare(g.start), pending: table[(g.start, f)].rhs.syms() };
    assert(root.pending == g.rhs(k));
    assert(g.rhs(k).skip(0) =~= g.rhs(k));
    assert(g.rhs(k).take(0) =~= Seq::empty());
    assert(root.node.kid_syms() =~= Seq::empty());
    assert(fits(g, root, k, 0));
    assert(toks.skip(0) =~= toks);
    assert(root.pending + rem_below(Seq::<FrameView>::empty()) =~= g.rhs(k));
    lemma_run_complete(g, toks, Seq::empty(), root, 0);
}

/// A symbol that can vanish derives no token.
pub proof fn lemma_nullable_yields(g: GramView, x: SymView, h: nat)
    requires
        nullable_within(g, x, h),
    ensures
        yields_within(g, x, Seq::<TokenView>::empty(), h),
    decreases h, 0nat, 0nat,
{
    let k = choose|k: int|
        0 <= k < g.prods.len() && #[trigger] g.lhs(k) == x && all_nullable_within(
            g,
            g.rhs(k),
            (h - 1) as nat,
        );
    lemma_all_nullable_yields(g, g.rhs(k), (h - 1) as nat);
    assert(g.lhs(k) == x && seq_yields_within(
        g,
        g.rhs(k),
        Seq::<TokenView>::empty(),
        (h - 1) as nat,
    ));
}

pub proof fn lemma_all_nullable_yields(g: GramView, alpha: Seq<SymView>, h: nat)
    requires
        all_nullable_within(g, alpha, h),
    ensures
        seq_yields_within(g, alpha, Seq::<TokenView>::empty(), h),
    decreases h, 1nat, alpha.len(),
{
    if alpha.len() > 0 {
        let w = Seq::<TokenView>::empty();
        lemma_nullable_yields(g, alpha[0], h);
        assert forall|q: int| 0 <= q < alpha.drop_first().len() implies nullable_within(
            g,
            #[trigger] alpha.drop_first()[q],
            h,
        ) by {
            assert(alpha.drop_first()[q] == alpha[q + 1]);
        }
        lemma_all_nullable_yields(g, alpha.drop_first(), h);
        assert(w.take(0) =~= w);
        assert(w.skip(0) =~= w);
        assert(0 <= 0 <= w.len() && yields_within(g, alpha[0], w.take(0), h) && seq_yields_within(
            g,
            alpha.drop_first(),
            w.skip(0),
            h,
        ));
    }
}

/// One more symbol at the end derives what it derives behind what the
/// symbols before it derive.
proof fn lemma_yields_push(
    g: GramView,
    alpha: Seq<SymView>,
    x: SymView,
    w1: Seq<TokenView>,
    w2: Seq<TokenView>,
    n1: nat,
    n2: nat,
) -> (n: nat)
    requires
        seq_yields_within(g, alpha, w1, n1),
        yields_within(g, x, w2, n2),
    ensures
        seq_yields_within(g, alpha.push(x), w1 + w2, n),
{
    let n = if n1 <= n2 {
        n2
    } else {
        n1
    };
    lemma_seq_yields_mono(g, alpha, w1, n1, n);
    lemma_yields_mono(g, x, w2, n2, n);
    let one = seq![x];
    assert(one.drop_first() =~= Seq::empty());
    assert(w2.take(w2.len() as int) =~= w2);
    assert(w2.skip(w2.len() as int) =~= Seq::empty());
    assert(0 <= w2.len() <= w2.len() && yields_within(g, one[0], w2.take(w2.len() as int), n)
        && seq_yields_within(g, one.drop_first(), w2.skip(w2.len() as int), n));
    lemma_yields_concat(g, alpha, one, w1, w2, n);
    assert(alpha + one =~= alpha.push(x));
    n
}

/// The symbols of a production derive the leaves of children that are the
/// production's right side less symbols that can vanish.
proof fn lemma_kids_yield(g: GramView, alpha: Seq<SymView>, kids: Seq<(SymView, NodeView)>) -> (n:
    nat)
    requires
        g.well_formed(),
        thins(g, alpha, syms_of(kids)),
        valid_kids(g, kids),
    ensures
        seq_yields_within(g, alpha, leaves_of(kids), n),
    decreases kids, alpha.len(),
{
    let ks = syms_of(kids);
    if alpha.len() == 0 {
        assert(kids.len() == ks.len());
        0
    } else {
        let front = alpha.drop_last();
        assert(front.push(alpha.last()) =~= alpha);
        if ks.len() > 0 && ks.last() == alpha.last() && thins(g, front, ks.drop_last()) {
            let kid = kids.last();
            assert(ks.drop_last() =~= syms_of(kids.drop_last()));
            let n1 = lemma_kids_yield(g, front, kids.drop_last());
            match kid.1 {
                NodeView::Leaf(tok) => {
                    assert(yields_within(g, alpha.last(), seq![tok], 0));
                    lemma_yields_push(
                        g,
                        front,
                        alpha.last(),
                        leaves_of(kids.drop_last()),
                        seq![tok],
                        n1,
                        0,
                    )
                },
                NodeView::Tree(sub) => {
                    let n2 = lemma_tree_yields(g, sub);
                    lemma_yields_push(
                        g,
                        front,
                        alpha.last(),
                        leaves_of(kids.drop_last()),
                        leaves(sub),
                        n1,
                        n2,
                    )
                },
            }
        } else {
            let n1 = lemma_kids_yield(g, front, kids);
            let h = choose|h: nat| nullable_within(g, alpha.last(), h);
            lemma_nullable_yields(g, alpha.last(), h);
            let n = lemma_yields_push(
                g,
                front,
                alpha.last(),
                leaves_of(kids),
                Seq::empty(),
                n1,
                h,
            );
            assert(leaves_of(kids) + Seq::<TokenView>::empty() =~= leaves_of(kids));
            n
        }
    }
}

/// The symbol of a tree that the grammar builds derives the tree's leaves.
pub proof fn lemma_tree_yields(g: GramView, t: TreeView) -> (n: nat)
    requires
        g.well_formed(),
        valid_tree(g, t),
    ensures
        yields_within(g, t.sym, leaves(t), n),
    decreases t, 0nat,
{
    let k = choose|k: int|
        0 <= k < g.prods.len() && #[trigger] g.lhs(k) == t.sym && thins(g, g.rhs(k), t.kid_syms());
    let n1 = lemma_kids_yield(g, g.rhs(k), t.kids);
    assert(g.prods[k].lhs is NonTerminal);
    assert(g.lhs(k) == t.sym && seq_yields_within(g, g.rhs(k), leaves(t), n1));
    n1 + 1
}

/// Tokens that parse are tokens that the grammar generates.
pub proof fn lemma_parse_generates(g: GramView, toks: Seq<TokenView>)
    requires
        g.well_formed(),
        !conflict(g),
        parse_spec(g, toks) is Ok,
    ensures
        generates(g, toks),
{
    lemma_parse_sound(g, toks);
    let t = parse_spec(g, toks)->Ok_0;
    let n = lemma_tree_yields(g, t);
}

} // verus!
