//! Laws of the library: what holds of every grammar and of every token
//! sequence.
use crate::complete::{generates, lemma_parse_generates, lemma_sentences_parse};
use crate::error::TrapCodeView;
use crate::first::FirstSets;
use crate::follow::FollowSets;
use crate::gram::{Gram, GramView, ProdView, SymStrView, SymView};
use crate::machine::{FrameView, ParseErrorView, parse_spec, run, steps};
use crate::predict::{first_collision, prediction_outcome};
use crate::sound::{leaves, lemma_parse_sound, valid_tree};
use crate::theory::{
    FstView, Lookahead, all_nullable_within, claims, collides_at, conflict, in_first_seq,
    lemma_follow_start, lemma_nullable_intro, nullable, nullable_within, predict_table,
    seq_nullable,
};
use crate::ast::{NodeView, TreeView};
use crate::token::TokenView;
use vstd::prelude::*;

verus! {

/// One step of a derivation: a nonterminal of `a` is replaced by the right
/// side of one of its productions, which gives `b`.
pub open spec fn step(g: GramView, a: Seq<SymView>, b: Seq<SymView>) -> bool {
    exists|k: int, p: int|
        0 <= k < g.prods.len() && 0 <= p < a.len() && a[p] is NonTerminal && #[trigger] rewrites(
            g,
            a,
            b,
            k,
            p,
        )
}

/// `b` is `a` with the symbol at `p` replaced by the right side of
/// production `k`, whose left side that symbol is.
pub open spec fn rewrites(g: GramView, a: Seq<SymView>, b: Seq<SymView>, k: int, p: int) -> bool {
    a[p] == g.lhs(k) && b == a.take(p) + g.rhs(k) + a.skip(p + 1)
}

/// `a` derives `b` in `n` steps.
pub open spec fn derives_in(g: GramView, a: Seq<SymView>, b: Seq<SymView>, n: nat) -> bool
    decreases n,
{
    if n == 0 {
        a == b
    } else {
        exists|mid: Seq<SymView>| #[trigger] step(g, a, mid) && derives_in(g, mid, b, (n - 1) as nat)
    }
}

/// Some derivation from `x` produces the empty string.
pub open spec fn derives_empty(g: GramView, x: SymView) -> bool {
    exists|n: nat| derives_in(g, seq![x], Seq::<SymView>::empty(), n)
}

proof fn lemma_step_in_context(g: GramView, a: Seq<SymView>, b: Seq<SymView>, c: Seq<SymView>)
    requires
        step(g, a, b),
    ensures
        step(g, a + c, b + c),
{
    let (k, p) = choose|k: int, p: int|
        0 <= k < g.prods.len() && 0 <= p < a.len() && a[p] is NonTerminal && #[trigger] rewrites(
            g,
            a,
            b,
            k,
            p,
        );
    assert((a + c).take(p) =~= a.take(p));
    assert((a + c).skip(p + 1) =~= a.skip(p + 1) + c);
    assert(b + c =~= (a + c).take(p) + g.rhs(k) + (a + c).skip(p + 1));
    assert((a + c)[p] == a[p]);
    assert(rewrites(g, a + c, b + c, k, p));
}

proof fn lemma_derives_in_context(
    g: GramView,
    a: Seq<SymView>,
    b: Seq<SymView>,
    c: Seq<SymView>,
    n: nat,
)
    requires
        derives_in(g, a, b, n),
    ensures
        derives_in(g, a + c, b + c, n),
    decreases n,
{
    if n > 0 {
        let mid = choose|mid: Seq<SymView>| #[trigger]
            step(g, a, mid) && derives_in(g, mid, b, (n - 1) as nat);
        lemma_step_in_context(g, a, mid, c);
        lemma_derives_in_context(g, mid, b, c, (n - 1) as nat);
        assert(step(g, a + c, mid + c) && derives_in(g, mid + c, b + c, (n - 1) as nat));
    }
}

proof fn lemma_derives_chain(
    g: GramView,
    a: Seq<SymView>,
    b: Seq<SymView>,
    c: Seq<SymView>,
    n: nat,
    m: nat,
)
    requires
        derives_in(g, a, b, n),
        derives_in(g, b, c, m),
    ensures
        derives_in(g, a, c, n + m),
    decreases n,
{
    if n > 0 {
        let mid = choose|mid: Seq<SymView>| #[trigger]
            step(g, a, mid) && derives_in(g, mid, b, (n - 1) as nat);
        lemma_derives_chain(g, mid, b, c, (n - 1) as nat, m);
        assert(step(g, a, mid) && derives_in(g, mid, c, (n + m - 1) as nat));
    }
}

/// Symbols that can all vanish within a height are rewritten to nothing by
/// some derivation.
proof fn lemma_vanish(g: GramView, alpha: Seq<SymView>, h: nat) -> (n: nat)
    requires
        all_nullable_within(g, alpha, h),
    ensures
        derives_in(g, alpha, Seq::<SymView>::empty(), n),
    decreases h, alpha.len(),
{
    if alpha.len() == 0 {
        assert(alpha =~= Seq::empty());
        0
    } else {
        let y = alpha[0];
        let rest = alpha.drop_first();
        assert(nullable_within(g, y, h));
        let k = choose|k: int|
            0 <= k < g.prods.len() && #[trigger] g.lhs(k) == y && all_nullable_within(
                g,
                g.rhs(k),
                (h - 1) as nat,
            );
        let n1 = lemma_vanish(g, g.rhs(k), (h - 1) as nat);
        assert forall|q: int| 0 <= q < rest.len() implies nullable_within(
            g,
            #[trigger] rest[q],
            h,
        ) by {
            assert(rest[q] == alpha[q + 1]);
        }
        let n2 = lemma_vanish(g, rest, h);
        let opened = g.rhs(k) + rest;
        assert(alpha.take(0) =~= Seq::empty());
        assert(alpha.skip(1) =~= rest);
        assert(opened =~= alpha.take(0) + g.rhs(k) + alpha.skip(1));
        assert(rewrites(g, alpha, opened, k, 0));
        assert(step(g, alpha, opened));
        lemma_derives_in_context(g, g.rhs(k), Seq::empty(), rest, n1);
        assert(Seq::<SymView>::empty() + rest =~= rest);
        lemma_derives_chain(g, opened, rest, Seq::empty(), n1, n2);
        assert(step(g, alpha, opened) && derives_in(g, opened, Seq::empty(), n1 + n2));
        assert(derives_in(g, alpha, Seq::empty(), n1 + n2 + 1));
        n1 + n2 + 1
    }
}

/// Every symbol of what some derivation rewrites to nothing can vanish.
proof fn lemma_vanished(g: GramView, s: Seq<SymView>, n: nat)
    requires
        derives_in(g, s, Seq::<SymView>::empty(), n),
    ensures
        seq_nullable(g, s),
    decreases n,
{
    if n > 0 {
        let mid = choose|mid: Seq<SymView>| #[trigger]
            step(g, s, mid) && derives_in(g, mid, Seq::<SymView>::empty(), (n - 1) as nat);
        lemma_vanished(g, mid, (n - 1) as nat);
        let (k, p) = choose|k: int, p: int|
            0 <= k < g.prods.len() && 0 <= p < s.len() && s[p] is NonTerminal && #[trigger] rewrites(
                g,
                s,
                mid,
                k,
                p,
            );
        let r = g.rhs(k);
        assert forall|q: int| 0 <= q < r.len() implies nullable(g, #[trigger] r[q]) by {
            assert(mid[p + q] == r[q]);
        }
        lemma_nullable_intro(g, k);
        assert forall|q: int| 0 <= q < s.len() implies nullable(g, #[trigger] s[q]) by {
            if q < p {
                assert(mid[q] == s[q]);
            } else if q > p {
                assert(mid[q - 1 + r.len()] == s[q]);
            }
        }
    }
}

/// A symbol can vanish, as FIRST understands it, exactly when some
/// derivation from it produces the empty string.
pub proof fn lemma_nullable_is_derivation(g: GramView, x: SymView)
    ensures
        nullable(g, x) <==> derives_empty(g, x),
{
    if nullable(g, x) {
        let h = choose|h: nat| nullable_within(g, x, h);
        let alpha = seq![x];
        assert(all_nullable_within(g, alpha, h));
        let n = lemma_vanish(g, alpha, h);
    }
    if derives_empty(g, x) {
        let n = choose|n: nat| derives_in(g, seq![x], Seq::<SymView>::empty(), n);
        lemma_vanished(g, seq![x], n);
        assert(seq![x][0] == x);
    }
}

/// The FIRST set of a symbol holds the empty-string mark exactly when some
/// derivation from the symbol produces the empty string.
pub proof fn lemma_first_epsilon(g: &Gram, first_sets: &FirstSets, x: SymView)
    requires
        first_sets.is_first_of(g),
    ensures
        first_sets.has(x, FstView::Epsilon) <==> derives_empty(g@, x),
{
    first_sets.lemma_is_first(g);
    lemma_nullable_is_derivation(g@, x);
}

/// The FOLLOW set of the start symbol holds the end mark, whatever the
/// grammar.
pub proof fn lemma_follow_of_start(g: &Gram, follow_sets: &FollowSets)
    requires
        follow_sets.is_follow_of(g),
    ensures
        follow_sets.has(g@.start, Lookahead::EndMarker),
{
    follow_sets.lemma_is_follow(g);
    lemma_follow_start(g@);
}

/// Building the prediction table twice from one grammar ends the same way
/// twice: in the same table, or in the same rule.
pub proof fn lemma_prediction_repeats(
    g: GramView,
    r1: Result<Map<(SymView, Lookahead), ProdView>, TrapCodeView>,
    r2: Result<Map<(SymView, Lookahead), ProdView>, TrapCodeView>,
)
    requires
        prediction_outcome(g, r1),
        prediction_outcome(g, r2),
    ensures
        r1 == r2,
{
    if r1 is Err {
        let k1 = choose|k: int|
            #[trigger] first_collision(g, k) && r1->Err_0 == TrapCodeView::AmbigousLLRule(
                g.prods[k].text(),
            );
        assert(collides_at(g, k1));
        assert(conflict(g));
    }
    if r2 is Err {
        let k2 = choose|k: int|
            #[trigger] first_collision(g, k) && r2->Err_0 == TrapCodeView::AmbigousLLRule(
                g.prods[k].text(),
            );
        assert(collides_at(g, k2));
        assert(conflict(g));
    }
    if r1 is Err && r2 is Err {
        let k1 = choose|k: int|
            #[trigger] first_collision(g, k) && r1->Err_0 == TrapCodeView::AmbigousLLRule(
                g.prods[k].text(),
            );
        let k2 = choose|k: int|
            #[trigger] first_collision(g, k) && r2->Err_0 == TrapCodeView::AmbigousLLRule(
                g.prods[k].text(),
            );
        if k1 < k2 {
            assert(!collides_at(g, k1));
        }
        if k2 < k1 {
            assert(!collides_at(g, k2));
        }
    }
}

/// Two different productions of one nonterminal whose FIRST sets share a
/// terminal make the grammar collide, so no parser is built for it.
pub proof fn lemma_first_overlap_conflicts(g: GramView, k1: int, k2: int, t: Seq<char>)
    requires
        0 <= k1 < g.prods.len(),
        0 <= k2 < g.prods.len(),
        g.prods[k1] != g.prods[k2],
        g.lhs(k1) == g.lhs(k2),
        in_first_seq(g, g.rhs(k1), FstView::Sym(t)),
        in_first_seq(g, g.rhs(k2), FstView::Sym(t)),
    ensures
        conflict(g),
{
    let f = Lookahead::Sym(t);
    assert(claims(g, k1, f));
    assert(claims(g, k2, f));
    if k1 < k2 {
        assert(collides_at(g, k2));
    } else {
        assert(collides_at(g, k1));
    }
}

/// With no token left, a derivation ends with a tree or with an unfinished
/// production, and in no other way.
proof fn lemma_exhausted(
    g: GramView,
    toks: Seq<TokenView>,
    below: Seq<FrameView>,
    top: FrameView,
    i: nat,
)
    requires
        g.well_formed(),
        !conflict(g),
        i >= toks.len(),
    ensures
        run(g, toks, below, top, i) is Ok || run(g, toks, below, top, i) matches Err(
            ParseErrorView::Unfinished { .. },
        ),
    decreases steps(g, toks, below, top, i),
{
    let table = predict_table(g);
    if top.pending.len() == 0 {
        if below.len() > 0 {
            let parent = below.last();
            let joined = FrameView {
                node: parent.node.with_kid((top.node.sym, NodeView::Tree(top.node))),
                pending: parent.pending,
            };
            lemma_exhausted(g, toks, below.drop_last(), joined, i);
        }
    } else {
        let s = top.pending[0];
        if table.dom().contains((s, Lookahead::EndMarker)) {
            let rest = FrameView { node: top.node, pending: top.pending.drop_first() };
            lemma_exhausted(g, toks, below, rest, i);
        }
    }
}

/// A derivation over the first `m` tokens of a sequence that a derivation
/// turns into a tree ends with a tree or with an unfinished production.
proof fn lemma_prefix_run(
    g: GramView,
    toks: Seq<TokenView>,
    m: int,
    below: Seq<FrameView>,
    top: FrameView,
    i: nat,
)
    requires
        g.well_formed(),
        !conflict(g),
        0 <= i <= m < toks.len(),
        run(g, toks, below, top, i) is Ok,
    ensures
        run(g, toks.take(m), below, top, i) is Ok || run(g, toks.take(m), below, top, i) matches Err(
            ParseErrorView::Unfinished { .. },
        ),
    decreases steps(g, toks, below, top, i),
{
    let table = predict_table(g);
    let part = toks.take(m);
    if i == m {
        lemma_exhausted(g, part, below, top, i);
    } else {
        assert(part[i as int] == toks[i as int]);
        if top.pending.len() == 0 {
            if below.len() > 0 {
                let parent = below.last();
                let joined = FrameView {
                    node: parent.node.with_kid((top.node.sym, NodeView::Tree(top.node))),
                    pending: parent.pending,
                };
                lemma_prefix_run(g, toks, m, below.drop_last(), joined, i);
            }
        } else {
            let s = top.pending[0];
            let rest = FrameView { node: top.node, pending: top.pending.drop_first() };
            if s is Terminal {
                if s == SymView::Terminal(toks[i as int].name) {
                    let fed = FrameView {
                        node: top.node.with_kid((s, NodeView::Leaf(toks[i as int]))),
                        pending: rest.pending,
                    };
                    lemma_prefix_run(g, toks, m, below, fed, i + 1);
                }
            } else {
                let key = (s, Lookahead::Sym(toks[i as int].name));
                if table.dom().contains(key) {
                    match table[key].rhs {
                        SymStrView::Epsilon => {
                            lemma_prefix_run(g, toks, m, below, rest, i);
                        },
                        SymStrView::Str(v) => {
                            let opened = FrameView { node: TreeView::bare(s), pending: v };
                            lemma_prefix_run(g, toks, m, below.push(rest), opened, i);
                        },
                    }
                }
            }
        }
    }
}

/// The first `m` tokens of a sequence that parses, where `m` is neither 0
/// nor the whole length, parse too or fail with an unfinished production.
pub proof fn lemma_strict_prefix(g: GramView, toks: Seq<TokenView>, m: int)
    requires
        g.well_formed(),
        !conflict(g),
        0 < m < toks.len(),
        parse_spec(g, toks) is Ok,
    ensures
        parse_spec(g, toks.take(m)) is Ok || parse_spec(g, toks.take(m)) matches Err(
            ParseErrorView::Unfinished { .. },
        ),
{
    let part = toks.take(m);
    assert(part[0] == toks[0]);
    let table = predict_table(g);
    let key = (g.start, Lookahead::Sym(toks[0].name));
    let root = FrameView { node: TreeView::bare(g.start), pending: table[key].rhs.syms() };
    lemma_prefix_run(g, toks, m, Seq::empty(), root, 0);
}

/// The first `m` tokens of a sequence that parses, where `m` is neither 0
/// nor the whole length and the grammar does not generate those tokens by
/// themselves, fail with an unfinished production.
pub proof fn lemma_strict_prefix_unfinished(g: GramView, toks: Seq<TokenView>, m: int)
    requires
        g.well_formed(),
        !conflict(g),
        0 < m < toks.len(),
        parse_spec(g, toks) is Ok,
        !generates(g, toks.take(m)),
    ensures
        parse_spec(g, toks.take(m)) matches Err(ParseErrorView::Unfinished { .. }),
{
    lemma_strict_prefix(g, toks, m);
    if parse_spec(g, toks.take(m)) is Ok {
        lemma_parse_generates(g, toks.take(m));
    }
}

/// Tokens that the grammar does not generate do not parse: whatever stands
/// behind a sentence, or in place of it, is refused.
pub proof fn lemma_only_sentences_parse(g: GramView, toks: Seq<TokenView>)
    requires
        g.well_formed(),
        !conflict(g),
        !generates(g, toks),
    ensures
        parse_spec(g, toks) is Err,
{
    if parse_spec(g, toks) is Ok {
        lemma_parse_generates(g, toks);
    }
}

/// Tokens that a grammar without collisions generates parse into a tree
/// that the grammar builds from its start symbol, with the tokens as its
/// leaves, in order.
pub proof fn lemma_round_trip(g: GramView, toks: Seq<TokenView>)
    requires
        g.well_formed(),
        !conflict(g),
        toks.len() > 0,
        generates(g, toks),
    ensures
        parse_spec(g, toks) matches Ok(t) && valid_tree(g, t) && leaves(t) == toks && t.sym
            == g.start,
{
    lemma_sentences_parse(g, toks);
    lemma_parse_sound(g, toks);
}

/// No tokens at all fail as empty input, whatever the grammar.
pub proof fn lemma_empty_input(g: GramView)
    ensures
        parse_spec(g, Seq::<TokenView>::empty()) == Err::<TreeView, ParseErrorView>(
            ParseErrorView::EmptyTokens,
        ),
{
}

} // verus!
