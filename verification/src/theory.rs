//! What FIRST, FOLLOW and the prediction table of a grammar are, stated over
//! derivations of bounded height, and the facts about them that the
//! computations rest on.
use crate::gram::{GramView, ProdView, SymView};
use vstd::prelude::*;

verus! {

/// An element of a FIRST set: a terminal's name, or the mark that the empty
/// string can be derived.
pub enum FstView {
    Sym(Seq<char>),
    Epsilon,
}

/// What the parser looks at to pick a production, and an element of a FOLLOW
/// set: a terminal's name, or the end of the input.
pub enum Lookahead {
    Sym(Seq<char>),
    EndMarker,
}

/// `x` derives the empty string by a derivation tree of height at most `n`.
pub open spec fn nullable_within(g: GramView, x: SymView, n: nat) -> bool
    decreases n, 0nat,
{
    &&& x is NonTerminal
    &&& n > 0
    &&& exists|k: int|
        0 <= k < g.prods.len() && #[trigger] g.lhs(k) == x && all_nullable_within(
            g,
            g.rhs(k),
            (n - 1) as nat,
        )
}

/// Every symbol of `alpha` derives the empty string within height `n`.
pub open spec fn all_nullable_within(g: GramView, alpha: Seq<SymView>, n: nat) -> bool
    decreases n, 1nat,
{
    forall|q: int| 0 <= q < alpha.len() ==> nullable_within(g, #[trigger] alpha[q], n)
}

/// Some derivation from `x` produces the empty string.
pub open spec fn nullable(g: GramView, x: SymView) -> bool {
    exists|n: nat| nullable_within(g, x, n)
}

/// Every symbol of `alpha` can vanish, so `alpha` can.
pub open spec fn seq_nullable(g: GramView, alpha: Seq<SymView>) -> bool {
    forall|q: int| 0 <= q < alpha.len() ==> nullable(g, #[trigger] alpha[q])
}

/// Terminal `t` can begin what `x` derives, shown by a derivation of height at
/// most `n`.
pub open spec fn starts_within(g: GramView, x: SymView, t: Seq<char>, n: nat) -> bool
    decreases n, 0nat,
{
    ||| x == SymView::Terminal(t)
    ||| {
        &&& x is NonTerminal
        &&& n > 0
        &&& exists|k: int|
            0 <= k < g.prods.len() && #[trigger] g.lhs(k) == x && seq_starts_within(
                g,
                g.rhs(k),
                t,
                (n - 1) as nat,
            )
    }
}

/// Terminal `t` can begin what `alpha` derives: some symbol of `alpha` can
/// begin with it and all before that symbol can vanish.
pub open spec fn seq_starts_within(g: GramView, alpha: Seq<SymView>, t: Seq<char>, n: nat) -> bool
    decreases n, 1nat,
{
    exists|q: int|
        0 <= q < alpha.len() && starts_within(g, #[trigger] alpha[q], t, n) && seq_nullable(
            g,
            alpha.take(q),
        )
}

pub open spec fn starts(g: GramView, x: SymView, t: Seq<char>) -> bool {
    exists|n: nat| starts_within(g, x, t, n)
}

pub open spec fn seq_starts(g: GramView, alpha: Seq<SymView>, t: Seq<char>) -> bool {
    exists|q: int|
        0 <= q < alpha.len() && starts(g, #[trigger] alpha[q], t) && seq_nullable(g, alpha.take(q))
}

/// `e` is in FIRST(`x`).
pub open spec fn in_first(g: GramView, x: SymView, e: FstView) -> bool {
    match e {
        FstView::Epsilon => nullable(g, x),
        FstView::Sym(t) => starts(g, x, t),
    }
}

/// `e` is in FIRST(`alpha`).
pub open spec fn in_first_seq(g: GramView, alpha: Seq<SymView>, e: FstView) -> bool {
    match e {
        FstView::Epsilon => seq_nullable(g, alpha),
        FstView::Sym(t) => seq_starts(g, alpha, t),
    }
}

/// `f` can follow `a`, shown by at most `n` steps from one production to the
/// symbol on its left.
pub open spec fn follows_within(g: GramView, a: SymView, f: Lookahead, n: nat) -> bool
    decreases n,
{
    ||| (a == g.start && f is EndMarker)
    ||| {
        &&& a is NonTerminal
        &&& n > 0
        &&& exists|k: int, p: int|
            0 <= k < g.prods.len() && 0 <= p < g.rhs(k).len() && #[trigger] g.rhs(k)[p] == a && ({
                ||| (f matches Lookahead::Sym(t) && seq_starts(g, g.rhs(k).skip(p + 1), t))
                ||| (seq_nullable(g, g.rhs(k).skip(p + 1)) && follows_within(
                    g,
                    g.lhs(k),
                    f,
                    (n - 1) as nat,
                ))
            })
    }
}

/// `f` is in FOLLOW(`a`).
pub open spec fn in_follow(g: GramView, a: SymView, f: Lookahead) -> bool {
    exists|n: nat| follows_within(g, a, f, n)
}

/// Production `k` asks for the table slot of its left symbol under lookahead
/// `f`.
pub open spec fn claims(g: GramView, k: int, f: Lookahead) -> bool {
    ||| (f matches Lookahead::Sym(t) && seq_starts(g, g.rhs(k), t))
    ||| (seq_nullable(g, g.rhs(k)) && in_follow(g, g.lhs(k), f))
}

/// Production `k` asks for a slot that a different, earlier production asks
/// for too.
pub open spec fn collides_at(g: GramView, k: int) -> bool {
    exists|k2: int, f: Lookahead|
        0 <= k2 < k && g.prods[k2] != g.prods[k] && g.lhs(k2) == g.lhs(k) && #[trigger] claims(
            g,
            k2,
            f,
        ) && claims(g, k, f)
}

/// Two different productions ask for one slot: the grammar is not LL(1).
pub open spec fn conflict(g: GramView) -> bool {
    exists|k: int| 0 <= k < g.prods.len() && #[trigger] collides_at(g, k)
}

/// Production `p` of the grammar asks for the slot of `a` under `f`.
pub open spec fn predicted(g: GramView, a: SymView, f: Lookahead, p: ProdView) -> bool {
    exists|k: int|
        0 <= k < g.prods.len() && g.prods[k] == p && g.lhs(k) == a && #[trigger] claims(g, k, f)
}

/// The prediction table of a grammar: each slot that some production asks for,
/// with that production.
pub open spec fn predict_table(g: GramView) -> Map<(SymView, Lookahead), ProdView> {
    Map::new(
        |key: (SymView, Lookahead)| exists|p: ProdView| predicted(g, key.0, key.1, p),
        |key: (SymView, Lookahead)| choose|p: ProdView| predicted(g, key.0, key.1, p),
    )
}

pub proof fn lemma_nullable_mono(g: GramView, x: SymView, n: nat, m: nat)
    requires
        nullable_within(g, x, n),
        n <= m,
    ensures
        nullable_within(g, x, m),
    decreases n,
{
    let k = choose|k: int|
        0 <= k < g.prods.len() && #[trigger] g.lhs(k) == x && all_nullable_within(
            g,
            g.rhs(k),
            (n - 1) as nat,
        );
    assert forall|q: int| 0 <= q < g.rhs(k).len() implies nullable_within(
        g,
        #[trigger] g.rhs(k)[q],
        (m - 1) as nat,
    ) by {
        lemma_nullable_mono(g, g.rhs(k)[q], (n - 1) as nat, (m - 1) as nat);
    }
    assert(g.lhs(k) == x && all_nullable_within(g, g.rhs(k), (m - 1) as nat));
}

pub proof fn lemma_all_nullable_bound(g: GramView, alpha: Seq<SymView>) -> (n: nat)
    requires
        seq_nullable(g, alpha),
    ensures
        all_nullable_within(g, alpha, n),
    decreases alpha.len(),
{
    if alpha.len() == 0 {
        0
    } else {
        let front = alpha.drop_last();
        assert forall|q: int| 0 <= q < front.len() implies nullable(g, #[trigger] front[q]) by {
            assert(front[q] == alpha[q]);
        }
        let n1 = lemma_all_nullable_bound(g, front);
        let x = alpha.last();
        assert(nullable(g, x));
        let n2 = choose|n: nat| nullable_within(g, x, n);
        let n = if n1 <= n2 {
            n2
        } else {
            n1
        };
        assert forall|q: int| 0 <= q < alpha.len() implies nullable_within(
            g,
            #[trigger] alpha[q],
            n,
        ) by {
            if q < alpha.len() - 1 {
                assert(front[q] == alpha[q]);
                lemma_nullable_mono(g, alpha[q], n1, n);
            } else {
                lemma_nullable_mono(g, alpha[q], n2, n);
            }
        }
        n
    }
}

/// A nonterminal with a production whose symbols can all vanish can vanish.
pub proof fn lemma_nullable_intro(g: GramView, k: int)
    requires
        0 <= k < g.prods.len(),
        g.lhs(k) is NonTerminal,
        seq_nullable(g, g.rhs(k)),
    ensures
        nullable(g, g.lhs(k)),
{
    let n = lemma_all_nullable_bound(g, g.rhs(k));
    assert(nullable_within(g, g.lhs(k), n + 1));
}

pub open spec fn all_in(ns: Set<SymView>, alpha: Seq<SymView>) -> bool {
    forall|q: int| 0 <= q < alpha.len() ==> ns.contains(#[trigger] alpha[q])
}

/// `ns` holds the left symbol of each production whose right symbols it holds.
pub open spec fn closed_null(g: GramView, ns: Set<SymView>) -> bool {
    forall|k: int|
        0 <= k < g.prods.len() && all_in(ns, g.rhs(k)) ==> ns.contains(#[trigger] g.lhs(k))
}

/// Every symbol that can vanish is in every set closed under the productions.
pub proof fn lemma_null_complete(g: GramView, ns: Set<SymView>, x: SymView, n: nat)
    requires
        closed_null(g, ns),
        nullable_within(g, x, n),
    ensures
        ns.contains(x),
    decreases n,
{
    let k = choose|k: int|
        0 <= k < g.prods.len() && #[trigger] g.lhs(k) == x && all_nullable_within(
            g,
            g.rhs(k),
            (n - 1) as nat,
        );
    assert forall|q: int| 0 <= q < g.rhs(k).len() implies ns.contains(#[trigger] g.rhs(k)[q]) by {
        lemma_null_complete(g, ns, g.rhs(k)[q], (n - 1) as nat);
    }
    assert(all_in(ns, g.rhs(k)));
    assert(ns.contains(g.lhs(k)));
}

/// A nonterminal can begin with what a symbol of one of its productions can
/// begin with, when all before that symbol can vanish.
pub proof fn lemma_starts_intro(g: GramView, k: int, q: int, t: Seq<char>)
    requires
        0 <= k < g.prods.len(),
        g.lhs(k) is NonTerminal,
        0 <= q < g.rhs(k).len(),
        starts(g, g.rhs(k)[q], t),
        seq_nullable(g, g.rhs(k).take(q)),
    ensures
        starts(g, g.lhs(k), t),
{
    let n = choose|n: nat| starts_within(g, g.rhs(k)[q], t, n);
    assert(seq_starts_within(g, g.rhs(k), t, n));
    assert(starts_within(g, g.lhs(k), t, n + 1));
}

pub open spec fn sym_starts_in(ss: Set<(SymView, Seq<char>)>, y: SymView, t: Seq<char>) -> bool {
    y == SymView::Terminal(t) || ss.contains((y, t))
}

/// `ss` holds each pair that one production step gives from pairs it holds.
pub open spec fn closed_starts(g: GramView, ss: Set<(SymView, Seq<char>)>) -> bool {
    forall|k: int, q: int, t: Seq<char>|
        0 <= k < g.prods.len() && 0 <= q < g.rhs(k).len() && #[trigger] sym_starts_in(
            ss,
            g.rhs(k)[q],
            t,
        ) && seq_nullable(g, g.rhs(k).take(q)) ==> ss.contains((g.lhs(k), t))
}

/// Whatever a symbol can begin with is in every set closed under the
/// productions.
pub proof fn lemma_starts_complete(
    g: GramView,
    ss: Set<(SymView, Seq<char>)>,
    x: SymView,
    t: Seq<char>,
    n: nat,
)
    requires
        closed_starts(g, ss),
        starts_within(g, x, t, n),
    ensures
        sym_starts_in(ss, x, t),
    decreases n,
{
    if x != SymView::Terminal(t) {
        let k = choose|k: int|
            0 <= k < g.prods.len() && #[trigger] g.lhs(k) == x && seq_starts_within(
                g,
                g.rhs(k),
                t,
                (n - 1) as nat,
            );
        let alpha = g.rhs(k);
        let q = choose|q: int|
            0 <= q < alpha.len() && starts_within(g, #[trigger] alpha[q], t, (n - 1) as nat)
                && seq_nullable(g, alpha.take(q));
        lemma_starts_complete(g, ss, alpha[q], t, (n - 1) as nat);
        assert(sym_starts_in(ss, g.rhs(k)[q], t));
    }
}

/// The end of the input can follow the start symbol.
pub proof fn lemma_follow_start(g: GramView)
    ensures
        in_follow(g, g.start, Lookahead::EndMarker),
{
    assert(follows_within(g, g.start, Lookahead::EndMarker, 0));
}

/// What can begin the rest of a production can follow the nonterminal before
/// that rest.
pub proof fn lemma_follow_intro_first(g: GramView, k: int, p: int, t: Seq<char>)
    requires
        0 <= k < g.prods.len(),
        0 <= p < g.rhs(k).len(),
        g.rhs(k)[p] is NonTerminal,
        seq_starts(g, g.rhs(k).skip(p + 1), t),
    ensures
        in_follow(g, g.rhs(k)[p], Lookahead::Sym(t)),
{
    assert(follows_within(g, g.rhs(k)[p], Lookahead::Sym(t), 1));
}

/// What can follow the left symbol can follow a nonterminal after which the
/// rest of the production can vanish.
pub proof fn lemma_follow_intro_lhs(g: GramView, k: int, p: int, f: Lookahead)
    requires
        0 <= k < g.prods.len(),
        0 <= p < g.rhs(k).len(),
        g.rhs(k)[p] is NonTerminal,
        seq_nullable(g, g.rhs(k).skip(p + 1)),
        in_follow(g, g.lhs(k), f),
    ensures
        in_follow(g, g.rhs(k)[p], f),
{
    let n = choose|n: nat| follows_within(g, g.lhs(k), f, n);
    assert(follows_within(g, g.rhs(k)[p], f, n + 1));
}

/// `fs` holds the end mark for the start symbol and each pair that one
/// production gives from pairs it holds.
pub open spec fn closed_follow(g: GramView, fs: Set<(SymView, Lookahead)>) -> bool {
    &&& fs.contains((g.start, Lookahead::EndMarker))
    &&& forall|k: int, p: int, t: Seq<char>|
        0 <= k < g.prods.len() && 0 <= p < g.rhs(k).len() && g.rhs(k)[p] is NonTerminal
            && seq_starts(g, g.rhs(k).skip(p + 1), t) ==> #[trigger] fs.contains(
            (g.rhs(k)[p], Lookahead::Sym(t)),
        )
    &&& forall|k: int, p: int, f: Lookahead|
        0 <= k < g.prods.len() && 0 <= p < g.rhs(k).len() && g.rhs(k)[p] is NonTerminal
            && seq_nullable(g, g.rhs(k).skip(p + 1)) && fs.contains((g.lhs(k), f))
            ==> #[trigger] fs.contains((g.rhs(k)[p], f))
}

/// Whatever can follow a symbol is in every set closed under the productions.
pub proof fn lemma_follow_complete(
    g: GramView,
    fs: Set<(SymView, Lookahead)>,
    a: SymView,
    f: Lookahead,
    n: nat,
)
    requires
        closed_follow(g, fs),
        follows_within(g, a, f, n),
    ensures
        fs.contains((a, f)),
    decreases n,
{
    if !(a == g.start && f is EndMarker) {
        let (k, p) = choose|k: int, p: int|
            0 <= k < g.prods.len() && 0 <= p < g.rhs(k).len() && #[trigger] g.rhs(k)[p] == a && ({
                ||| (f matches Lookahead::Sym(t) && seq_starts(g, g.rhs(k).skip(p + 1), t))
                ||| (seq_nullable(g, g.rhs(k).skip(p + 1)) && follows_within(
                    g,
                    g.lhs(k),
                    f,
                    (n - 1) as nat,
                ))
            });
        if f is Sym && seq_starts(g, g.rhs(k).skip(p + 1), f->Sym_0) {
            assert(fs.contains((g.rhs(k)[p], Lookahead::Sym(f->Sym_0))));
        } else {
            lemma_follow_complete(g, fs, g.lhs(k), f, (n - 1) as nat);
            assert(fs.contains((g.rhs(k)[p], f)));
        }
    }
}

/// In a grammar without collisions, two productions of one nonterminal that
/// ask for one slot say the same.
pub proof fn lemma_claimants_agree(g: GramView, k1: int, k2: int, f: Lookahead)
    requires
        !conflict(g),
        0 <= k1 < g.prods.len(),
        0 <= k2 < g.prods.len(),
        g.lhs(k1) == g.lhs(k2),
        claims(g, k1, f),
        claims(g, k2, f),
    ensures
        g.prods[k1] == g.prods[k2],
{
    if g.prods[k1] != g.prods[k2] {
        if k1 < k2 {
            assert(collides_at(g, k2));
        } else {
            assert(collides_at(g, k1));
        }
    }
}

/// A table entry is a production of the grammar for the entry's nonterminal.
pub proof fn lemma_entry(g: GramView, s: SymView, f: Lookahead) -> (k: int)
    requires
        predict_table(g).dom().contains((s, f)),
    ensures
        0 <= k < g.prods.len(),
        g.prods[k] == predict_table(g)[(s, f)],
        g.lhs(k) == s,
        claims(g, k, f),
{
    let p = predict_table(g)[(s, f)];
    assert(predicted(g, s, f, p));
    choose|k: int|
        0 <= k < g.prods.len() && g.prods[k] == p && g.lhs(k) == s && #[trigger] claims(g, k, f)
}

/// A nonterminal with an entry under the end mark can vanish.
pub proof fn lemma_end_entry_nullable(g: GramView, s: SymView)
    requires
        g.well_formed(),
        predict_table(g).dom().contains((s, Lookahead::EndMarker)),
    ensures
        nullable(g, s),
{
    let k = lemma_entry(g, s, Lookahead::EndMarker);
    lemma_nullable_intro(g, k);
}

/// A nonterminal whose entry is the empty production can vanish.
pub proof fn lemma_eps_entry_nullable(g: GramView, s: SymView, f: Lookahead)
    requires
        g.well_formed(),
        predict_table(g).dom().contains((s, f)),
        predict_table(g)[(s, f)].rhs is Epsilon,
    ensures
        nullable(g, s),
{
    let k = lemma_entry(g, s, f);
    assert(g.rhs(k) =~= Seq::empty());
    lemma_nullable_intro(g, k);
}

} // verus!
