//! Why a derivation ends: between two tokens, each expansion takes a
//! nonterminal of lower rank than the one it came from, so only so many
//! subtrees can be opened before the next token is read.
use crate::gram::{GramView, SymView};
use crate::machine::FrameView;
use crate::theory::{
    Lookahead, all_nullable_within, claims, conflict, in_follow, lemma_claimants_agree,
    lemma_follow_intro_first, lemma_follow_intro_lhs, lemma_nullable_intro, lemma_nullable_mono,
    lemma_starts_intro, nullable, nullable_within, seq_nullable, seq_starts, seq_starts_within,
    starts, starts_within,
};
use vstd::prelude::*;

verus! {

pub open spec fn pow(b: nat, n: nat) -> nat
    decreases n,
{
    if n == 0 {
        1
    } else {
        b * pow(b, (n - 1) as nat)
    }
}

pub proof fn lemma_pow_pos(b: nat, n: nat)
    requires
        b >= 1,
    ensures
        pow(b, n) >= 1,
    decreases n,
{
    if n > 0 {
        lemma_pow_pos(b, (n - 1) as nat);
        assert(b * pow(b, (n - 1) as nat) >= 1) by (nonlinear_arith)
            requires
                b >= 1,
                pow(b, (n - 1) as nat) >= 1,
        ;
    }
}

pub proof fn lemma_pow_mono(b: nat, m: nat, n: nat)
    requires
        b >= 1,
        m <= n,
    ensures
        pow(b, m) <= pow(b, n),
    decreases n,
{
    if m < n {
        lemma_pow_mono(b, m, (n - 1) as nat);
        lemma_pow_pos(b, (n - 1) as nat);
        assert(pow(b, (n - 1) as nat) <= b * pow(b, (n - 1) as nat)) by (nonlinear_arith)
            requires
                b >= 1,
                pow(b, (n - 1) as nat) >= 1,
        ;
    }
}

/// The length of the longest right side among the first `m` productions.
pub open spec fn widest(g: GramView, m: nat) -> nat
    decreases m,
{
    if m == 0 {
        0
    } else if g.rhs(m - 1).len() > widest(g, (m - 1) as nat) {
        g.rhs(m - 1).len()
    } else {
        widest(g, (m - 1) as nat)
    }
}

pub proof fn lemma_widest(g: GramView, m: nat, k: int)
    requires
        0 <= k < m,
    ensures
        g.rhs(k).len() <= widest(g, m),
    decreases m,
{
    if k < m - 1 {
        lemma_widest(g, (m - 1) as nat, k);
    }
}

/// The base in which costs are counted: more than any right side is long.
pub open spec fn base(g: GramView) -> nat {
    widest(g, g.prods.len()) + 2
}

pub open spec fn is_least(p: spec_fn(nat) -> bool, n: nat) -> bool {
    p(n) && forall|m: nat| m < n ==> !#[trigger] p(m)
}

/// The least number of which `p` holds.
pub open spec fn least(p: spec_fn(nat) -> bool) -> nat {
    choose|n: nat| is_least(p, n)
}

pub proof fn lemma_least(p: spec_fn(nat) -> bool, n: nat)
    requires
        p(n),
    ensures
        is_least(p, least(p)),
        least(p) <= n,
    decreases n,
{
    if forall|m: nat| m < n ==> !#[trigger] p(m) {
        assert(is_least(p, n));
    } else {
        let m = choose|m: nat| m < n && #[trigger] p(m);
        lemma_least(p, m);
    }
    let l = least(p);
    if l > n {
        assert(!p(n));
    }
}

/// The height of the lowest derivation that shows `x` to begin with `t`.
pub open spec fn start_height(g: GramView, x: SymView, t: Seq<char>) -> nat {
    least(|n: nat| starts_within(g, x, t, n))
}

/// The height of the lowest derivation that shows `x` to vanish.
pub open spec fn null_height(g: GramView, x: SymView) -> nat {
    least(|n: nat| nullable_within(g, x, n))
}

pub proof fn lemma_start_height(g: GramView, x: SymView, t: Seq<char>, n: nat)
    requires
        starts_within(g, x, t, n),
    ensures
        starts_within(g, x, t, start_height(g, x, t)),
        start_height(g, x, t) <= n,
{
    let p = |n: nat| starts_within(g, x, t, n);
    assert(p(n));
    lemma_least(p, n);
    assert(p(least(p)));
}

pub proof fn lemma_null_height(g: GramView, x: SymView, n: nat)
    requires
        nullable_within(g, x, n),
    ensures
        nullable_within(g, x, null_height(g, x)),
        null_height(g, x) <= n,
{
    let p = |n: nat| nullable_within(g, x, n);
    assert(p(n));
    lemma_least(p, n);
    assert(p(least(p)));
}

/// In a grammar without collisions a symbol that can vanish and can begin
/// with `t` is not followed by `t`.
pub proof fn lemma_no_nullable_start(g: GramView, x: SymView, t: Seq<char>, n: nat)
    requires
        g.well_formed(),
        !conflict(g),
        nullable(g, x),
        starts_within(g, x, t, n),
    ensures
        !in_follow(g, x, Lookahead::Sym(t)),
    decreases n,
{
    let f = Lookahead::Sym(t);
    if in_follow(g, x, f) {
        let h = choose|h: nat| nullable_within(g, x, h);
        let k1 = choose|k: int|
            0 <= k < g.prods.len() && #[trigger] g.lhs(k) == x && seq_starts_within(
                g,
                g.rhs(k),
                t,
                (n - 1) as nat,
            );
        let alpha = g.rhs(k1);
        let q = choose|q: int|
            0 <= q < alpha.len() && starts_within(g, #[trigger] alpha[q], t, (n - 1) as nat)
                && seq_nullable(g, alpha.take(q));
        assert(starts(g, alpha[q], t));
        assert(seq_starts(g, alpha, t));
        assert(claims(g, k1, f));
        let k2 = choose|k: int|
            0 <= k < g.prods.len() && #[trigger] g.lhs(k) == x && all_nullable_within(
                g,
                g.rhs(k),
                (h - 1) as nat,
            );
        assert forall|j: int| 0 <= j < g.rhs(k2).len() implies nullable(
            g,
            #[trigger] g.rhs(k2)[j],
        ) by {
            assert(nullable_within(g, g.rhs(k2)[j], (h - 1) as nat));
        }
        assert(claims(g, k2, f));
        lemma_claimants_agree(g, k1, k2, f);
        assert(nullable(g, alpha[q]));
        assert forall|j: int| 0 <= j < alpha.skip(q + 1).len() implies nullable(
            g,
            #[trigger] alpha.skip(q + 1)[j],
        ) by {
            assert(alpha.skip(q + 1)[j] == alpha[q + 1 + j]);
        }
        lemma_follow_intro_lhs(g, k1, q, f);
        lemma_no_nullable_start(g, alpha[q], t, (n - 1) as nat);
    }
}

/// What a symbol may cost: for one that begins with `t`, by the height
/// that shows it (`first` costs); for one that only vanishes, by the height
/// that shows that (the other costs).
pub open spec fn cost(g: GramView, t: Seq<char>, first: bool, x: SymView) -> nat {
    if x is Terminal {
        0
    } else if starts(g, x, t) {
        if first {
            pow(base(g), start_height(g, x, t))
        } else {
            0
        }
    } else if nullable(g, x) {
        if first {
            0
        } else {
            pow(base(g), null_height(g, x))
        }
    } else {
        0
    }
}

/// The costs of the symbols of `p` that can be reached before a token is
/// read: each one up to the first that cannot vanish.
pub open spec fn phi(g: GramView, t: Seq<char>, first: bool, p: Seq<SymView>) -> nat
    decreases p.len(),
{
    if p.len() == 0 {
        0
    } else {
        cost(g, t, first, p[0]) + if nullable(g, p[0]) {
            phi(g, t, first, p.drop_first())
        } else {
            0
        }
    }
}

/// The costs of what the frames wait for, from the top-most frame down as
/// far as the frames above can vanish.
pub open spec fn stack_phi(g: GramView, t: Seq<char>, first: bool, frames: Seq<FrameView>) -> nat
    decreases frames.len(),
{
    if frames.len() == 0 {
        0
    } else {
        phi(g, t, first, frames.last().pending) + if seq_nullable(g, frames.last().pending) {
            stack_phi(g, t, first, frames.drop_last())
        } else {
            0
        }
    }
}

/// Costs of reachable symbols that are each at most `c` sum to at most the
/// length times `c`.
proof fn lemma_phi_bound(g: GramView, t: Seq<char>, first: bool, p: Seq<SymView>, c: nat)
    requires
        forall|j: int|
            0 <= j < p.len() && seq_nullable(g, p.take(j)) ==> cost(g, t, first, #[trigger] p[j])
                <= c,
    ensures
        phi(g, t, first, p) <= p.len() * c,
    decreases p.len(),
{
    if p.len() > 0 {
        assert(p.take(0) =~= Seq::empty());
        assert(cost(g, t, first, p[0]) <= c);
        let rest = p.drop_first();
        if nullable(g, p[0]) {
            assert forall|j: int|
                0 <= j < rest.len() && seq_nullable(g, rest.take(j)) implies cost(
                g,
                t,
                first,
                #[trigger] rest[j],
            ) <= c by {
                assert forall|j2: int| 0 <= j2 < j + 1 implies nullable(
                    g,
                    #[trigger] p.take(j + 1)[j2],
                ) by {
                    if j2 > 0 {
                        assert(rest.take(j)[j2 - 1] == p[j2]);
                    }
                }
                assert(rest[j] == p[j + 1]);
            }
            lemma_phi_bound(g, t, first, rest, c);
        }
        assert(c + (p.len() - 1) * c == p.len() * c) by (nonlinear_arith)
            requires
                p.len() >= 1,
        ;
    } else {
        assert(p.len() * c == 0) by (nonlinear_arith)
            requires
                p.len() == 0,
        ;
    }
}

/// Fewer than `b - 1` costs of at most `b` to the `h - 1` stay under `b` to
/// the `h`.
proof fn lemma_under(b: nat, len: nat, h: nat, total: nat)
    requires
        h >= 1,
        len + 2 <= b,
        total <= len * pow(b, (h - 1) as nat),
    ensures
        total < pow(b, h),
{
    let x = pow(b, (h - 1) as nat);
    lemma_pow_pos(b, (h - 1) as nat);
    assert(len * x < b * x) by (nonlinear_arith)
        requires
            len + 2 <= b,
            x >= 1,
    ;
}

/// The right side that a symbol which begins with `t` is expanded by under
/// `t` costs less, in `first` costs, than the symbol.
proof fn lemma_first_drop(g: GramView, t: Seq<char>, k: int)
    requires
        g.well_formed(),
        !conflict(g),
        0 <= k < g.prods.len(),
        claims(g, k, Lookahead::Sym(t)),
        starts(g, g.lhs(k), t),
    ensures
        phi(g, t, true, g.rhs(k)) < cost(g, t, true, g.lhs(k)),
{
    let s = g.lhs(k);
    let f = Lookahead::Sym(t);
    let alpha = g.rhs(k);
    let n0 = choose|n: nat| starts_within(g, s, t, n);
    lemma_start_height(g, s, t, n0);
    let n = start_height(g, s, t);
    let k1 = choose|k1: int|
        0 <= k1 < g.prods.len() && #[trigger] g.lhs(k1) == s && seq_starts_within(
            g,
            g.rhs(k1),
            t,
            (n - 1) as nat,
        );
    let q = choose|q: int|
        0 <= q < g.rhs(k1).len() && starts_within(g, #[trigger] g.rhs(k1)[q], t, (n - 1) as nat)
            && seq_nullable(g, g.rhs(k1).take(q));
    assert(starts(g, g.rhs(k1)[q], t));
    assert(seq_starts(g, g.rhs(k1), t));
    assert(claims(g, k1, f));
    lemma_claimants_agree(g, k, k1, f);
    assert(g.rhs(k1) == alpha);
    let c = pow(base(g), (n - 1) as nat);
    assert forall|j: int| 0 <= j < alpha.len() && seq_nullable(g, alpha.take(j)) implies cost(
        g,
        t,
        true,
        #[trigger] alpha[j],
    ) <= c by {
        let y = alpha[j];
        if y is NonTerminal && starts(g, y, t) {
            let m = choose|m: nat| starts_within(g, y, t, m);
            if j == q {
                lemma_start_height(g, y, t, (n - 1) as nat);
                lemma_pow_mono(base(g), start_height(g, y, t), (n - 1) as nat);
            } else if j < q {
                assert(alpha.take(q)[j] == y);
                assert(nullable(g, y));
                assert(alpha.skip(j + 1)[q - j - 1] == alpha[q]);
                assert forall|j2: int| 0 <= j2 < q - j - 1 implies nullable(
                    g,
                    #[trigger] alpha.skip(j + 1).take(q - j - 1)[j2],
                ) by {
                    assert(alpha.take(q)[j + 1 + j2] == alpha[j + 1 + j2]);
                }
                assert(seq_starts(g, alpha.skip(j + 1), t));
                lemma_follow_intro_first(g, k, j, t);
                lemma_no_nullable_start(g, y, t, m);
            } else {
                let z = alpha[q];
                assert(alpha.take(j)[q] == z);
                assert(nullable(g, z));
                assert(alpha.skip(q + 1)[j - q - 1] == y);
                assert forall|j2: int| 0 <= j2 < j - q - 1 implies nullable(
                    g,
                    #[trigger] alpha.skip(q + 1).take(j - q - 1)[j2],
                ) by {
                    assert(alpha.take(j)[q + 1 + j2] == alpha[q + 1 + j2]);
                }
                assert(seq_starts(g, alpha.skip(q + 1), t));
                lemma_follow_intro_first(g, k, q, t);
                lemma_no_nullable_start(g, z, t, (n - 1) as nat);
            }
        }
    }
    lemma_phi_bound(g, t, true, alpha, c);
    lemma_widest(g, g.prods.len(), k);
    lemma_under(base(g), alpha.len(), n, phi(g, t, true, alpha));
}

/// The right side that a symbol which only vanishes is expanded by under `t`
/// costs nothing in `first` costs and less than the symbol in the other
/// costs.
proof fn lemma_second_drop(g: GramView, t: Seq<char>, k: int)
    requires
        g.well_formed(),
        !conflict(g),
        0 <= k < g.prods.len(),
        claims(g, k, Lookahead::Sym(t)),
        !starts(g, g.lhs(k), t),
    ensures
        nullable(g, g.lhs(k)),
        seq_nullable(g, g.rhs(k)),
        phi(g, t, true, g.rhs(k)) == 0,
        phi(g, t, false, g.rhs(k)) < cost(g, t, false, g.lhs(k)),
{
    let s = g.lhs(k);
    let f = Lookahead::Sym(t);
    let alpha = g.rhs(k);
    if seq_starts(g, alpha, t) {
        let q = choose|q: int|
            0 <= q < alpha.len() && starts(g, #[trigger] alpha[q], t) && seq_nullable(
                g,
                alpha.take(q),
            );
        lemma_starts_intro(g, k, q, t);
    }
    assert(seq_nullable(g, alpha));
    lemma_nullable_intro(g, k);
    let n0 = choose|n: nat| nullable_within(g, s, n);
    lemma_null_height(g, s, n0);
    let n = null_height(g, s);
    let k1 = choose|k1: int|
        0 <= k1 < g.prods.len() && #[trigger] g.lhs(k1) == s && all_nullable_within(
            g,
            g.rhs(k1),
            (n - 1) as nat,
        );
    assert forall|j: int| 0 <= j < g.rhs(k1).len() implies nullable(g, #[trigger] g.rhs(k1)[j]) by {
        assert(nullable_within(g, g.rhs(k1)[j], (n - 1) as nat));
    }
    assert(claims(g, k1, f));
    lemma_claimants_agree(g, k, k1, f);
    assert(g.rhs(k1) == alpha);
    let c = pow(base(g), (n - 1) as nat);
    assert forall|j: int| 0 <= j < alpha.len() && seq_nullable(g, alpha.take(j)) implies cost(
        g,
        t,
        true,
        #[trigger] alpha[j],
    ) <= 0 && cost(g, t, false, alpha[j]) <= c by {
        let y = alpha[j];
        if starts(g, y, t) {
            lemma_starts_intro(g, k, j, t);
        }
        assert(nullable_within(g, y, (n - 1) as nat));
        lemma_null_height(g, y, (n - 1) as nat);
        lemma_pow_mono(base(g), null_height(g, y), (n - 1) as nat);
    }
    lemma_phi_bound(g, t, true, alpha, 0);
    assert(alpha.len() * 0 == 0) by (nonlinear_arith);
    lemma_phi_bound(g, t, false, alpha, c);
    lemma_widest(g, g.prods.len(), k);
    lemma_under(base(g), alpha.len(), n, phi(g, t, false, alpha));
}

/// A string of symbols can vanish when its first symbol and the rest can.
proof fn lemma_nullable_parts(g: GramView, p: Seq<SymView>)
    requires
        p.len() > 0,
    ensures
        seq_nullable(g, p) <==> nullable(g, p[0]) && seq_nullable(g, p.drop_first()),
{
    let rest = p.drop_first();
    if seq_nullable(g, p) {
        assert forall|j: int| 0 <= j < rest.len() implies nullable(g, #[trigger] rest[j]) by {
            assert(rest[j] == p[j + 1]);
        }
    }
    if nullable(g, p[0]) && seq_nullable(g, rest) {
        assert forall|j: int| 0 <= j < p.len() implies nullable(g, #[trigger] p[j]) by {
            if j > 0 {
                assert(rest[j - 1] == p[j]);
            }
        }
    }
}

/// Passing over a symbol that can vanish does not raise the costs of the
/// stack.
pub proof fn lemma_pass_costs(
    g: GramView,
    t: Seq<char>,
    first: bool,
    below: Seq<FrameView>,
    top: FrameView,
)
    requires
        top.pending.len() > 0,
        nullable(g, top.pending[0]),
    ensures
        stack_phi(
            g,
            t,
            first,
            below.push(FrameView { node: top.node, pending: top.pending.drop_first() }),
        ) <= stack_phi(g, t, first, below.push(top)),
{
    let rest = FrameView { node: top.node, pending: top.pending.drop_first() };
    lemma_nullable_parts(g, top.pending);
    assert(below.push(top).drop_last() =~= below);
    assert(below.push(rest).drop_last() =~= below);
}

/// A complete frame joins the frame below at no change of the costs of the
/// stack.
pub proof fn lemma_join_costs(
    g: GramView,
    t: Seq<char>,
    first: bool,
    below: Seq<FrameView>,
    top: FrameView,
    joined: FrameView,
)
    requires
        top.pending.len() == 0,
        below.len() > 0,
        joined.pending == below.last().pending,
    ensures
        stack_phi(g, t, first, below.drop_last().push(joined)) == stack_phi(
            g,
            t,
            first,
            below.push(top),
        ),
{
    assert(below.push(top).drop_last() =~= below);
    assert(below.drop_last().push(joined).drop_last() =~= below.drop_last());
    assert(phi(g, t, first, top.pending) == 0);
    assert(seq_nullable(g, top.pending));
    assert(stack_phi(g, t, first, below.push(top)) == stack_phi(g, t, first, below));
}

/// Opening a subtree for the top frame's next symbol, by a production that
/// asks for the slot under `t`, lowers the costs of the stack: the `first`
/// costs, or else the other costs with the `first` costs no higher.
pub proof fn lemma_push_costs(
    g: GramView,
    t: Seq<char>,
    below: Seq<FrameView>,
    top: FrameView,
    opened: FrameView,
    k: int,
)
    requires
        g.well_formed(),
        !conflict(g),
        top.pending.len() > 0,
        0 <= k < g.prods.len(),
        g.lhs(k) == top.pending[0],
        claims(g, k, Lookahead::Sym(t)),
        opened.pending == g.rhs(k),
    ensures
        ({
            let rest = FrameView { node: top.node, pending: top.pending.drop_first() };
            let new1 = stack_phi(g, t, true, below.push(rest).push(opened));
            let new2 = stack_phi(g, t, false, below.push(rest).push(opened));
            let old1 = stack_phi(g, t, true, below.push(top));
            let old2 = stack_phi(g, t, false, below.push(top));
            new1 < old1 || (new1 == old1 && new2 < old2)
        }),
{
    let s = top.pending[0];
    let rest = FrameView { node: top.node, pending: top.pending.drop_first() };
    let alpha = g.rhs(k);
    lemma_nullable_parts(g, top.pending);
    assert(below.push(top).drop_last() =~= below);
    assert(below.push(rest).drop_last() =~= below);
    assert(below.push(rest).push(opened).drop_last() =~= below.push(rest));
    if seq_nullable(g, alpha) {
        lemma_nullable_intro(g, k);
    }
    if starts(g, s, t) {
        lemma_first_drop(g, t, k);
    } else {
        lemma_second_drop(g, t, k);
    }
    lemma_push_sum(g, t, true, below, top, opened);
    lemma_push_sum(g, t, false, below, top, opened);
}

/// The costs of the stack before and after a subtree is opened, written out.
proof fn lemma_push_sum(
    g: GramView,
    t: Seq<char>,
    first: bool,
    below: Seq<FrameView>,
    top: FrameView,
    opened: FrameView,
)
    requires
        top.pending.len() > 0,
    ensures
        ({
            let rest = FrameView { node: top.node, pending: top.pending.drop_first() };
            let under = stack_phi(g, t, first, below);
            let mid = phi(g, t, first, rest.pending) + if seq_nullable(g, rest.pending) {
                under
            } else {
                0
            };
            &&& stack_phi(g, t, first, below.push(top)) == cost(g, t, first, top.pending[0]) + (
            if nullable(g, top.pending[0]) {
                phi(g, t, first, rest.pending)
            } else {
                0
            }) + (if seq_nullable(g, top.pending) {
                under
            } else {
                0
            })
            &&& stack_phi(g, t, first, below.push(rest).push(opened)) == phi(
                g,
                t,
                first,
                opened.pending,
            ) + (if seq_nullable(g, opened.pending) {
                mid
            } else {
                0
            })
        }),
{
    let rest = FrameView { node: top.node, pending: top.pending.drop_first() };
    assert(below.push(top).drop_last() =~= below);
    assert(below.push(rest).drop_last() =~= below);
    assert(below.push(rest).push(opened).drop_last() =~= below.push(rest));
    let under = stack_phi(g, t, first, below);
    assert(stack_phi(g, t, first, below.push(rest)) == phi(g, t, first, rest.pending) + if seq_nullable(
        g,
        rest.pending,
    ) {
        under
    } else {
        0
    });
}

} // verus!
