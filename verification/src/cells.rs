//! FIRST of a string of symbols, read off a table of flags: which terminals
//! the string can begin with and whether it can vanish.
use crate::bits::{absorb_flags, new_row, rect, rows_view};
use crate::gram::{GramView, IProd, ISym, Universe, index_of, lemma_index_of, lemma_index_of_some};
use crate::gram::SymView;
use crate::theory::{
    FstView, in_first, nullable, seq_nullable, seq_starts, starts, starts_within,
};
use vstd::prelude::*;

verus! {

/// The flag that says `s` can vanish.
pub open spec fn cell_null(nul: Seq<bool>, s: ISym) -> bool {
    match s {
        ISym::T(_) => false,
        ISym::N(i) => nul[i as int],
    }
}

/// The flag that says `s` can begin with terminal `j`.
pub open spec fn cell_starts(m: Seq<Seq<bool>>, s: ISym, j: int) -> bool {
    match s {
        ISym::T(j2) => j2 == j,
        ISym::N(i) => m[i as int][j],
    }
}

/// The symbols of `rhs` from `lo` up to `hi` are all flagged as vanishing.
pub open spec fn span_null(nul: Seq<bool>, rhs: Seq<ISym>, lo: int, hi: int) -> bool {
    forall|q: int| lo <= q < hi ==> cell_null(nul, #[trigger] rhs[q])
}

/// Some symbol of `rhs` from `lo` up to `hi` is flagged as beginning with
/// terminal `j`, and all from `lo` up to it as vanishing.
pub open spec fn hits(
    nul: Seq<bool>,
    m: Seq<Seq<bool>>,
    rhs: Seq<ISym>,
    lo: int,
    hi: int,
    j: int,
) -> bool {
    exists|q: int|
        lo <= q < hi && cell_starts(m, #[trigger] rhs[q], j) && span_null(nul, rhs, lo, q)
}

pub open spec fn valid_isym(s: ISym, nrows: int, ncols: int) -> bool {
    match s {
        ISym::T(j) => j < ncols,
        ISym::N(i) => i < nrows,
    }
}

pub proof fn lemma_hits_step(
    nul: Seq<bool>,
    m: Seq<Seq<bool>>,
    rhs: Seq<ISym>,
    lo: int,
    q: int,
    j: int,
)
    requires
        lo <= q,
    ensures
        hits(nul, m, rhs, lo, q + 1, j) == (hits(nul, m, rhs, lo, q, j) || (cell_starts(
            m,
            rhs[q],
            j,
        ) && span_null(nul, rhs, lo, q))),
{
    if hits(nul, m, rhs, lo, q + 1, j) {
        let w = choose|w: int|
            lo <= w < q + 1 && cell_starts(m, #[trigger] rhs[w], j) && span_null(nul, rhs, lo, w);
        if w < q {
            assert(hits(nul, m, rhs, lo, q, j));
        }
    }
    if hits(nul, m, rhs, lo, q, j) {
        let w = choose|w: int|
            lo <= w < q && cell_starts(m, #[trigger] rhs[w], j) && span_null(nul, rhs, lo, w);
        assert(lo <= w < q + 1 && cell_starts(m, rhs[w], j) && span_null(nul, rhs, lo, w));
    }
    if cell_starts(m, rhs[q], j) && span_null(nul, rhs, lo, q) {
        assert(lo <= q < q + 1 && cell_starts(m, rhs[q], j) && span_null(nul, rhs, lo, q));
    }
}

pub proof fn lemma_hits_stop(
    nul: Seq<bool>,
    m: Seq<Seq<bool>>,
    rhs: Seq<ISym>,
    lo: int,
    q: int,
    hi: int,
    j: int,
)
    requires
        lo <= q < hi,
        !cell_null(nul, rhs[q]),
    ensures
        hits(nul, m, rhs, lo, hi, j) == hits(nul, m, rhs, lo, q + 1, j),
        !span_null(nul, rhs, lo, hi),
{
    if hits(nul, m, rhs, lo, hi, j) {
        let w = choose|w: int|
            lo <= w < hi && cell_starts(m, #[trigger] rhs[w], j) && span_null(nul, rhs, lo, w);
        if w > q {
            assert(cell_null(nul, rhs[q]));
        }
        assert(lo <= w < q + 1 && cell_starts(m, rhs[w], j) && span_null(nul, rhs, lo, w));
    }
    if hits(nul, m, rhs, lo, q + 1, j) {
        let w = choose|w: int|
            lo <= w < q + 1 && cell_starts(m, #[trigger] rhs[w], j) && span_null(nul, rhs, lo, w);
        assert(lo <= w < hi && cell_starts(m, rhs[w], j) && span_null(nul, rhs, lo, w));
    }
}

/// FIRST of the symbols of `rhs` from position `from` on, by the flags at
/// hand: a row with the terminals it can begin with, and whether it can
/// vanish.
pub fn first_of_seq(
    nul: &Vec<bool>,
    cells: &Vec<Vec<bool>>,
    rhs: &Vec<ISym>,
    from: usize,
    ncols: usize,
) -> (r: (Vec<bool>, bool))
    requires
        from <= rhs@.len(),
        rect(rows_view(cells@), nul@.len() as int, ncols as int),
        forall|q: int|
            0 <= q < rhs@.len() ==> valid_isym(#[trigger] rhs@[q], nul@.len() as int, ncols as int),
    ensures
        r.0@.len() == ncols,
        forall|j: int|
            0 <= j < ncols ==> r.0@[j] == hits(
                nul@,
                rows_view(cells@),
                rhs@,
                from as int,
                rhs@.len() as int,
                j,
            ),
        r.1 == span_null(nul@, rhs@, from as int, rhs@.len() as int),
{
    let ghost m = rows_view(cells@);
    let mut row = new_row(ncols);
    let mut q: usize = from;
    assert forall|j: int| 0 <= j < ncols implies row@[j] == hits(
        nul@,
        m,
        rhs@,
        from as int,
        q as int,
        j,
    ) by {}
    while q < rhs.len()
        invariant
            from <= q <= rhs@.len(),
            m == rows_view(cells@),
            rect(m, nul@.len() as int, ncols as int),
            forall|q2: int|
                0 <= q2 < rhs@.len() ==> valid_isym(
                    #[trigger] rhs@[q2],
                    nul@.len() as int,
                    ncols as int,
                ),
            row@.len() == ncols,
            span_null(nul@, rhs@, from as int, q as int),
            forall|j: int|
                0 <= j < ncols ==> row@[j] == hits(nul@, m, rhs@, from as int, q as int, j),
        decreases rhs@.len() - q,
    {
        let ghost row0 = row@;
        let s = rhs[q];
        assert(valid_isym(rhs@[q as int], nul@.len() as int, ncols as int));
        let stop = match s {
            ISym::T(j0) => {
                row.set(j0, true);
                true
            },
            ISym::N(i) => {
                assert(m[i as int].len() == ncols);
                absorb_flags(&mut row, &cells[i]);
                !nul[i]
            },
        };
        proof {
            assert forall|j: int| 0 <= j < ncols implies row@[j] == hits(
                nul@,
                m,
                rhs@,
                from as int,
                q + 1,
                j,
            ) by {
                lemma_hits_step(nul@, m, rhs@, from as int, q as int, j);
                assert(row@[j] == (row0[j] || cell_starts(m, rhs@[q as int], j)));
            }
        }
        if stop {
            proof {
                assert(!cell_null(nul@, rhs@[q as int]));
                assert forall|j: int| 0 <= j < ncols implies row@[j] == hits(
                    nul@,
                    m,
                    rhs@,
                    from as int,
                    rhs@.len() as int,
                    j,
                ) by {
                    lemma_hits_stop(nul@, m, rhs@, from as int, q as int, rhs@.len() as int, j);
                }
                lemma_hits_stop(nul@, m, rhs@, from as int, q as int, rhs@.len() as int, 0);
            }
            return (row, false);
        }
        q += 1;
    }
    (row, true)
}

/// Whether the flags put `e` in FIRST(`x`).
pub open spec fn first_has(
    u: Universe,
    nul: Seq<bool>,
    m: Seq<Seq<bool>>,
    x: SymView,
    e: FstView,
) -> bool {
    match x {
        SymView::Terminal(t) => e == FstView::Sym(t),
        SymView::NonTerminal(n) => match index_of(u.nts, n) {
            None => false,
            Some(i) => match e {
                FstView::Epsilon => nul[i],
                FstView::Sym(t) => match index_of(u.terms, t) {
                    None => false,
                    Some(j) => m[i][j],
                },
            },
        },
    }
}

/// The flags are as many as the universe has names.
pub open spec fn shaped(u: Universe, nul: Seq<bool>, m: Seq<Seq<bool>>) -> bool {
    &&& nul.len() == u.nts.len()
    &&& rect(m, u.nts.len() as int, u.terms.len() as int)
}

/// The flags of a nonterminal say what `first_has` says of it.
pub proof fn lemma_first_has_nt(u: Universe, nul: Seq<bool>, m: Seq<Seq<bool>>, i: int)
    requires
        u.wf(),
        0 <= i < u.nts.len(),
    ensures
        first_has(u, nul, m, u.nt(i), FstView::Epsilon) == nul[i],
        forall|j: int|
            0 <= j < u.terms.len() ==> first_has(u, nul, m, u.nt(i), FstView::Sym(u.terms[j]))
                == #[trigger] m[i][j],
        forall|t: Seq<char>|
            #[trigger] first_has(u, nul, m, u.nt(i), FstView::Sym(t)) ==> exists|j: int|
                0 <= j < u.terms.len() && u.terms[j] == t && m[i][j],
{
    lemma_index_of(u.nts, i);
    assert forall|j: int| 0 <= j < u.terms.len() implies first_has(
        u,
        nul,
        m,
        u.nt(i),
        FstView::Sym(u.terms[j]),
    ) == #[trigger] m[i][j] by {
        lemma_index_of(u.terms, j);
    }
    assert forall|t: Seq<char>| #[trigger]
        first_has(u, nul, m, u.nt(i), FstView::Sym(t)) implies exists|j: int|
        0 <= j < u.terms.len() && u.terms[j] == t && m[i][j] by {
        lemma_index_of_some(u.terms, t);
        let j = index_of(u.terms, t)->Some_0;
        assert(0 <= j < u.terms.len() && u.terms[j] == t && m[i][j]);
    }
}

/// The flags say of every symbol exactly what FIRST says.
pub open spec fn first_exact(u: Universe, g: GramView, nul: Seq<bool>, m: Seq<Seq<bool>>) -> bool {
    forall|x: SymView, e: FstView| #[trigger] first_has(u, nul, m, x, e) <==> in_first(g, x, e)
}

/// With exact flags, a flagged symbol is one that FIRST speaks of, and the
/// other way round.
pub proof fn lemma_cells_exact(
    u: Universe,
    g: GramView,
    nul: Seq<bool>,
    m: Seq<Seq<bool>>,
    p: crate::gram::ProdView,
    ip: IProd,
    q: int,
)
    requires
        u.wf(),
        shaped(u, nul, m),
        first_exact(u, g, nul, m),
        u.mirrors(p, ip),
        0 <= q < ip.rhs@.len(),
    ensures
        cell_null(nul, ip.rhs@[q]) == nullable(g, p.rhs.syms()[q]),
        forall|j: int|
            0 <= j < u.terms.len() ==> #[trigger] cell_starts(m, ip.rhs@[q], j) == starts(
                g,
                p.rhs.syms()[q],
                u.terms[j],
            ),
        forall|t: Seq<char>| #[trigger]
            starts(g, p.rhs.syms()[q], t) ==> exists|j: int|
                0 <= j < u.terms.len() && u.terms[j] == t && cell_starts(m, ip.rhs@[q], j),
{
    let s = ip.rhs@[q];
    let x = p.rhs.syms()[q];
    assert(u.valid(s) && u.sym(s) == x);
    match s {
        ISym::T(j0) => {
            assert(first_has(u, nul, m, x, FstView::Epsilon) == false);
            assert(in_first(g, x, FstView::Epsilon) == nullable(g, x));
            assert forall|j: int| 0 <= j < u.terms.len() implies #[trigger] cell_starts(m, s, j)
                == starts(g, x, u.terms[j]) by {
                assert(first_has(u, nul, m, x, FstView::Sym(u.terms[j])) == in_first(
                    g,
                    x,
                    FstView::Sym(u.terms[j]),
                ));
                if j != j0 {
                    assert(u.terms[j] != u.terms[j0 as int]);
                }
            }
            assert forall|t: Seq<char>| #[trigger] starts(g, x, t) implies exists|j: int|
                0 <= j < u.terms.len() && u.terms[j] == t && cell_starts(m, s, j) by {
                assert(first_has(u, nul, m, x, FstView::Sym(t)) == in_first(g, x, FstView::Sym(t)));
                assert(u.terms[j0 as int] == t && cell_starts(m, s, j0 as int));
            }
        },
        ISym::N(i) => {
            lemma_first_has_nt(u, nul, m, i as int);
            assert(first_has(u, nul, m, x, FstView::Epsilon) == in_first(g, x, FstView::Epsilon));
            assert forall|j: int| 0 <= j < u.terms.len() implies #[trigger] cell_starts(m, s, j)
                == starts(g, x, u.terms[j]) by {
                assert(first_has(u, nul, m, x, FstView::Sym(u.terms[j])) == in_first(
                    g,
                    x,
                    FstView::Sym(u.terms[j]),
                ));
                assert(m[i as int][j] == first_has(u, nul, m, x, FstView::Sym(u.terms[j])));
            }
            assert forall|t: Seq<char>| #[trigger] starts(g, x, t) implies exists|j: int|
                0 <= j < u.terms.len() && u.terms[j] == t && cell_starts(m, s, j) by {
                assert(first_has(u, nul, m, x, FstView::Sym(t)) == in_first(g, x, FstView::Sym(t)));
                let j = choose|j: int| 0 <= j < u.terms.len() && u.terms[j] == t && m[i as int][j];
                assert(cell_starts(m, s, j));
            }
        },
    }
}

/// With exact flags, a span of a production is flagged as vanishing exactly
/// when it can vanish.
pub proof fn lemma_span_exact(
    u: Universe,
    g: GramView,
    nul: Seq<bool>,
    m: Seq<Seq<bool>>,
    p: crate::gram::ProdView,
    ip: IProd,
    lo: int,
    hi: int,
)
    requires
        u.wf(),
        shaped(u, nul, m),
        first_exact(u, g, nul, m),
        u.mirrors(p, ip),
        0 <= lo <= hi <= ip.rhs@.len(),
    ensures
        span_null(nul, ip.rhs@, lo, hi) == seq_nullable(g, p.rhs.syms().subrange(lo, hi)),
{
    let alpha = p.rhs.syms().subrange(lo, hi);
    if span_null(nul, ip.rhs@, lo, hi) {
        assert forall|q: int| 0 <= q < alpha.len() implies nullable(g, #[trigger] alpha[q]) by {
            lemma_cells_exact(u, g, nul, m, p, ip, lo + q);
            assert(cell_null(nul, ip.rhs@[lo + q]));
        }
    }
    if seq_nullable(g, alpha) {
        assert forall|q: int| lo <= q < hi implies cell_null(nul, #[trigger] ip.rhs@[q]) by {
            lemma_cells_exact(u, g, nul, m, p, ip, q);
            assert(alpha[q - lo] == p.rhs.syms()[q]);
            assert(nullable(g, alpha[q - lo]));
        }
    }
}

/// With exact flags, the row that `first_of_seq` gives for the rest of a
/// production holds the terminals that the rest can begin with.
pub proof fn lemma_hits_exact(
    u: Universe,
    g: GramView,
    nul: Seq<bool>,
    m: Seq<Seq<bool>>,
    p: crate::gram::ProdView,
    ip: IProd,
    lo: int,
)
    requires
        u.wf(),
        shaped(u, nul, m),
        first_exact(u, g, nul, m),
        u.mirrors(p, ip),
        0 <= lo <= ip.rhs@.len(),
    ensures
        forall|j: int|
            0 <= j < u.terms.len() ==> #[trigger] hits(nul, m, ip.rhs@, lo, ip.rhs@.len() as int, j)
                == seq_starts(g, p.rhs.syms().skip(lo), u.terms[j]),
        forall|t: Seq<char>| #[trigger]
            seq_starts(g, p.rhs.syms().skip(lo), t) ==> exists|j: int|
                0 <= j < u.terms.len() && u.terms[j] == t,
        span_null(nul, ip.rhs@, lo, ip.rhs@.len() as int) == seq_nullable(
            g,
            p.rhs.syms().skip(lo),
        ),
{
    let rhs = ip.rhs@;
    let n = rhs.len() as int;
    let beta = p.rhs.syms().skip(lo);
    lemma_span_exact(u, g, nul, m, p, ip, lo, n);
    assert(p.rhs.syms().subrange(lo, n) =~= beta);
    assert forall|j: int| 0 <= j < u.terms.len() implies #[trigger] hits(nul, m, rhs, lo, n, j)
        == seq_starts(g, beta, u.terms[j]) by {
        let t = u.terms[j];
        if hits(nul, m, rhs, lo, n, j) {
            let w = choose|w: int|
                lo <= w < n && cell_starts(m, #[trigger] rhs[w], j) && span_null(nul, rhs, lo, w);
            lemma_cells_exact(u, g, nul, m, p, ip, w);
            lemma_span_exact(u, g, nul, m, p, ip, lo, w);
            assert(beta.take(w - lo) =~= p.rhs.syms().subrange(lo, w));
            assert(beta[w - lo] == p.rhs.syms()[w]);
            assert(0 <= w - lo < beta.len() && starts(g, beta[w - lo], t) && seq_nullable(
                g,
                beta.take(w - lo),
            ));
        }
        if seq_starts(g, beta, t) {
            let w2 = choose|w2: int|
                0 <= w2 < beta.len() && starts(g, #[trigger] beta[w2], t) && seq_nullable(
                    g,
                    beta.take(w2),
                );
            let w = lo + w2;
            lemma_cells_exact(u, g, nul, m, p, ip, w);
            lemma_span_exact(u, g, nul, m, p, ip, lo, w);
            assert(beta.take(w2) =~= p.rhs.syms().subrange(lo, w));
            assert(beta[w2] == p.rhs.syms()[w]);
            assert(cell_starts(m, rhs[w], j));
            assert(lo <= w < n && cell_starts(m, rhs[w], j) && span_null(nul, rhs, lo, w));
        }
    }
    assert forall|t: Seq<char>| #[trigger] seq_starts(g, beta, t) implies exists|j: int|
        0 <= j < u.terms.len() && u.terms[j] == t by {
        let w2 = choose|w2: int|
            0 <= w2 < beta.len() && starts(g, #[trigger] beta[w2], t) && seq_nullable(
                g,
                beta.take(w2),
            );
        lemma_cells_exact(u, g, nul, m, p, ip, lo + w2);
        assert(beta[w2] == p.rhs.syms()[lo + w2]);
        assert(starts(g, p.rhs.syms()[lo + w2], t));
    }
}

} // verus!
