//! FIRST sets: computed by iterating over the productions until no set grows.
use crate::bits::{absorb_row, count_false, count_unset, mark_flag, new_row, new_table, rows_view};
use crate::cells::{
    cell_null, cell_starts, first_exact, first_has, first_of_seq, hits, lemma_first_has_nt, shaped,
    span_null,
};
use crate::gram::{
    Gram, GramSym, GramView, IProd, ISym, SymView, Universe, clone_names, find_name, index_of,
    lemma_index_of_some, names_view,
};
use crate::theory::{
    FstView, all_in, closed_null, closed_starts, in_first, lemma_null_complete,
    lemma_nullable_intro, lemma_starts_complete, lemma_starts_intro, nullable, nullable_within,
    seq_nullable, starts, starts_within, sym_starts_in,
};
use vstd::prelude::*;

verus! {

/// An element of a FIRST set.
#[derive(Debug, Eq, PartialOrd, Ord, Hash)]
pub enum FstSetSym {
    Sym(String),
    Epsilon,
}

impl View for FstSetSym {
    type V = FstView;

    open spec fn view(&self) -> FstView {
        match self {
            FstSetSym::Sym(s) => FstView::Sym(s@),
            FstSetSym::Epsilon => FstView::Epsilon,
        }
    }
}

impl Clone for FstSetSym {
    fn clone(&self) -> (r: Self)
        ensures
            r == *self,
    {
        match self {
            FstSetSym::Sym(s) => FstSetSym::Sym(s.clone()),
            FstSetSym::Epsilon => FstSetSym::Epsilon,
        }
    }
}

impl PartialEq for FstSetSym {
    fn eq(&self, other: &FstSetSym) -> (r: bool) {
        match (self, other) {
            (FstSetSym::Sym(a), FstSetSym::Sym(b)) => *a == *b,
            (FstSetSym::Epsilon, FstSetSym::Epsilon) => true,
            _ => false,
        }
    }
}

impl vstd::std_specs::cmp::PartialEqSpecImpl for FstSetSym {
    open spec fn obeys_eq_spec() -> bool {
        true
    }

    open spec fn eq_spec(&self, other: &FstSetSym) -> bool {
        self@ == other@
    }
}

/// Every set flag is justified by a derivation.
pub open spec fn first_sound(u: Universe, g: GramView, nul: Seq<bool>, m: Seq<Seq<bool>>) -> bool {
    &&& forall|i: int| 0 <= i < u.nts.len() && #[trigger] nul[i] ==> nullable(g, u.nt(i))
    &&& forall|i: int, j: int|
        0 <= i < u.nts.len() && 0 <= j < u.terms.len() && #[trigger] m[i][j] ==> starts(
            g,
            u.nt(i),
            u.terms[j],
        )
}

/// The flags of the left symbol hold what the production gives from the flags
/// of its right symbols.
pub open spec fn settled(nul: Seq<bool>, m: Seq<Seq<bool>>, ip: IProd, ncols: int) -> bool {
    &&& forall|j: int|
        0 <= j < ncols && #[trigger] hits(nul, m, ip.rhs@, 0, ip.rhs@.len() as int, j)
            ==> m[ip.lhs as int][j]
    &&& span_null(nul, ip.rhs@, 0, ip.rhs@.len() as int) ==> nul[ip.lhs as int]
}

/// The indexed productions say what the grammar's productions say.
pub open spec fn mirrored(u: Universe, g: GramView, iprods: Seq<IProd>) -> bool {
    &&& iprods.len() == g.prods.len()
    &&& forall|k: int| 0 <= k < g.prods.len() ==> u.mirrors(#[trigger] g.prods[k], iprods[k])
}

proof fn lemma_span_sound(
    u: Universe,
    g: GramView,
    nul: Seq<bool>,
    m: Seq<Seq<bool>>,
    k: int,
    ip: IProd,
    hi: int,
)
    requires
        first_sound(u, g, nul, m),
        0 <= k < g.prods.len(),
        u.mirrors(g.prods[k], ip),
        0 <= hi <= ip.rhs@.len(),
        span_null(nul, ip.rhs@, 0, hi),
    ensures
        seq_nullable(g, g.rhs(k).take(hi)),
{
    let alpha = g.rhs(k).take(hi);
    assert forall|q: int| 0 <= q < alpha.len() implies nullable(g, #[trigger] alpha[q]) by {
        let s = ip.rhs@[q];
        assert(u.valid(s) && u.sym(s) == g.rhs(k)[q]);
        assert(cell_null(nul, s));
        match s {
            ISym::T(_) => {},
            ISym::N(i) => {
                assert(nul[i as int]);
                assert(nullable(g, u.nt(i as int)));
            },
        }
    }
}

/// A terminal that the flags give to a production's right side can begin what
/// its left symbol derives.
proof fn lemma_hit_sound(
    u: Universe,
    g: GramView,
    nul: Seq<bool>,
    m: Seq<Seq<bool>>,
    k: int,
    ip: IProd,
    j: int,
)
    requires
        first_sound(u, g, nul, m),
        0 <= k < g.prods.len(),
        g.lhs(k) is NonTerminal,
        u.mirrors(g.prods[k], ip),
        0 <= j < u.terms.len(),
        hits(nul, m, ip.rhs@, 0, ip.rhs@.len() as int, j),
    ensures
        starts(g, g.lhs(k), u.terms[j]),
{
    let rhs = ip.rhs@;
    let t = u.terms[j];
    let w = choose|w: int|
        0 <= w < rhs.len() && cell_starts(m, #[trigger] rhs[w], j) && span_null(nul, rhs, 0, w);
    lemma_span_sound(u, g, nul, m, k, ip, w);
    let s = rhs[w];
    assert(u.valid(s) && u.sym(s) == g.rhs(k)[w]);
    match s {
        ISym::T(j0) => {
            assert(starts_within(g, g.rhs(k)[w], t, 0));
        },
        ISym::N(i) => {
            assert(m[i as int][j]);
            assert(starts(g, u.nt(i as int), t));
        },
    }
    lemma_starts_intro(g, k, w, t);
}

proof fn lemma_null_sound(
    u: Universe,
    g: GramView,
    nul: Seq<bool>,
    m: Seq<Seq<bool>>,
    k: int,
    ip: IProd,
)
    requires
        first_sound(u, g, nul, m),
        0 <= k < g.prods.len(),
        g.lhs(k) is NonTerminal,
        u.mirrors(g.prods[k], ip),
        span_null(nul, ip.rhs@, 0, ip.rhs@.len() as int),
    ensures
        nullable(g, g.lhs(k)),
{
    lemma_span_sound(u, g, nul, m, k, ip, ip.rhs@.len() as int);
    assert(g.rhs(k).take(ip.rhs@.len() as int) =~= g.rhs(k));
    lemma_nullable_intro(g, k);
}

/// The symbols that the flags call vanishing.
pub open spec fn null_set(u: Universe, nul: Seq<bool>, m: Seq<Seq<bool>>) -> Set<SymView> {
    Set::new(|x: SymView| first_has(u, nul, m, x, FstView::Epsilon))
}

/// The pairs of a symbol and a terminal that the flags say it can begin with.
pub open spec fn start_set(u: Universe, nul: Seq<bool>, m: Seq<Seq<bool>>) -> Set<
    (SymView, Seq<char>),
> {
    Set::new(|p: (SymView, Seq<char>)| first_has(u, nul, m, p.0, FstView::Sym(p.1)))
}

proof fn lemma_flagged_null(
    u: Universe,
    g: GramView,
    iprods: Seq<IProd>,
    nul: Seq<bool>,
    m: Seq<Seq<bool>>,
    k: int,
    hi: int,
)
    requires
        u.wf(),
        mirrored(u, g, iprods),
        0 <= k < g.prods.len(),
        0 <= hi <= g.rhs(k).len(),
        forall|q: int|
            0 <= q < hi ==> first_has(u, nul, m, #[trigger] g.rhs(k)[q], FstView::Epsilon),
    ensures
        span_null(nul, iprods[k].rhs@, 0, hi),
{
    let ip = iprods[k];
    assert(u.mirrors(g.prods[k], ip));
    assert forall|q: int| 0 <= q < hi implies cell_null(nul, #[trigger] ip.rhs@[q]) by {
        let s = ip.rhs@[q];
        assert(u.valid(s) && u.sym(s) == g.rhs(k)[q]);
        assert(first_has(u, nul, m, g.rhs(k)[q], FstView::Epsilon));
        match s {
            ISym::T(_) => {},
            ISym::N(i) => {
                lemma_first_has_nt(u, nul, m, i as int);
            },
        }
    }
}

proof fn lemma_first_null_closed(
    u: Universe,
    g: GramView,
    iprods: Seq<IProd>,
    nul: Seq<bool>,
    m: Seq<Seq<bool>>,
)
    requires
        u.wf(),
        mirrored(u, g, iprods),
        forall|k: int|
            0 <= k < iprods.len() ==> settled(nul, m, #[trigger] iprods[k], u.terms.len() as int),
    ensures
        closed_null(g, null_set(u, nul, m)),
{
    let ns = null_set(u, nul, m);
    assert forall|k: int| 0 <= k < g.prods.len() && all_in(ns, g.rhs(k)) implies ns.contains(
        #[trigger] g.lhs(k),
    ) by {
        let ip = iprods[k];
        assert(u.mirrors(g.prods[k], ip));
        assert forall|q: int| 0 <= q < g.rhs(k).len() implies first_has(
            u,
            nul,
            m,
            #[trigger] g.rhs(k)[q],
            FstView::Epsilon,
        ) by {
            assert(ns.contains(g.rhs(k)[q]));
        }
        lemma_flagged_null(u, g, iprods, nul, m, k, g.rhs(k).len() as int);
        assert(settled(nul, m, ip, u.terms.len() as int));
        lemma_first_has_nt(u, nul, m, ip.lhs as int);
    }
}

proof fn lemma_first_null_exact(
    u: Universe,
    g: GramView,
    iprods: Seq<IProd>,
    nul: Seq<bool>,
    m: Seq<Seq<bool>>,
)
    requires
        u.wf(),
        shaped(u, nul, m),
        mirrored(u, g, iprods),
        first_sound(u, g, nul, m),
        forall|k: int|
            0 <= k < iprods.len() ==> settled(nul, m, #[trigger] iprods[k], u.terms.len() as int),
    ensures
        forall|x: SymView| #[trigger]
            first_has(u, nul, m, x, FstView::Epsilon) <==> nullable(g, x),
{
    lemma_first_null_closed(u, g, iprods, nul, m);
    let ns = null_set(u, nul, m);
    assert forall|x: SymView| #[trigger]
        first_has(u, nul, m, x, FstView::Epsilon) <==> nullable(g, x) by {
        if first_has(u, nul, m, x, FstView::Epsilon) {
            lemma_index_of_some(u.nts, x.name());
            let i = index_of(u.nts, x.name())->Some_0;
            assert(nul[i]);
            assert(u.nt(i) == x);
        }
        if nullable(g, x) {
            let n = choose|n: nat| nullable_within(g, x, n);
            lemma_null_complete(g, ns, x, n);
        }
    }
}

proof fn lemma_first_starts_closed(
    u: Universe,
    g: GramView,
    iprods: Seq<IProd>,
    nul: Seq<bool>,
    m: Seq<Seq<bool>>,
)
    requires
        u.wf(),
        shaped(u, nul, m),
        mirrored(u, g, iprods),
        forall|k: int|
            0 <= k < iprods.len() ==> settled(nul, m, #[trigger] iprods[k], u.terms.len() as int),
        forall|x: SymView| #[trigger]
            first_has(u, nul, m, x, FstView::Epsilon) <==> nullable(g, x),
    ensures
        closed_starts(g, start_set(u, nul, m)),
{
    let ss = start_set(u, nul, m);
    assert forall|k: int, q: int, t: Seq<char>|
        0 <= k < g.prods.len() && 0 <= q < g.rhs(k).len() && #[trigger] sym_starts_in(
            ss,
            g.rhs(k)[q],
            t,
        ) && seq_nullable(g, g.rhs(k).take(q)) implies ss.contains((g.lhs(k), t)) by {
        let ip = iprods[k];
        assert(u.mirrors(g.prods[k], ip));
        let rhs = ip.rhs@;
        let s = rhs[q];
        let x = g.rhs(k)[q];
        assert(u.valid(s) && u.sym(s) == x);
        assert forall|q2: int| 0 <= q2 < q implies first_has(
            u,
            nul,
            m,
            #[trigger] g.rhs(k)[q2],
            FstView::Epsilon,
        ) by {
            assert(g.rhs(k).take(q)[q2] == g.rhs(k)[q2]);
            assert(nullable(g, g.rhs(k).take(q)[q2]));
        }
        lemma_flagged_null(u, g, iprods, nul, m, k, q);
        let j: int = match s {
            ISym::T(j0) => j0 as int,
            ISym::N(i) => {
                lemma_first_has_nt(u, nul, m, i as int);
                assert(first_has(u, nul, m, u.nt(i as int), FstView::Sym(t)));
                choose|j: int| 0 <= j < u.terms.len() && u.terms[j] == t && m[i as int][j]
            },
        };
        assert(0 <= j < u.terms.len() && u.terms[j] == t && cell_starts(m, s, j));
        assert(0 <= q < rhs.len() && cell_starts(m, rhs[q], j) && span_null(nul, rhs, 0, q));
        assert(hits(nul, m, rhs, 0, rhs.len() as int, j));
        assert(settled(nul, m, ip, u.terms.len() as int));
        lemma_first_has_nt(u, nul, m, ip.lhs as int);
        assert(first_has(u, nul, m, u.nt(ip.lhs as int), FstView::Sym(u.terms[j])));
    }
}

/// Flags that are justified and that no production can add to are FIRST.
pub proof fn lemma_first_fixpoint(
    u: Universe,
    g: GramView,
    iprods: Seq<IProd>,
    nul: Seq<bool>,
    m: Seq<Seq<bool>>,
)
    requires
        u.wf(),
        shaped(u, nul, m),
        mirrored(u, g, iprods),
        first_sound(u, g, nul, m),
        forall|k: int|
            0 <= k < iprods.len() ==> settled(nul, m, #[trigger] iprods[k], u.terms.len() as int),
    ensures
        first_exact(u, g, nul, m),
{
    lemma_first_null_exact(u, g, iprods, nul, m);
    lemma_first_starts_closed(u, g, iprods, nul, m);
    let ss = start_set(u, nul, m);
    assert forall|x: SymView, e: FstView| #[trigger]
        first_has(u, nul, m, x, e) <==> in_first(g, x, e) by {
        match e {
            FstView::Epsilon => {},
            FstView::Sym(t) => {
                if first_has(u, nul, m, x, e) {
                    match x {
                        SymView::Terminal(t0) => {
                            assert(starts_within(g, x, t, 0));
                        },
                        SymView::NonTerminal(n) => {
                            lemma_index_of_some(u.nts, n);
                            lemma_index_of_some(u.terms, t);
                            let i = index_of(u.nts, n)->Some_0;
                            let j = index_of(u.terms, t)->Some_0;
                            assert(m[i][j]);
                            assert(u.nt(i) == x);
                        },
                    }
                }
                if starts(g, x, t) {
                    let n = choose|n: nat| starts_within(g, x, t, n);
                    lemma_starts_complete(g, ss, x, t, n);
                }
            },
        }
    }
}

/// The FIRST sets of a grammar.
#[derive(Debug)]
pub struct FirstSets {
    nts: Vec<String>,
    terms: Vec<String>,
    nullable: Vec<bool>,
    starts: Vec<Vec<bool>>,
}

impl FirstSets {
    pub closed spec fn universe(&self) -> Universe {
        Universe { nts: names_view(self.nts@), terms: names_view(self.terms@) }
    }

    pub closed spec fn null_flags(&self) -> Seq<bool> {
        self.nullable@
    }

    pub closed spec fn start_flags(&self) -> Seq<Seq<bool>> {
        rows_view(self.starts@)
    }

    #[verifier::type_invariant]
    pub closed spec fn inv(&self) -> bool {
        &&& self.universe().wf()
        &&& shaped(self.universe(), self.nullable@, rows_view(self.starts@))
    }

    /// Whether `e` is in the set of `x`.
    pub closed spec fn has(&self, x: SymView, e: FstView) -> bool {
        first_has(self.universe(), self.nullable@, rows_view(self.starts@), x, e)
    }

    /// These are the FIRST sets of `g`, laid out over `g`'s name tables.
    pub closed spec fn is_first_of(&self, g: &Gram) -> bool {
        &&& self.inv()
        &&& self.universe() == g.universe()
        &&& first_exact(g.universe(), g@, self.nullable@, rows_view(self.starts@))
    }

    /// FIRST sets of a grammar hold exactly what FIRST says.
    pub proof fn lemma_is_first(&self, g: &Gram)
        requires
            self.is_first_of(g),
        ensures
            forall|x: SymView, e: FstView| #[trigger] self.has(x, e) <==> in_first(g@, x, e),
            self.universe() == g.universe(),
            self.universe().wf(),
            shaped(self.universe(), self.null_flags(), self.start_flags()),
            first_exact(g.universe(), g@, self.null_flags(), self.start_flags()),
    {
        assert forall|x: SymView, e: FstView| #[trigger] self.has(x, e) <==> in_first(g@, x, e) by {
            assert(first_has(g.universe(), self.nullable@, rows_view(self.starts@), x, e)
                <==> in_first(g@, x, e));
        }
    }

    pub(crate) fn nullable(&self) -> (r: &Vec<bool>)
        ensures
            r@ == self.null_flags(),
    {
        &self.nullable
    }

    pub(crate) fn starts(&self) -> (r: &Vec<Vec<bool>>)
        ensures
            rows_view(r@) == self.start_flags(),
    {
        &self.starts
    }

    /// Whether `elem` is in FIRST(`sym`).
    pub fn contains(&self, sym: &GramSym, elem: &FstSetSym) -> (r: bool)
        ensures
            r == self.has(sym@, elem@),
    {
        proof {
            use_type_invariant(self);
        }
        match sym {
            GramSym::Terminal(t) => match elem {
                FstSetSym::Sym(n) => *n == *t,
                FstSetSym::Epsilon => false,
            },
            GramSym::NonTerminal(n) => match find_name(&self.nts, n) {
                None => false,
                Some(i) => match elem {
                    FstSetSym::Epsilon => self.nullable[i],
                    FstSetSym::Sym(t) => match find_name(&self.terms, t) {
                        None => false,
                        Some(j) => {
                            assert(rows_view(self.starts@)[i as int].len() == self.terms@.len());
                            self.starts[i][j]
                        },
                    },
                },
            },
        }
    }
}

impl Gram {
    /// FIRST of every symbol: the terminals that can begin what it derives,
    /// and the empty-string mark where it can derive the empty string.
    pub fn first_sets(&self) -> (r: FirstSets)
        ensures
            r.is_first_of(self),
            forall|x: SymView, e: FstView| #[trigger] r.has(x, e) <==> in_first(self@, x, e),
    {
        proof {
            use_type_invariant(self);
            self.lemma_inv();
        }
        let nts = self.nts();
        let terms = self.terms();
        let iprods = self.iprods();
        let ghost u = self.universe();
        let ghost g = self@;
        let nrows = nts.len();
        let ncols = terms.len();
        let mut nul = new_row(nrows);
        let mut cells = new_table(nrows, ncols);
        let mut changed = true;
        while changed
            invariant
                u.wf(),
                g.well_formed(),
                mirrored(u, g, iprods@),
                nrows == u.nts.len(),
                ncols == u.terms.len(),
                shaped(u, nul@, rows_view(cells@)),
                first_sound(u, g, nul@, rows_view(cells@)),
                !changed ==> forall|k: int|
                    0 <= k < iprods@.len() ==> settled(
                        nul@,
                        rows_view(cells@),
                        #[trigger] iprods@[k],
                        ncols as int,
                    ),
            decreases
                    count_false(nul@) + count_unset(rows_view(cells@)),
                    (if changed {
                        1int
                    } else {
                        0int
                    }),
        {
            changed = false;
            let ghost nul0 = nul@;
            let ghost m0 = rows_view(cells@);
            let mut k: usize = 0;
            while k < iprods.len()
                invariant
                    k <= iprods@.len(),
                    u.wf(),
                    g.well_formed(),
                    mirrored(u, g, iprods@),
                    nrows == u.nts.len(),
                    ncols == u.terms.len(),
                    shaped(u, nul@, rows_view(cells@)),
                    first_sound(u, g, nul@, rows_view(cells@)),
                    count_false(nul@) + count_unset(rows_view(cells@)) <= count_false(nul0)
                        + count_unset(m0),
                    changed ==> count_false(nul@) + count_unset(rows_view(cells@)) < count_false(
                        nul0,
                    ) + count_unset(m0),
                    !changed ==> nul@ == nul0 && rows_view(cells@) == m0,
                    !changed ==> forall|k2: int|
                        0 <= k2 < k ==> settled(
                            nul@,
                            rows_view(cells@),
                            #[trigger] iprods@[k2],
                            ncols as int,
                        ),
                decreases iprods@.len() - k,
            {
                let ip = &iprods[k];
                let ghost nul1 = nul@;
                let ghost m1 = rows_view(cells@);
                proof {
                    assert(u.mirrors(g.prods[k as int], *ip));
                    assert(g.prods[k as int].lhs is NonTerminal);
                    assert forall|q: int| 0 <= q < ip.rhs@.len() implies crate::cells::valid_isym(
                        #[trigger] ip.rhs@[q],
                        nul@.len() as int,
                        ncols as int,
                    ) by {
                        assert(u.valid(ip.rhs@[q]));
                    }
                }
                let (row, nl) = first_of_seq(&nul, &cells, &ip.rhs, 0, ncols);
                assert(m1[ip.lhs as int].len() == ncols);
                let c1 = absorb_row(&mut cells, ip.lhs, &row);
                let c2 = if nl {
                    mark_flag(&mut nul, ip.lhs)
                } else {
                    false
                };
                proof {
                    let m2 = rows_view(cells@);
                    let lhs = ip.lhs as int;
                    assert forall|i: int| 0 <= i < u.nts.len() implies (#[trigger] m2[i]).len()
                        == u.terms.len() by {
                        if i != lhs {
                            assert(m2[i] == m1[i]);
                        }
                    }
                    assert forall|i: int| 0 <= i < u.nts.len() && #[trigger] nul@[i] implies nullable(
                        g,
                        u.nt(i),
                    ) by {
                        if !nul1[i] {
                            lemma_null_sound(u, g, nul1, m1, k as int, *ip);
                        }
                    }
                    assert forall|i: int, j: int|
                        0 <= i < u.nts.len() && 0 <= j < u.terms.len() && #[trigger] m2[i][j] implies starts(
                        g,
                        u.nt(i),
                        u.terms[j],
                    ) by {
                        if i != lhs {
                            assert(m2[i] == m1[i]);
                        } else if !m1[i][j] {
                            assert(row@[j]);
                            lemma_hit_sound(u, g, nul1, m1, k as int, *ip, j);
                        }
                    }
                    if !c1 && !c2 {
                        assert forall|j: int|
                            0 <= j < ncols && #[trigger] hits(
                                nul1,
                                m1,
                                ip.rhs@,
                                0,
                                ip.rhs@.len() as int,
                                j,
                            ) implies m1[lhs][j] by {
                            assert(row@[j]);
                        }
                        assert(settled(nul@, m2, *ip, ncols as int));
                    }
                }
                if c1 || c2 {
                    changed = true;
                }
                k += 1;
            }
        }
        proof {
            lemma_first_fixpoint(u, g, iprods@, nul@, rows_view(cells@));
        }
        let r = FirstSets {
            nts: clone_names(nts),
            terms: clone_names(terms),
            nullable: nul,
            starts: cells,
        };
        proof {
            assert(r.universe() == u);
            assert forall|x: SymView, e: FstView| #[trigger] r.has(x, e) <==> in_first(
                self@,
                x,
                e,
            ) by {
                assert(first_has(u, nul@, rows_view(cells@), x, e) <==> in_first(g, x, e));
            }
        }
        r
    }
}

} // verus!
