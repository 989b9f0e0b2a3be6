//! FOLLOW sets: computed from the FIRST sets by iterating over the
//! productions until no set grows.
use crate::bits::{
    absorb_row, clone_flags, count_false, count_unset, mark_flag, new_row, new_table, rows_view,
};
use crate::cells::{
    first_exact, first_has, first_of_seq, hits, lemma_first_has_nt, lemma_hits_exact, shaped,
    span_null, valid_isym,
};
use crate::first::{FirstSets, mirrored};
use crate::gram::{
    Gram, GramSym, GramView, IProd, ISym, SymView, Universe, clone_names, find_name, index_of,
    lemma_index_of_some, names_view,
};
use crate::theory::{
    FstView, Lookahead, closed_follow, follows_within, in_follow, lemma_follow_complete,
    lemma_follow_intro_first, lemma_follow_intro_lhs, lemma_follow_start, seq_nullable, seq_starts,
};
use vstd::prelude::*;

verus! {

/// An element of a FOLLOW set.
#[derive(Debug, Eq, PartialOrd, Ord, Hash)]
pub enum FollSetSym {
    Sym(String),
    EndMarker,
}

impl View for FollSetSym {
    type V = Lookahead;

    open spec fn view(&self) -> Lookahead {
        match self {
            FollSetSym::Sym(s) => Lookahead::Sym(s@),
            FollSetSym::EndMarker => Lookahead::EndMarker,
        }
    }
}

impl Clone for FollSetSym {
    fn clone(&self) -> (r: Self)
        ensures
            r == *self,
    {
        match self {
            FollSetSym::Sym(s) => FollSetSym::Sym(s.clone()),
            FollSetSym::EndMarker => FollSetSym::EndMarker,
        }
    }
}

impl PartialEq for FollSetSym {
    fn eq(&self, other: &FollSetSym) -> (r: bool) {
        match (self, other) {
            (FollSetSym::Sym(a), FollSetSym::Sym(b)) => *a == *b,
            (FollSetSym::EndMarker, FollSetSym::EndMarker) => true,
            _ => false,
        }
    }
}

impl vstd::std_specs::cmp::PartialEqSpecImpl for FollSetSym {
    open spec fn obeys_eq_spec() -> bool {
        true
    }

    open spec fn eq_spec(&self, other: &FollSetSym) -> bool {
        self@ == other@
    }
}

/// The column that a lookahead has in a table of flags: the end mark has the
/// place that the empty-string mark has in FIRST.
pub open spec fn as_column(f: Lookahead) -> FstView {
    match f {
        Lookahead::Sym(t) => FstView::Sym(t),
        Lookahead::EndMarker => FstView::Epsilon,
    }
}

/// Whether the flags put `f` in FOLLOW(`a`).
pub open spec fn follow_has(
    u: Universe,
    ends: Seq<bool>,
    m: Seq<Seq<bool>>,
    a: SymView,
    f: Lookahead,
) -> bool {
    a is NonTerminal && first_has(u, ends, m, a, as_column(f))
}

/// Every set flag is justified.
pub open spec fn follow_sound(u: Universe, g: GramView, ends: Seq<bool>, m: Seq<Seq<bool>>) -> bool {
    &&& forall|i: int|
        0 <= i < u.nts.len() && #[trigger] ends[i] ==> in_follow(g, u.nt(i), Lookahead::EndMarker)
    &&& forall|i: int, j: int|
        0 <= i < u.nts.len() && 0 <= j < u.terms.len() && #[trigger] m[i][j] ==> in_follow(
            g,
            u.nt(i),
            Lookahead::Sym(u.terms[j]),
        )
}

/// The flags of the nonterminal at position `p` of a production hold what the
/// production gives it: what can begin the rest, and, where the rest can
/// vanish, what the flags of the left symbol hold.
pub open spec fn settled_at(
    fnul: Seq<bool>,
    fm: Seq<Seq<bool>>,
    ends: Seq<bool>,
    m: Seq<Seq<bool>>,
    ip: IProd,
    p: int,
    ncols: int,
) -> bool {
    ip.rhs@[p] matches ISym::N(a) ==> {
        &&& forall|j: int|
            0 <= j < ncols && #[trigger] hits(fnul, fm, ip.rhs@, p + 1, ip.rhs@.len() as int, j)
                ==> m[a as int][j]
        &&& span_null(fnul, ip.rhs@, p + 1, ip.rhs@.len() as int) ==> {
            &&& ends[ip.lhs as int] ==> ends[a as int]
            &&& forall|j: int| 0 <= j < ncols && #[trigger] m[ip.lhs as int][j] ==> m[a as int][j]
        }
    }
}

pub open spec fn settled_follow(
    fnul: Seq<bool>,
    fm: Seq<Seq<bool>>,
    ends: Seq<bool>,
    m: Seq<Seq<bool>>,
    ip: IProd,
    ncols: int,
) -> bool {
    forall|p: int| 0 <= p < ip.rhs@.len() ==> #[trigger] settled_at(fnul, fm, ends, m, ip, p, ncols)
}

/// The pairs of a symbol and a lookahead that the flags hold.
pub open spec fn follow_set(u: Universe, ends: Seq<bool>, m: Seq<Seq<bool>>) -> Set<
    (SymView, Lookahead),
> {
    Set::new(|p: (SymView, Lookahead)| follow_has(u, ends, m, p.0, p.1))
}

proof fn lemma_follow_closed(
    u: Universe,
    g: GramView,
    iprods: Seq<IProd>,
    istart: int,
    fnul: Seq<bool>,
    fm: Seq<Seq<bool>>,
    ends: Seq<bool>,
    m: Seq<Seq<bool>>,
)
    requires
        u.wf(),
        mirrored(u, g, iprods),
        0 <= istart < u.nts.len(),
        g.start == u.nt(istart),
        ends[istart],
        shaped(u, fnul, fm),
        first_exact(u, g, fnul, fm),
        forall|k: int|
            0 <= k < iprods.len() ==> settled_follow(
                fnul,
                fm,
                ends,
                m,
                #[trigger] iprods[k],
                u.terms.len() as int,
            ),
    ensures
        closed_follow(g, follow_set(u, ends, m)),
{
    let fs = follow_set(u, ends, m);
    lemma_first_has_nt(u, ends, m, istart);
    assert(fs.contains((g.start, Lookahead::EndMarker)));
    assert forall|k: int, p: int, t: Seq<char>|
        0 <= k < g.prods.len() && 0 <= p < g.rhs(k).len() && g.rhs(k)[p] is NonTerminal
            && seq_starts(g, g.rhs(k).skip(p + 1), t) implies #[trigger] fs.contains(
        (g.rhs(k)[p], Lookahead::Sym(t)),
    ) by {
        let ip = iprods[k];
        assert(u.mirrors(g.prods[k], ip));
        let s = ip.rhs@[p];
        assert(u.valid(s) && u.sym(s) == g.rhs(k)[p]);
        lemma_hits_exact(u, g, fnul, fm, g.prods[k], ip, p + 1);
        let j = choose|j: int| 0 <= j < u.terms.len() && u.terms[j] == t;
        assert(hits(fnul, fm, ip.rhs@, p + 1, ip.rhs@.len() as int, j));
        assert(settled_follow(fnul, fm, ends, m, ip, u.terms.len() as int));
        assert(settled_at(fnul, fm, ends, m, ip, p, u.terms.len() as int));
        match s {
            ISym::T(_) => {},
            ISym::N(a) => {
                lemma_first_has_nt(u, ends, m, a as int);
                assert(m[a as int][j]);
            },
        }
    }
    assert forall|k: int, p: int, f: Lookahead|
        0 <= k < g.prods.len() && 0 <= p < g.rhs(k).len() && g.rhs(k)[p] is NonTerminal
            && seq_nullable(g, g.rhs(k).skip(p + 1)) && fs.contains(
            (g.lhs(k), f),
        ) implies #[trigger] fs.contains((g.rhs(k)[p], f)) by {
        let ip = iprods[k];
        assert(u.mirrors(g.prods[k], ip));
        let s = ip.rhs@[p];
        assert(u.valid(s) && u.sym(s) == g.rhs(k)[p]);
        lemma_hits_exact(u, g, fnul, fm, g.prods[k], ip, p + 1);
        assert(settled_follow(fnul, fm, ends, m, ip, u.terms.len() as int));
        assert(settled_at(fnul, fm, ends, m, ip, p, u.terms.len() as int));
        lemma_first_has_nt(u, ends, m, ip.lhs as int);
        assert(follow_has(u, ends, m, u.nt(ip.lhs as int), f));
        match s {
            ISym::T(_) => {},
            ISym::N(a) => {
                lemma_first_has_nt(u, ends, m, a as int);
                match f {
                    Lookahead::EndMarker => {
                        assert(ends[ip.lhs as int]);
                    },
                    Lookahead::Sym(t) => {
                        assert(first_has(u, ends, m, u.nt(ip.lhs as int), FstView::Sym(t)));
                        let j = choose|j: int|
                            0 <= j < u.terms.len() && u.terms[j] == t && m[ip.lhs as int][j];
                        assert(m[a as int][j]);
                    },
                }
            },
        }
    }
}

/// Whether the flags say of every symbol exactly what FOLLOW says.
pub open spec fn follow_exact(u: Universe, g: GramView, ends: Seq<bool>, m: Seq<Seq<bool>>) -> bool {
    forall|a: SymView, f: Lookahead| #[trigger] follow_has(u, ends, m, a, f) <==> in_follow(g, a, f)
}

/// Flags that are justified and that no production can add to are FOLLOW.
proof fn lemma_follow_fixpoint(
    u: Universe,
    g: GramView,
    iprods: Seq<IProd>,
    istart: int,
    fnul: Seq<bool>,
    fm: Seq<Seq<bool>>,
    ends: Seq<bool>,
    m: Seq<Seq<bool>>,
)
    requires
        u.wf(),
        g.well_formed(),
        mirrored(u, g, iprods),
        0 <= istart < u.nts.len(),
        g.start == u.nt(istart),
        ends[istart],
        shaped(u, fnul, fm),
        first_exact(u, g, fnul, fm),
        follow_sound(u, g, ends, m),
        forall|k: int|
            0 <= k < iprods.len() ==> settled_follow(
                fnul,
                fm,
                ends,
                m,
                #[trigger] iprods[k],
                u.terms.len() as int,
            ),
    ensures
        follow_exact(u, g, ends, m),
{
    lemma_follow_closed(u, g, iprods, istart, fnul, fm, ends, m);
    let fs = follow_set(u, ends, m);
    assert forall|a: SymView, f: Lookahead| #[trigger]
        follow_has(u, ends, m, a, f) <==> in_follow(g, a, f) by {
        if follow_has(u, ends, m, a, f) {
            lemma_index_of_some(u.nts, a.name());
            let i = index_of(u.nts, a.name())->Some_0;
            assert(u.nt(i) == a);
            match f {
                Lookahead::EndMarker => {
                    assert(ends[i]);
                },
                Lookahead::Sym(t) => {
                    lemma_index_of_some(u.terms, t);
                    let j = index_of(u.terms, t)->Some_0;
                    assert(m[i][j]);
                },
            }
        }
        if in_follow(g, a, f) {
            let n = choose|n: nat| follows_within(g, a, f, n);
            lemma_follow_complete(g, fs, a, f, n);
        }
    }
}

/// The FOLLOW sets of a grammar.
#[derive(Debug)]
pub struct FollowSets {
    nts: Vec<String>,
    terms: Vec<String>,
    ends: Vec<bool>,
    follows: Vec<Vec<bool>>,
}

impl FollowSets {
    pub closed spec fn universe(&self) -> Universe {
        Universe { nts: names_view(self.nts@), terms: names_view(self.terms@) }
    }

    pub closed spec fn end_flags(&self) -> Seq<bool> {
        self.ends@
    }

    pub closed spec fn follow_flags(&self) -> Seq<Seq<bool>> {
        rows_view(self.follows@)
    }

    #[verifier::type_invariant]
    pub closed spec fn inv(&self) -> bool {
        &&& self.universe().wf()
        &&& shaped(self.universe(), self.ends@, rows_view(self.follows@))
    }

    /// Whether `f` is in the set of `a`.
    pub closed spec fn has(&self, a: SymView, f: Lookahead) -> bool {
        follow_has(self.universe(), self.ends@, rows_view(self.follows@), a, f)
    }

    /// These are the FOLLOW sets of `g`, laid out over `g`'s name tables.
    pub closed spec fn is_follow_of(&self, g: &Gram) -> bool {
        &&& self.inv()
        &&& self.universe() == g.universe()
        &&& follow_exact(g.universe(), g@, self.ends@, rows_view(self.follows@))
    }

    /// FOLLOW sets of a grammar hold exactly what FOLLOW says.
    pub proof fn lemma_is_follow(&self, g: &Gram)
        requires
            self.is_follow_of(g),
        ensures
            forall|a: SymView, f: Lookahead| #[trigger] self.has(a, f) <==> in_follow(g@, a, f),
            self.universe() == g.universe(),
            self.universe().wf(),
            shaped(self.universe(), self.end_flags(), self.follow_flags()),
            follow_exact(g.universe(), g@, self.end_flags(), self.follow_flags()),
    {
        assert forall|a: SymView, f: Lookahead| #[trigger]
            self.has(a, f) <==> in_follow(g@, a, f) by {
            assert(follow_has(g.universe(), self.ends@, rows_view(self.follows@), a, f)
                <==> in_follow(g@, a, f));
        }
    }

    pub(crate) fn ends(&self) -> (r: &Vec<bool>)
        ensures
            r@ == self.end_flags(),
    {
        &self.ends
    }

    pub(crate) fn follows(&self) -> (r: &Vec<Vec<bool>>)
        ensures
            rows_view(r@) == self.follow_flags(),
    {
        &self.follows
    }

    /// Whether `elem` is in FOLLOW(`sym`).
    pub fn contains(&self, sym: &GramSym, elem: &FollSetSym) -> (r: bool)
        ensures
            r == self.has(sym@, elem@),
    {
        proof {
            use_type_invariant(self);
        }
        match sym {
            GramSym::Terminal(_) => false,
            GramSym::NonTerminal(n) => match find_name(&self.nts, n) {
                None => false,
                Some(i) => match elem {
                    FollSetSym::EndMarker => self.ends[i],
                    FollSetSym::Sym(t) => match find_name(&self.terms, t) {
                        None => false,
                        Some(j) => {
                            assert(rows_view(self.follows@)[i as int].len() == self.terms@.len());
                            self.follows[i][j]
                        },
                    },
                },
            },
        }
    }
}

/// What one production gives to the nonterminal at position `p` of its right
/// side is added to that nonterminal's flags.
fn follow_step(
    ip: &IProd,
    p: usize,
    a: usize,
    fnul: &Vec<bool>,
    fcells: &Vec<Vec<bool>>,
    ends: &mut Vec<bool>,
    cells: &mut Vec<Vec<bool>>,
    ncols: usize,
    Ghost(u): Ghost<Universe>,
    Ghost(g): Ghost<GramView>,
    Ghost(k): Ghost<int>,
) -> (ch: bool)
    requires
        u.wf(),
        0 <= k < g.prods.len(),
        u.mirrors(g.prods[k], *ip),
        p < ip.rhs@.len(),
        ip.rhs@[p as int] == ISym::N(a),
        ncols == u.terms.len(),
        shaped(u, fnul@, rows_view(fcells@)),
        first_exact(u, g, fnul@, rows_view(fcells@)),
        shaped(u, old(ends)@, rows_view(old(cells)@)),
        follow_sound(u, g, old(ends)@, rows_view(old(cells)@)),
    ensures
        shaped(u, final(ends)@, rows_view(final(cells)@)),
        follow_sound(u, g, final(ends)@, rows_view(final(cells)@)),
        forall|i: int| 0 <= i < u.nts.len() && old(ends)@[i] ==> #[trigger] final(ends)@[i],
        count_false(final(ends)@) + count_unset(rows_view(final(cells)@)) <= count_false(
            old(ends)@,
        ) + count_unset(rows_view(old(cells)@)),
        ch ==> count_false(final(ends)@) + count_unset(rows_view(final(cells)@)) < count_false(
            old(ends)@,
        ) + count_unset(rows_view(old(cells)@)),
        !ch ==> final(ends)@ == old(ends)@ && rows_view(final(cells)@) == rows_view(old(cells)@),
        !ch ==> settled_at(
            fnul@,
            rows_view(fcells@),
            final(ends)@,
            rows_view(final(cells)@),
            *ip,
            p as int,
            ncols as int,
        ),
{
    let ghost fm = rows_view(fcells@);
    let ghost m0 = rows_view(cells@);
    let ghost e0 = ends@;
    let ghost x = g.rhs(k)[p as int];
    proof {
        assert(u.valid(ip.rhs@[p as int]) && u.sym(ip.rhs@[p as int]) == x);
        assert forall|q: int| 0 <= q < ip.rhs@.len() implies valid_isym(
            #[trigger] ip.rhs@[q],
            fnul@.len() as int,
            ncols as int,
        ) by {
            assert(u.valid(ip.rhs@[q]));
        }
        lemma_hits_exact(u, g, fnul@, fm, g.prods[k], *ip, p + 1);
        assert(m0[a as int].len() == ncols);
        assert(m0[ip.lhs as int].len() == ncols);
    }
    let n = ip.rhs.len();
    assert(p < n);
    let (row, nl) = first_of_seq(fnul, fcells, &ip.rhs, p + 1, ncols);
    let c1 = absorb_row(cells, a, &row);
    let ghost m1 = rows_view(cells@);
    proof {
        assert forall|i: int| 0 <= i < u.nts.len() implies (#[trigger] m1[i]).len()
            == u.terms.len() by {
            if i != a {
                assert(m1[i] == m0[i]);
            }
        }
        assert forall|i: int, j: int|
            0 <= i < u.nts.len() && 0 <= j < u.terms.len() && #[trigger] m1[i][j] implies in_follow(
            g,
            u.nt(i),
            Lookahead::Sym(u.terms[j]),
        ) by {
            if i != a {
                assert(m1[i] == m0[i]);
            } else if !m0[i][j] {
                assert(row@[j]);
                assert(hits(fnul@, fm, ip.rhs@, p + 1, ip.rhs@.len() as int, j));
                lemma_follow_intro_first(g, k, p as int, u.terms[j]);
            }
        }
    }
    let mut c2 = false;
    let mut c3 = false;
    if nl {
        assert(m1[ip.lhs as int].len() == ncols);
        assert(m1[a as int].len() == ncols);
        let src = clone_flags(&cells[ip.lhs]);
        c2 = absorb_row(cells, a, &src);
        if ends[ip.lhs] {
            c3 = mark_flag(ends, a);
        }
        proof {
            let m2 = rows_view(cells@);
            assert(seq_nullable(g, g.rhs(k).skip(p + 1)));
            assert forall|i: int| 0 <= i < u.nts.len() implies (#[trigger] m2[i]).len()
                == u.terms.len() by {
                if i != a {
                    assert(m2[i] == m1[i]);
                }
            }
            assert forall|i: int, j: int|
                0 <= i < u.nts.len() && 0 <= j < u.terms.len() && #[trigger] m2[i][j] implies in_follow(
                g,
                u.nt(i),
                Lookahead::Sym(u.terms[j]),
            ) by {
                if i != a {
                    assert(m2[i] == m1[i]);
                } else if !m1[i][j] {
                    assert(src@[j]);
                    assert(m1[ip.lhs as int][j]);
                    lemma_follow_intro_lhs(g, k, p as int, Lookahead::Sym(u.terms[j]));
                }
            }
            assert forall|i: int| 0 <= i < u.nts.len() && #[trigger] ends@[i] implies in_follow(
                g,
                u.nt(i),
                Lookahead::EndMarker,
            ) by {
                if !e0[i] {
                    assert(e0[ip.lhs as int]);
                    lemma_follow_intro_lhs(g, k, p as int, Lookahead::EndMarker);
                }
            }
        }
    }
    proof {
        let m2 = rows_view(cells@);
        if !c1 && !c2 && !c3 {
            assert(m2 == m0);
            assert forall|j: int|
                0 <= j < ncols && #[trigger] hits(
                    fnul@,
                    fm,
                    ip.rhs@,
                    p + 1,
                    ip.rhs@.len() as int,
                    j,
                ) implies m2[a as int][j] by {
                assert(row@[j]);
            }
            if nl {
                assert forall|j: int| 0 <= j < ncols && #[trigger] m2[ip.lhs as int][j] implies m2[a as int][j] by {
                    assert(cells@[ip.lhs as int]@[j]);
                }
            }
        }
    }
    c1 || c2 || c3
}

impl Gram {
    /// FOLLOW of every nonterminal: the terminals that can come right after
    /// it in some derivation, and the end mark where the input can end there.
    pub fn follow_sets(&self, first_sets: &FirstSets) -> (r: FollowSets)
        requires
            first_sets.is_first_of(self),
        ensures
            r.is_follow_of(self),
            forall|a: SymView, f: Lookahead| #[trigger] r.has(a, f) <==> in_follow(self@, a, f),
            r.has(self@.start, Lookahead::EndMarker),
    {
        proof {
            use_type_invariant(self);
            self.lemma_inv();
            first_sets.lemma_is_first(self);
            lemma_follow_start(self@);
        }
        let nts = self.nts();
        let terms = self.terms();
        let iprods = self.iprods();
        let istart = self.istart();
        let fnul = first_sets.nullable();
        let fcells = first_sets.starts();
        let ghost u = self.universe();
        let ghost g = self@;
        let ghost fm = rows_view(fcells@);
        let nrows = nts.len();
        let ncols = terms.len();
        let mut ends = new_row(nrows);
        let mut cells = new_table(nrows, ncols);
        ends.set(istart, true);
        let mut changed = true;
        while changed
            invariant
                u.wf(),
                g.well_formed(),
                mirrored(u, g, iprods@),
                nrows == u.nts.len(),
                ncols == u.terms.len(),
                0 <= istart < u.nts.len(),
                g.start == u.nt(istart as int),
                ends@[istart as int],
                fm == rows_view(fcells@),
                shaped(u, fnul@, fm),
                first_exact(u, g, fnul@, fm),
                shaped(u, ends@, rows_view(cells@)),
                follow_sound(u, g, ends@, rows_view(cells@)),
                !changed ==> forall|k: int|
                    0 <= k < iprods@.len() ==> settled_follow(
                        fnul@,
                        fm,
                        ends@,
                        rows_view(cells@),
                        #[trigger] iprods@[k],
                        ncols as int,
                    ),
            decreases
                    count_false(ends@) + count_unset(rows_view(cells@)),
                    (if changed {
                        1int
                    } else {
                        0int
                    }),
        {
            changed = false;
            let ghost e0 = ends@;
            let ghost m0 = rows_view(cells@);
            let mut k: usize = 0;
            while k < iprods.len()
                invariant
                    k <= iprods@.len(),
                    u.wf(),
                    g.well_formed(),
                    mirrored(u, g, iprods@),
                    nrows == u.nts.len(),
                    ncols == u.terms.len(),
                    0 <= istart < u.nts.len(),
                    ends@[istart as int],
                    fm == rows_view(fcells@),
                    shaped(u, fnul@, fm),
                    first_exact(u, g, fnul@, fm),
                    shaped(u, ends@, rows_view(cells@)),
                    follow_sound(u, g, ends@, rows_view(cells@)),
                    count_false(ends@) + count_unset(rows_view(cells@)) <= count_false(e0)
                        + count_unset(m0),
                    changed ==> count_false(ends@) + count_unset(rows_view(cells@)) < count_false(
                        e0,
                    ) + count_unset(m0),
                    !changed ==> ends@ == e0 && rows_view(cells@) == m0,
                    !changed ==> forall|k2: int|
                        0 <= k2 < k ==> settled_follow(
                            fnul@,
                            fm,
                            ends@,
                            rows_view(cells@),
                            #[trigger] iprods@[k2],
                            ncols as int,
                        ),
                decreases iprods@.len() - k,
            {
                let ip = &iprods[k];
                proof {
                    assert(u.mirrors(g.prods[k as int], *ip));
                }
                let mut p: usize = 0;
                while p < ip.rhs.len()
                    invariant
                        p <= ip.rhs@.len(),
                        k < iprods@.len(),
                        *ip == iprods@[k as int],
                        u.wf(),
                        0 <= k < g.prods.len(),
                        u.mirrors(g.prods[k as int], *ip),
                        nrows == u.nts.len(),
                        ncols == u.terms.len(),
                        0 <= istart < u.nts.len(),
                        ends@[istart as int],
                        fm == rows_view(fcells@),
                        shaped(u, fnul@, fm),
                        first_exact(u, g, fnul@, fm),
                        shaped(u, ends@, rows_view(cells@)),
                        follow_sound(u, g, ends@, rows_view(cells@)),
                        count_false(ends@) + count_unset(rows_view(cells@)) <= count_false(e0)
                            + count_unset(m0),
                        changed ==> count_false(ends@) + count_unset(rows_view(cells@))
                            < count_false(e0) + count_unset(m0),
                        !changed ==> ends@ == e0 && rows_view(cells@) == m0,
                        !changed ==> forall|k2: int|
                            0 <= k2 < k ==> settled_follow(
                                fnul@,
                                fm,
                                ends@,
                                rows_view(cells@),
                                #[trigger] iprods@[k2],
                                ncols as int,
                            ),
                        !changed ==> forall|p0: int|
                            0 <= p0 < p ==> #[trigger] settled_at(
                                fnul@,
                                fm,
                                ends@,
                                rows_view(cells@),
                                *ip,
                                p0,
                                ncols as int,
                            ),
                    decreases ip.rhs@.len() - p,
                {
                    match ip.rhs[p] {
                        ISym::T(_) => {},
                        ISym::N(a) => {
                            let c = follow_step(
                                ip,
                                p,
                                a,
                                fnul,
                                fcells,
                                &mut ends,
                                &mut cells,
                                ncols,
                                Ghost(u),
                                Ghost(g),
                                Ghost(k as int),
                            );
                            if c {
                                changed = true;
                            }
                        },
                    }
                    p += 1;
                }
                k += 1;
            }
        }
        proof {
            lemma_follow_fixpoint(
                u,
                g,
                iprods@,
                istart as int,
                fnul@,
                fm,
                ends@,
                rows_view(cells@),
            );
        }
        let r = FollowSets {
            nts: clone_names(nts),
            terms: clone_names(terms),
            ends,
            follows: cells,
        };
        proof {
            assert(r.universe() == u);
            assert forall|a: SymView, f: Lookahead| #[trigger] r.has(a, f) <==> in_follow(
                self@,
                a,
                f,
            ) by {
                assert(follow_has(u, r.ends@, rows_view(r.follows@), a, f) <==> in_follow(g, a, f));
            }
        }
        r
    }
}

} // verus!
