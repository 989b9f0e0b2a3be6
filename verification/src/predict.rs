//! The prediction table: for a nonterminal and a lookahead, the one
//! production to expand by. Building it is the test for LL(1).
use crate::cells::{
    first_exact, first_has, first_of_seq, hits, lemma_first_has_nt, lemma_hits_exact, shaped,
    span_null, valid_isym,
};
use crate::bits::rows_view;
use crate::error::{TrapCode, TrapCodeView};
use crate::first::{FirstSets, mirrored};
use crate::follow::{FollowSets, follow_exact, follow_has};
use crate::gram::{
    Gram, GramProd, GramSym, GramView, IProd, ProdView, SymView, Universe, clone_names, find_name,
    index_of, lemma_index_of, lemma_index_of_some, names_view, prods_view,
};
use crate::theory::{
    FstView, Lookahead, claims, collides_at, conflict, in_follow, predict_table, predicted,
    seq_nullable, seq_starts,
};
use vstd::prelude::*;

verus! {

/// What the parser looks at to pick a production.
#[derive(Debug, Eq, PartialOrd, Ord, Hash)]
pub enum PredSetSym {
    Sym(String),
    EndMarker,
}

impl View for PredSetSym {
    type V = Lookahead;

    open spec fn view(&self) -> Lookahead {
        match self {
            PredSetSym::Sym(s) => Lookahead::Sym(s@),
            PredSetSym::EndMarker => Lookahead::EndMarker,
        }
    }
}

impl Clone for PredSetSym {
    fn clone(&self) -> (r: Self)
        ensures
            r == *self,
    {
        match self {
            PredSetSym::Sym(s) => PredSetSym::Sym(s.clone()),
            PredSetSym::EndMarker => PredSetSym::EndMarker,
        }
    }
}

impl PartialEq for PredSetSym {
    fn eq(&self, other: &PredSetSym) -> (r: bool) {
        match (self, other) {
            (PredSetSym::Sym(a), PredSetSym::Sym(b)) => *a == *b,
            (PredSetSym::EndMarker, PredSetSym::EndMarker) => true,
            _ => false,
        }
    }
}

impl vstd::std_specs::cmp::PartialEqSpecImpl for PredSetSym {
    open spec fn obeys_eq_spec() -> bool {
        true
    }

    open spec fn eq_spec(&self, other: &PredSetSym) -> bool {
        self@ == other@
    }
}

/// The rows of a table of slots.
pub open spec fn slot_rows(slots: Seq<Vec<Option<usize>>>) -> Seq<Seq<Option<usize>>> {
    Seq::new(slots.len(), |i: int| slots[i]@)
}

pub open spec fn slots_shaped(u: Universe, sl: Seq<Seq<Option<usize>>>, es: Seq<Option<usize>>) -> bool {
    &&& sl.len() == u.nts.len()
    &&& es.len() == u.nts.len()
    &&& forall|i: int| 0 <= i < u.nts.len() ==> (#[trigger] sl[i]).len() == u.terms.len()
}

/// The slot of nonterminal `a` under lookahead `f`.
pub open spec fn slot_of(
    u: Universe,
    sl: Seq<Seq<Option<usize>>>,
    es: Seq<Option<usize>>,
    a: SymView,
    f: Lookahead,
) -> Option<usize> {
    match a {
        SymView::Terminal(_) => None,
        SymView::NonTerminal(n) => match index_of(u.nts, n) {
            None => None,
            Some(i) => match f {
                Lookahead::EndMarker => es[i],
                Lookahead::Sym(t) => match index_of(u.terms, t) {
                    None => None,
                    Some(j) => sl[i][j],
                },
            },
        },
    }
}

/// A filled slot of row `i` holds a production of that row's nonterminal
/// that asks for it.
pub open spec fn entry_ok(
    g: GramView,
    iprods: Seq<IProd>,
    e: Option<usize>,
    i: int,
    f: Lookahead,
    kmax: int,
) -> bool {
    e matches Some(k0) ==> k0 < kmax && iprods[k0 as int].lhs == i && claims(g, k0 as int, f)
}

/// The slot holds a production that says what production `k2` says.
pub open spec fn registered(g: GramView, e: Option<usize>, k2: int) -> bool {
    e matches Some(k0) && g.prods[k0 as int] == g.prods[k2]
}

/// The table after the productions before `kdone` have been entered, with no
/// entry from `kmax` on.
pub open spec fn filled(
    u: Universe,
    g: GramView,
    iprods: Seq<IProd>,
    sl: Seq<Seq<Option<usize>>>,
    es: Seq<Option<usize>>,
    kdone: int,
    kmax: int,
) -> bool {
    &&& slots_shaped(u, sl, es)
    &&& forall|i: int, j: int|
        0 <= i < u.nts.len() && 0 <= j < u.terms.len() ==> entry_ok(
            g,
            iprods,
            #[trigger] sl[i][j],
            i,
            Lookahead::Sym(u.terms[j]),
            kmax,
        )
    &&& forall|i: int|
        0 <= i < u.nts.len() ==> entry_ok(g, iprods, #[trigger] es[i], i, Lookahead::EndMarker, kmax)
    &&& forall|k2: int, j: int|
        0 <= k2 < kdone && 0 <= j < u.terms.len() && #[trigger] claims(
            g,
            k2,
            Lookahead::Sym(u.terms[j]),
        ) ==> registered(g, sl[iprods[k2].lhs as int][j], k2)
    &&& forall|k2: int|
        0 <= k2 < kdone && #[trigger] claims(g, k2, Lookahead::EndMarker) ==> registered(
            g,
            es[iprods[k2].lhs as int],
            k2,
        )
}

/// What a production asks for, read off exact FIRST and FOLLOW flags.
pub proof fn lemma_claims_cells(
    u: Universe,
    g: GramView,
    k: int,
    ip: IProd,
    fnul: Seq<bool>,
    fm: Seq<Seq<bool>>,
    ends: Seq<bool>,
    fo: Seq<Seq<bool>>,
)
    requires
        u.wf(),
        shaped(u, fnul, fm),
        first_exact(u, g, fnul, fm),
        follow_exact(u, g, ends, fo),
        0 <= k < g.prods.len(),
        g.lhs(k) is NonTerminal,
        u.mirrors(g.prods[k], ip),
    ensures
        forall|j: int|
            0 <= j < u.terms.len() ==> #[trigger] claims(g, k, Lookahead::Sym(u.terms[j])) == (hits(
                fnul,
                fm,
                ip.rhs@,
                0,
                ip.rhs@.len() as int,
                j,
            ) || (span_null(fnul, ip.rhs@, 0, ip.rhs@.len() as int) && fo[ip.lhs as int][j])),
        claims(g, k, Lookahead::EndMarker) == (span_null(fnul, ip.rhs@, 0, ip.rhs@.len() as int)
            && ends[ip.lhs as int]),
        forall|t: Seq<char>| #[trigger]
            claims(g, k, Lookahead::Sym(t)) ==> exists|j: int|
                0 <= j < u.terms.len() && u.terms[j] == t,
{
    lemma_hits_exact(u, g, fnul, fm, g.prods[k], ip, 0);
    assert(g.rhs(k).skip(0) =~= g.rhs(k));
    lemma_first_has_nt(u, ends, fo, ip.lhs as int);
    let a = g.lhs(k);
    assert(a == u.nt(ip.lhs as int));
    assert forall|j: int| 0 <= j < u.terms.len() implies #[trigger] claims(
        g,
        k,
        Lookahead::Sym(u.terms[j]),
    ) == (hits(fnul, fm, ip.rhs@, 0, ip.rhs@.len() as int, j) || (span_null(
        fnul,
        ip.rhs@,
        0,
        ip.rhs@.len() as int,
    ) && fo[ip.lhs as int][j])) by {
        let f = Lookahead::Sym(u.terms[j]);
        assert(follow_has(u, ends, fo, a, f) <==> in_follow(g, a, f));
        assert(first_has(u, ends, fo, a, FstView::Sym(u.terms[j])) == fo[ip.lhs as int][j]);
    }
    assert(follow_has(u, ends, fo, a, Lookahead::EndMarker) <==> in_follow(
        g,
        a,
        Lookahead::EndMarker,
    ));
    assert forall|t: Seq<char>| #[trigger] claims(g, k, Lookahead::Sym(t)) implies exists|j: int|
        0 <= j < u.terms.len() && u.terms[j] == t by {
        if seq_starts(g, g.rhs(k), t) {
            assert(seq_starts(g, g.rhs(k).skip(0), t));
        } else {
            let f = Lookahead::Sym(t);
            assert(follow_has(u, ends, fo, a, f) <==> in_follow(g, a, f));
            assert(first_has(u, ends, fo, a, FstView::Sym(t)));
            let j = choose|j: int|
                0 <= j < u.terms.len() && u.terms[j] == t && fo[ip.lhs as int][j];
            assert(0 <= j < u.terms.len() && u.terms[j] == t);
        }
    }
}

pub open spec fn exact_flags(
    u: Universe,
    g: GramView,
    fnul: Seq<bool>,
    fm: Seq<Seq<bool>>,
    ends: Seq<bool>,
    fo: Seq<Seq<bool>>,
) -> bool {
    &&& shaped(u, fnul, fm)
    &&& first_exact(u, g, fnul, fm)
    &&& follow_exact(u, g, ends, fo)
}

/// A production that found each slot it asks for filled with a production
/// that says the same collides with none before it.
proof fn lemma_no_collision(
    u: Universe,
    g: GramView,
    iprods: Seq<IProd>,
    sl: Seq<Seq<Option<usize>>>,
    es: Seq<Option<usize>>,
    k: int,
    fnul: Seq<bool>,
    fm: Seq<Seq<bool>>,
    ends: Seq<bool>,
    fo: Seq<Seq<bool>>,
)
    requires
        u.wf(),
        g.well_formed(),
        mirrored(u, g, iprods),
        exact_flags(u, g, fnul, fm, ends, fo),
        0 <= k < g.prods.len(),
        filled(u, g, iprods, sl, es, k + 1, k + 1),
    ensures
        !collides_at(g, k),
{
    if collides_at(g, k) {
        let (k2, f) = choose|k2: int, f: Lookahead|
            0 <= k2 < k && g.prods[k2] != g.prods[k] && g.lhs(k2) == g.lhs(k) && #[trigger] claims(
                g,
                k2,
                f,
            ) && claims(g, k, f);
        assert(u.mirrors(g.prods[k], iprods[k]));
        assert(u.mirrors(g.prods[k2], iprods[k2]));
        let i = iprods[k].lhs as int;
        let i2 = iprods[k2].lhs as int;
        assert(u.nts[i] == u.nts[i2]);
        assert(i == i2);
        match f {
            Lookahead::EndMarker => {
                assert(registered(g, es[i], k));
                assert(registered(g, es[i2], k2));
            },
            Lookahead::Sym(t) => {
                lemma_claims_cells(u, g, k, iprods[k], fnul, fm, ends, fo);
                let j = choose|j: int| 0 <= j < u.terms.len() && u.terms[j] == t;
                assert(claims(g, k, Lookahead::Sym(u.terms[j])));
                assert(claims(g, k2, Lookahead::Sym(u.terms[j])));
                assert(registered(g, sl[i][j], k));
                assert(registered(g, sl[i2][j], k2));
            },
        }
    }
}

/// The map that a table of slots stands for.
pub open spec fn slots_map(
    u: Universe,
    pv: Seq<ProdView>,
    sl: Seq<Seq<Option<usize>>>,
    es: Seq<Option<usize>>,
) -> Map<(SymView, Lookahead), ProdView> {
    Map::new(
        |key: (SymView, Lookahead)| slot_of(u, sl, es, key.0, key.1) is Some,
        |key: (SymView, Lookahead)| pv[slot_of(u, sl, es, key.0, key.1)->0 as int],
    )
}

/// A table that holds every production's claims is the prediction table.
proof fn lemma_table_exact(
    u: Universe,
    g: GramView,
    iprods: Seq<IProd>,
    sl: Seq<Seq<Option<usize>>>,
    es: Seq<Option<usize>>,
    fnul: Seq<bool>,
    fm: Seq<Seq<bool>>,
    ends: Seq<bool>,
    fo: Seq<Seq<bool>>,
)
    requires
        u.wf(),
        g.well_formed(),
        mirrored(u, g, iprods),
        exact_flags(u, g, fnul, fm, ends, fo),
        filled(u, g, iprods, sl, es, g.prods.len() as int, g.prods.len() as int),
    ensures
        slots_map(u, g.prods, sl, es) == predict_table(g),
{
    let m1 = slots_map(u, g.prods, sl, es);
    let m2 = predict_table(g);
    assert forall|key: (SymView, Lookahead)| #[trigger]
        m1.dom().contains(key) implies m2.dom().contains(key) by {
        let (a, f) = key;
        let k0 = slot_of(u, sl, es, a, f)->0 as int;
        lemma_index_of_some(u.nts, a.name());
        let i = index_of(u.nts, a.name())->Some_0;
        match f {
            Lookahead::EndMarker => {
                assert(entry_ok(g, iprods, es[i], i, f, g.prods.len() as int));
            },
            Lookahead::Sym(t) => {
                lemma_index_of_some(u.terms, t);
                let j = index_of(u.terms, t)->Some_0;
                assert(entry_ok(g, iprods, sl[i][j], i, f, g.prods.len() as int));
            },
        }
        assert(u.mirrors(g.prods[k0], iprods[k0]));
        assert(g.lhs(k0) == a);
        assert(predicted(g, a, f, g.prods[k0]));
    }
    assert forall|key: (SymView, Lookahead)| #[trigger]
        m2.dom().contains(key) implies m1.dom().contains(key) && m1[key] == m2[key] by {
        let (a, f) = key;
        let p = choose|p: ProdView| predicted(g, a, f, p);
        let k = choose|k: int|
            0 <= k < g.prods.len() && g.prods[k] == p && g.lhs(k) == a && #[trigger] claims(
                g,
                k,
                f,
            );
        assert(u.mirrors(g.prods[k], iprods[k]));
        let i = iprods[k].lhs as int;
        lemma_index_of(u.nts, i);
        match f {
            Lookahead::EndMarker => {
                assert(registered(g, es[i], k));
            },
            Lookahead::Sym(t) => {
                lemma_claims_cells(u, g, k, iprods[k], fnul, fm, ends, fo);
                let j = choose|j: int| 0 <= j < u.terms.len() && u.terms[j] == t;
                lemma_index_of(u.terms, j);
                assert(claims(g, k, Lookahead::Sym(u.terms[j])));
                assert(registered(g, sl[i][j], k));
            },
        }
    }
    assert(m1.dom() =~= m2.dom());
    assert(m1 =~= m2);
}

/// Copies a sequence of productions.
pub fn clone_prods(v: &Vec<GramProd>) -> (r: Vec<GramProd>)
    ensures
        prods_view(r@) == prods_view(v@),
{
    let mut r: Vec<GramProd> = Vec::new();
    let mut i: usize = 0;
    while i < v.len()
        invariant
            i <= v.len(),
            r@.len() == i,
            forall|k: int| 0 <= k < i ==> (#[trigger] r@[k])@ == v@[k]@,
        decreases v.len() - i,
    {
        r.push(v[i].clone());
        i += 1;
    }
    assert(prods_view(r@) =~= prods_view(v@));
    r
}

/// A row of `n` empty slots.
fn new_slot_row(n: usize) -> (r: Vec<Option<usize>>)
    ensures
        r@.len() == n,
        forall|j: int| 0 <= j < n ==> (#[trigger] r@[j]) is None,
{
    let mut r: Vec<Option<usize>> = Vec::new();
    let mut j: usize = 0;
    while j < n
        invariant
            j <= n,
            r@.len() == j,
            forall|j2: int| 0 <= j2 < j ==> (#[trigger] r@[j2]) is None,
        decreases n - j,
    {
        r.push(None);
        j += 1;
    }
    r
}

/// A table of `nrows` rows of `ncols` empty slots.
fn new_slot_table(nrows: usize, ncols: usize) -> (r: Vec<Vec<Option<usize>>>)
    ensures
        r@.len() == nrows,
        forall|i: int| 0 <= i < nrows ==> (#[trigger] r@[i])@.len() == ncols,
        forall|i: int, j: int| 0 <= i < nrows && 0 <= j < ncols ==> (#[trigger] r@[i]@[j]) is None,
{
    let mut r: Vec<Vec<Option<usize>>> = Vec::new();
    let mut i: usize = 0;
    while i < nrows
        invariant
            i <= nrows,
            r@.len() == i,
            forall|i2: int| 0 <= i2 < i ==> (#[trigger] r@[i2])@.len() == ncols,
            forall|i2: int, j: int|
                0 <= i2 < i && 0 <= j < ncols ==> (#[trigger] r@[i2]@[j]) is None,
        decreases nrows - i,
    {
        r.push(new_slot_row(ncols));
        i += 1;
    }
    r
}

/// The prediction table of a grammar.
#[derive(Debug)]
pub struct PredSet {
    nts: Vec<String>,
    terms: Vec<String>,
    prods: Vec<GramProd>,
    slots: Vec<Vec<Option<usize>>>,
    end_slots: Vec<Option<usize>>,
}

impl View for PredSet {
    type V = Map<(SymView, Lookahead), ProdView>;

    closed spec fn view(&self) -> Map<(SymView, Lookahead), ProdView> {
        slots_map(self.universe(), prods_view(self.prods@), slot_rows(self.slots@), self.end_slots@)
    }
}

impl PredSet {
    pub closed spec fn universe(&self) -> Universe {
        Universe { nts: names_view(self.nts@), terms: names_view(self.terms@) }
    }

    #[verifier::type_invariant]
    pub closed spec fn inv(&self) -> bool {
        &&& self.universe().wf()
        &&& slots_shaped(self.universe(), slot_rows(self.slots@), self.end_slots@)
        &&& forall|i: int, j: int|
            0 <= i < self.nts@.len() && 0 <= j < self.terms@.len() ==> (
            #[trigger] slot_rows(self.slots@)[i][j] matches Some(k0) ==> k0 < self.prods@.len())
        &&& forall|i: int|
            0 <= i < self.nts@.len() ==> (#[trigger] self.end_slots@[i] matches Some(k0) ==> k0
                < self.prods@.len())
    }

    /// The production to expand `lfsym` by when `la` comes next, if there is
    /// one.
    pub fn predict(&self, lfsym: &GramSym, la: PredSetSym) -> (r: Option<&GramProd>)
        ensures
            match r {
                Some(p) => self@.dom().contains((lfsym@, la@)) && p@ == self@[(lfsym@, la@)],
                None => !self@.dom().contains((lfsym@, la@)),
            },
    {
        proof {
            use_type_invariant(self);
        }
        match lfsym {
            GramSym::Terminal(_) => None,
            GramSym::NonTerminal(n) => match find_name(&self.nts, n) {
                None => None,
                Some(i) => {
                    let e = match la {
                        PredSetSym::EndMarker => self.end_slots[i],
                        PredSetSym::Sym(t) => match find_name(&self.terms, &t) {
                            None => None,
                            Some(j) => {
                                assert(slot_rows(self.slots@)[i as int].len() == self.terms@.len());
                                assert(slot_rows(self.slots@)[i as int][j as int]
                                    == self.slots@[i as int]@[j as int]);
                                self.slots[i][j]
                            },
                        },
                    };
                    assert(e == slot_of(
                        self.universe(),
                        slot_rows(self.slots@),
                        self.end_slots@,
                        lfsym@,
                        la@,
                    ));
                    match e {
                        None => None,
                        Some(k0) => Some(&self.prods[k0]),
                    }
                },
            },
        }
    }
}

/// Production `k` is the first, in the grammar's order, that collides with
/// one before it.
pub open spec fn first_collision(g: GramView, k: int) -> bool {
    &&& 0 <= k < g.prods.len()
    &&& collides_at(g, k)
    &&& forall|k2: int| 0 <= k2 < k ==> !#[trigger] collides_at(g, k2)
}

/// What building the prediction table of `g` may end in: the table where no
/// two rules collide, else the first rule that collides with one before it.
pub open spec fn prediction_outcome(
    g: GramView,
    r: Result<Map<(SymView, Lookahead), ProdView>, TrapCodeView>,
) -> bool {
    match r {
        Ok(t) => !conflict(g) && t == predict_table(g),
        Err(e) => exists|k: int|
            #[trigger] first_collision(g, k) && e == TrapCodeView::AmbigousLLRule(
                g.prods[k].text(),
            ),
    }
}

/// What building a prediction table gave, as a mathematical value.
pub open spec fn outcome_view(r: Result<PredSet, TrapCode>) -> Result<
    Map<(SymView, Lookahead), ProdView>,
    TrapCodeView,
> {
    match r {
        Ok(t) => Ok(t@),
        Err(e) => Err(e@),
    }
}

/// Enters production `k` into slot `e`. `None` when the slot holds a
/// production that says something else.
fn enter(e: Option<usize>, k: usize, prods: &Vec<GramProd>) -> (r: Option<usize>)
    requires
        k < prods@.len(),
        e matches Some(k0) ==> k0 < prods@.len(),
    ensures
        match e {
            None => r == Some(k),
            Some(k0) => if prods@[k0 as int]@ == prods@[k as int]@ {
                r == e
            } else {
                r is None
            },
        },
{
    match e {
        None => Some(k),
        Some(k0) => if prods[k0] == prods[k] {
            e
        } else {
            None
        },
    }
}

impl Gram {
    /// The prediction table, or the first rule that asks for a slot that a
    /// different rule holds.
    pub fn prediction_sets(&self, first_sets: &FirstSets, follow_sets: &FollowSets) -> (r: Result<
        PredSet,
        TrapCode,
    >)
        requires
            first_sets.is_first_of(self),
            follow_sets.is_follow_of(self),
        ensures
            r is Ok <==> !conflict(self@),
            prediction_outcome(self@, outcome_view(r)),
    {
        proof {
            use_type_invariant(self);
            self.lemma_inv();
            first_sets.lemma_is_first(self);
            follow_sets.lemma_is_follow(self);
        }
        let nts = self.nts();
        let terms = self.terms();
        let iprods = self.iprods();
        let prods = self.productions();
        let fnul = first_sets.nullable();
        let fcells = first_sets.starts();
        let ends = follow_sets.ends();
        let focells = follow_sets.follows();
        let ghost u = self.universe();
        let ghost g = self@;
        let ghost fm = rows_view(fcells@);
        let ghost fo = rows_view(focells@);
        let nrows = nts.len();
        let ncols = terms.len();
        let mut slots = new_slot_table(nrows, ncols);
        let mut end_slots = new_slot_row(nrows);
        let mut k: usize = 0;
        while k < iprods.len()
            invariant
                k <= iprods@.len(),
                g == self@,
                u.wf(),
                g.well_formed(),
                mirrored(u, g, iprods@),
                g.prods == prods_view(prods@),
                nrows == u.nts.len(),
                ncols == u.terms.len(),
                fm == rows_view(fcells@),
                fo == rows_view(focells@),
                exact_flags(u, g, fnul@, fm, ends@, fo),
                shaped(u, ends@, fo),
                filled(u, g, iprods@, slot_rows(slots@), end_slots@, k as int, k as int),
                forall|k2: int| 0 <= k2 < k ==> !#[trigger] collides_at(g, k2),
            decreases iprods@.len() - k,
        {
            let ip = &iprods[k];
            let lhs = ip.lhs;
            proof {
                assert(u.mirrors(g.prods[k as int], *ip));
                assert(g.prods[k as int].lhs is NonTerminal);
                assert forall|q: int| 0 <= q < ip.rhs@.len() implies valid_isym(
                    #[trigger] ip.rhs@[q],
                    fnul@.len() as int,
                    ncols as int,
                ) by {
                    assert(u.valid(ip.rhs@[q]));
                }
                lemma_claims_cells(u, g, k as int, *ip, fnul@, fm, ends@, fo);
                assert(fo[lhs as int].len() == ncols);
            }
            let (row, nl) = first_of_seq(fnul, fcells, &ip.rhs, 0, ncols);
            let mut j: usize = 0;
            while j < ncols
                invariant
                    j <= ncols,
                    k < iprods@.len(),
                    *ip == iprods@[k as int],
                    lhs == ip.lhs,
                    lhs < nrows,
                    g == self@,
                    shaped(u, ends@, fo),
                    u.wf(),
                    mirrored(u, g, iprods@),
                    g.prods == prods_view(prods@),
                    nrows == u.nts.len(),
                    ncols == u.terms.len(),
                    fo == rows_view(focells@),
                    fo[lhs as int].len() == ncols,
                    row@.len() == ncols,
                    forall|j2: int|
                        0 <= j2 < ncols ==> #[trigger] claims(g, k as int, Lookahead::Sym(u.terms[j2]))
                            == (row@[j2] || (nl && fo[lhs as int][j2])),
                    filled(u, g, iprods@, slot_rows(slots@), end_slots@, k as int, k + 1),
                    forall|j2: int|
                        0 <= j2 < j && #[trigger] claims(g, k as int, Lookahead::Sym(u.terms[j2]))
                            ==> registered(g, slot_rows(slots@)[lhs as int][j2], k as int),
                    forall|k2: int| 0 <= k2 < k ==> !#[trigger] collides_at(g, k2),
                decreases ncols - j,
            {
                let ghost sl0 = slot_rows(slots@);
                assert(sl0[lhs as int].len() == ncols);
                assert(fo[lhs as int] == focells@[lhs as int]@);
                assert(claims(g, k as int, Lookahead::Sym(u.terms[j as int])) == (row@[j as int]
                    || (nl && fo[lhs as int][j as int])));
                if row[j] || (nl && focells[lhs][j]) {
                    let e0 = slots[lhs][j];
                    assert(e0 == sl0[lhs as int][j as int]);
                    assert(entry_ok(
                        g,
                        iprods@,
                        sl0[lhs as int][j as int],
                        lhs as int,
                        Lookahead::Sym(u.terms[j as int]),
                        k + 1,
                    ));
                    match enter(e0, k, prods) {
                        None => {
                            proof {
                                let k0 = e0->0 as int;
                                assert(g.prods[k0] == prods@[k0]@);
                                assert(g.prods[k as int] == prods@[k as int]@);
                                assert(u.mirrors(g.prods[k0], iprods@[k0]));
                                assert(g.lhs(k0) == g.lhs(k as int));
                                assert(k0 < k);
                                assert(collides_at(g, k as int));
                                assert(first_collision(g, k as int));
                            }
                            return Err(TrapCode::AmbigousLLRule(prods[k].text()));
                        },
                        Some(k1) => {
                            slots[lhs][j] = Some(k1);
                            proof {
                                let sl1 = slot_rows(slots@);
                                assert(sl1[lhs as int] =~= sl0[lhs as int].update(
                                    j as int,
                                    Some(k1),
                                ));
                                assert forall|i: int| 0 <= i < nrows && i != lhs implies sl1[i]
                                    == sl0[i] by {}
                                assert(g.prods[k1 as int] == prods@[k1 as int]@);
                                assert(g.prods[k as int] == prods@[k as int]@);
                                assert(registered(g, sl1[lhs as int][j as int], k as int));
                                assert forall|i: int, j2: int|
                                    0 <= i < u.nts.len() && 0 <= j2 < u.terms.len() implies entry_ok(
                                    g,
                                    iprods@,
                                    #[trigger] sl1[i][j2],
                                    i,
                                    Lookahead::Sym(u.terms[j2]),
                                    k + 1,
                                ) by {
                                    assert(entry_ok(
                                        g,
                                        iprods@,
                                        sl0[i][j2],
                                        i,
                                        Lookahead::Sym(u.terms[j2]),
                                        k + 1,
                                    ));
                                }
                                assert forall|k2: int, j2: int|
                                    0 <= k2 < k && 0 <= j2 < u.terms.len() && #[trigger] claims(
                                        g,
                                        k2,
                                        Lookahead::Sym(u.terms[j2]),
                                    ) implies registered(
                                    g,
                                    sl1[iprods@[k2].lhs as int][j2],
                                    k2,
                                ) by {
                                    assert(registered(g, sl0[iprods@[k2].lhs as int][j2], k2));
                                    assert(u.mirrors(g.prods[k2], iprods@[k2]));
                                }
                                assert forall|j2: int|
                                    0 <= j2 < j + 1 && #[trigger] claims(
                                        g,
                                        k as int,
                                        Lookahead::Sym(u.terms[j2]),
                                    ) implies registered(g, sl1[lhs as int][j2], k as int) by {
                                    if j2 < j {
                                        assert(registered(g, sl0[lhs as int][j2], k as int));
                                    }
                                }
                            }
                        },
                    }
                }
                j += 1;
            }
            if nl && ends[lhs] {
                let e0 = end_slots[lhs];
                assert(entry_ok(g, iprods@, end_slots@[lhs as int], lhs as int, Lookahead::EndMarker, k + 1));
                match enter(e0, k, prods) {
                    None => {
                        proof {
                            let k0 = e0->0 as int;
                            assert(g.prods[k0] == prods@[k0]@);
                            assert(g.prods[k as int] == prods@[k as int]@);
                            assert(u.mirrors(g.prods[k0], iprods@[k0]));
                            assert(g.lhs(k0) == g.lhs(k as int));
                            assert(k0 < k);
                            assert(claims(g, k0, Lookahead::EndMarker));
                            assert(collides_at(g, k as int));
                            assert(first_collision(g, k as int));
                        }
                        return Err(TrapCode::AmbigousLLRule(prods[k].text()));
                    },
                    Some(k1) => {
                        let ghost es0 = end_slots@;
                        end_slots.set(lhs, Some(k1));
                        proof {
                            assert(g.prods[k1 as int] == prods@[k1 as int]@);
                            assert(g.prods[k as int] == prods@[k as int]@);
                            assert forall|i: int| 0 <= i < u.nts.len() implies entry_ok(
                                g,
                                iprods@,
                                #[trigger] end_slots@[i],
                                i,
                                Lookahead::EndMarker,
                                k + 1,
                            ) by {
                                assert(entry_ok(g, iprods@, es0[i], i, Lookahead::EndMarker, k + 1));
                            }
                            assert forall|k2: int|
                                0 <= k2 < k && #[trigger] claims(
                                    g,
                                    k2,
                                    Lookahead::EndMarker,
                                ) implies registered(g, end_slots@[iprods@[k2].lhs as int], k2) by {
                                assert(registered(g, es0[iprods@[k2].lhs as int], k2));
                            }
                        }
                    },
                }
            }
            proof {
                assert(filled(u, g, iprods@, slot_rows(slots@), end_slots@, k + 1, k + 1));
                lemma_no_collision(
                    u,
                    g,
                    iprods@,
                    slot_rows(slots@),
                    end_slots@,
                    k as int,
                    fnul@,
                    fm,
                    ends@,
                    fo,
                );
            }
            k += 1;
        }
        proof {
            lemma_table_exact(u, g, iprods@, slot_rows(slots@), end_slots@, fnul@, fm, ends@, fo);
            assert(!conflict(g));
        }
        let t = PredSet {
            nts: clone_names(nts),
            terms: clone_names(terms),
            prods: clone_prods(prods),
            slots,
            end_slots,
        };
        proof {
            assert(t.universe() == u);
            assert forall|i: int, j: int|
                0 <= i < t.nts@.len() && 0 <= j < t.terms@.len() implies (
            #[trigger] slot_rows(t.slots@)[i][j] matches Some(k0) ==> k0 < t.prods@.len()) by {
                assert(entry_ok(
                    g,
                    iprods@,
                    slot_rows(slots@)[i][j],
                    i,
                    Lookahead::Sym(u.terms[j]),
                    g.prods.len() as int,
                ));
            }
            assert forall|i: int| 0 <= i < t.nts@.len() implies (
            #[trigger] t.end_slots@[i] matches Some(k0) ==> k0 < t.prods@.len()) by {
                assert(entry_ok(
                    g,
                    iprods@,
                    end_slots@[i],
                    i,
                    Lookahead::EndMarker,
                    g.prods.len() as int,
                ));
            }
            assert(prods_view(t.prods@) == g.prods);
        }
        Ok(t)
    }
}

} // verus!
