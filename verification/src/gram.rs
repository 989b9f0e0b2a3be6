//! The grammar model: symbols, right-hand sides, productions and the grammar
//! itself, each with the mathematical view that the contracts speak of.
use vstd::prelude::*;
use vstd::std_specs::cmp::PartialEqSpecImpl;
use vstd::string::StringExecFns;

verus! {

/// What a grammar symbol is, as a mathematical value.
pub enum SymView {
    Terminal(Seq<char>),
    NonTerminal(Seq<char>),
}

impl SymView {
    pub open spec fn name(self) -> Seq<char> {
        match self {
            SymView::Terminal(n) => n,
            SymView::NonTerminal(n) => n,
        }
    }
}

/// A grammar symbol: a terminal, matched against input tokens, or a
/// nonterminal, expanded by productions.
#[derive(Debug, Eq, PartialOrd, Ord, Hash)]
pub enum GramSym {
    Terminal(String),
    NonTerminal(String),
}

impl View for GramSym {
    type V = SymView;

    open spec fn view(&self) -> SymView {
        match self {
            GramSym::Terminal(s) => SymView::Terminal(s@),
            GramSym::NonTerminal(s) => SymView::NonTerminal(s@),
        }
    }
}

impl Clone for GramSym {
    fn clone(&self) -> (r: Self)
        ensures
            r == *self,
    {
        match self {
            GramSym::Terminal(s) => GramSym::Terminal(s.clone()),
            GramSym::NonTerminal(s) => GramSym::NonTerminal(s.clone()),
        }
    }
}

impl PartialEq for GramSym {
    fn eq(&self, other: &GramSym) -> (r: bool) {
        match (self, other) {
            (GramSym::Terminal(a), GramSym::Terminal(b)) => *a == *b,
            (GramSym::NonTerminal(a), GramSym::NonTerminal(b)) => *a == *b,
            _ => false,
        }
    }
}

impl PartialEqSpecImpl for GramSym {
    open spec fn obeys_eq_spec() -> bool {
        true
    }

    open spec fn eq_spec(&self, other: &GramSym) -> bool {
        self@ == other@
    }
}

impl GramSym {
    pub fn is_terminal(&self) -> (r: bool)
        ensures
            r == (self@ is Terminal),
    {
        match self {
            GramSym::Terminal(_) => true,
            GramSym::NonTerminal(_) => false,
        }
    }

    pub fn is_nonterminal(&self) -> (r: bool)
        ensures
            r == (self@ is NonTerminal),
    {
        !self.is_terminal()
    }

    pub fn name(&self) -> (r: &String)
        ensures
            r@ == self@.name(),
    {
        match self {
            GramSym::Terminal(s) => s,
            GramSym::NonTerminal(s) => s,
        }
    }
}

/// The views of a sequence of symbols, position by position.
pub open spec fn syms_view(v: Seq<GramSym>) -> Seq<SymView> {
    Seq::new(v.len(), |i: int| v[i]@)
}

/// Copies a symbol sequence.
pub fn clone_syms(v: &Vec<GramSym>) -> (r: Vec<GramSym>)
    ensures
        r@ == v@,
{
    let mut r: Vec<GramSym> = Vec::new();
    let mut i: usize = 0;
    while i < v.len()
        invariant
            i <= v.len(),
            r@ == v@.take(i as int),
        decreases v.len() - i,
    {
        r.push(v[i].clone());
        assert(v@.take(i as int).push(v@[i as int]) =~= v@.take(i + 1));
        i += 1;
    }
    assert(v@.take(v.len() as int) =~= v@);
    r
}

/// Whether two symbol sequences hold the same symbols in the same order.
pub fn same_syms(a: &Vec<GramSym>, b: &Vec<GramSym>) -> (r: bool)
    ensures
        r == (syms_view(a@) == syms_view(b@)),
{
    if a.len() != b.len() {
        assert(syms_view(a@).len() != syms_view(b@).len());
        return false;
    }
    let mut i: usize = 0;
    while i < a.len()
        invariant
            i <= a.len(),
            a.len() == b.len(),
            forall|j: int| 0 <= j < i ==> a@[j]@ == b@[j]@,
        decreases a.len() - i,
    {
        if !(a[i] == b[i]) {
            assert(syms_view(a@)[i as int] != syms_view(b@)[i as int]);
            return false;
        }
        i += 1;
    }
    assert(syms_view(a@) =~= syms_view(b@));
    true
}

/// What a right-hand side is, as a mathematical value.
pub enum SymStrView {
    Str(Seq<SymView>),
    Epsilon,
}

impl SymStrView {
    /// The symbols of the right-hand side; none for the empty string.
    pub open spec fn syms(self) -> Seq<SymView> {
        match self {
            SymStrView::Str(v) => v,
            SymStrView::Epsilon => Seq::empty(),
        }
    }
}

/// The right-hand side of a production: the empty string, or symbols in
/// derivation order.
#[derive(Debug, Eq)]
pub enum GramSymStr {
    Str(Vec<GramSym>),
    Epsilon,
}

impl View for GramSymStr {
    type V = SymStrView;

    open spec fn view(&self) -> SymStrView {
        match self {
            GramSymStr::Str(v) => SymStrView::Str(syms_view(v@)),
            GramSymStr::Epsilon => SymStrView::Epsilon,
        }
    }
}

impl Clone for GramSymStr {
    fn clone(&self) -> (r: Self)
        ensures
            r@ == self@,
    {
        match self {
            GramSymStr::Str(v) => GramSymStr::Str(clone_syms(v)),
            GramSymStr::Epsilon => GramSymStr::Epsilon,
        }
    }
}

impl PartialEq for GramSymStr {
    fn eq(&self, other: &GramSymStr) -> (r: bool) {
        match (self, other) {
            (GramSymStr::Str(a), GramSymStr::Str(b)) => same_syms(a, b),
            (GramSymStr::Epsilon, GramSymStr::Epsilon) => true,
            _ => false,
        }
    }
}

impl PartialEqSpecImpl for GramSymStr {
    open spec fn obeys_eq_spec() -> bool {
        true
    }

    open spec fn eq_spec(&self, other: &GramSymStr) -> bool {
        self@ == other@
    }
}

/// What a production is, as a mathematical value.
pub struct ProdView {
    pub lhs: SymView,
    pub rhs: SymStrView,
}

/// A production: a left-hand symbol and what it may be rewritten to.
#[derive(Debug, Eq)]
pub struct GramProd {
    pub lfsym: GramSym,
    pub rhstr: GramSymStr,
}

impl View for GramProd {
    type V = ProdView;

    open spec fn view(&self) -> ProdView {
        ProdView { lhs: self.lfsym@, rhs: self.rhstr@ }
    }
}

impl Clone for GramProd {
    fn clone(&self) -> (r: Self)
        ensures
            r@ == self@,
    {
        GramProd { lfsym: self.lfsym.clone(), rhstr: self.rhstr.clone() }
    }
}

impl PartialEq for GramProd {
    fn eq(&self, other: &GramProd) -> (r: bool) {
        self.lfsym == other.lfsym && self.rhstr == other.rhstr
    }
}

impl PartialEqSpecImpl for GramProd {
    open spec fn obeys_eq_spec() -> bool {
        true
    }

    open spec fn eq_spec(&self, other: &GramProd) -> bool {
        self@ == other@
    }
}

/// The names of the symbols, with one space between neighbours.
pub open spec fn join_names(v: Seq<SymView>) -> Seq<char>
    decreases v.len(),
{
    if v.len() == 0 {
        Seq::empty()
    } else if v.len() == 1 {
        v[0].name()
    } else {
        join_names(v.drop_last()) + " "@ + v.last().name()
    }
}

impl SymStrView {
    /// The right-hand side as it is written in a rule.
    pub open spec fn text(self) -> Seq<char> {
        match self {
            SymStrView::Str(v) => join_names(v),
            SymStrView::Epsilon => "\u{3b5}"@,
        }
    }
}

impl ProdView {
    /// The production as a rule: left symbol, arrow, right-hand side.
    pub open spec fn text(self) -> Seq<char> {
        self.lhs.name() + " -> "@ + self.rhs.text()
    }
}

impl GramSymStr {
    /// The right-hand side as it is written in a rule.
    pub fn text(&self) -> (r: String)
        ensures
            r@ == self@.text(),
    {
        match self {
            GramSymStr::Epsilon => String::from_str("\u{3b5}"),
            GramSymStr::Str(v) => {
                let mut s = String::new();
                let mut i: usize = 0;
                while i < v.len()
                    invariant
                        i <= v.len(),
                        s@ == join_names(syms_view(v@).take(i as int)),
                    decreases v.len() - i,
                {
                    let ghost prev = syms_view(v@).take(i as int);
                    let ghost cur = syms_view(v@).take(i + 1);
                    proof {
                        assert(cur.drop_last() =~= prev);
                        assert(cur.last() == v@[i as int]@);
                    }
                    if i > 0 {
                        s.append(" ");
                    } else {
                        assert(s@ + v@[i as int]@.name() =~= v@[i as int]@.name());
                    }
                    s.append(v[i].name().as_str());
                    i += 1;
                }
                assert(syms_view(v@).take(v.len() as int) =~= syms_view(v@));
                s
            },
        }
    }
}

impl GramProd {
    pub fn new(lfsym: GramSym, rhstr: GramSymStr) -> (r: Self)
        ensures
            r.lfsym == lfsym,
            r.rhstr == rhstr,
    {
        GramProd { lfsym, rhstr }
    }

    /// The production as a rule: left symbol, arrow, right-hand side.
    pub fn text(&self) -> (r: String)
        ensures
            r@ == self@.text(),
    {
        let mut s = self.lfsym.name().clone();
        s.append(" -> ");
        let rhs = self.rhstr.text();
        s.append(rhs.as_str());
        s
    }
}

/// The views of a sequence of productions, position by position.
pub open spec fn prods_view(v: Seq<GramProd>) -> Seq<ProdView> {
    Seq::new(v.len(), |i: int| v[i]@)
}

/// What a grammar is, as a mathematical value.
pub struct GramView {
    pub name: Seq<char>,
    pub prods: Seq<ProdView>,
    pub start: SymView,
}

impl GramView {
    /// The symbols on the right of production `k`.
    pub open spec fn rhs(self, k: int) -> Seq<SymView> {
        self.prods[k].rhs.syms()
    }

    /// The symbol on the left of production `k`.
    pub open spec fn lhs(self, k: int) -> SymView {
        self.prods[k].lhs
    }

    /// Every production rewrites a nonterminal, and so does the start symbol.
    pub open spec fn well_formed(self) -> bool {
        &&& self.start is NonTerminal
        &&& forall|k: int| 0 <= k < self.prods.len() ==> (#[trigger] self.prods[k]).lhs is NonTerminal
    }
}

/// A symbol by its position in the grammar's name tables.
#[derive(Clone, Copy, Debug)]
pub enum ISym {
    T(usize),
    N(usize),
}

/// A production over table positions.
#[derive(Debug)]
pub struct IProd {
    pub lhs: usize,
    pub rhs: Vec<ISym>,
}

/// The views of a sequence of names, position by position.
pub open spec fn names_view(v: Seq<String>) -> Seq<Seq<char>> {
    Seq::new(v.len(), |i: int| v[i]@)
}

/// The name tables of a grammar: its nonterminals and its terminals, each
/// listed once.
pub struct Universe {
    pub nts: Seq<Seq<char>>,
    pub terms: Seq<Seq<char>>,
}

impl Universe {
    pub open spec fn wf(self) -> bool {
        &&& self.nts.no_duplicates()
        &&& self.terms.no_duplicates()
    }

    pub open spec fn nt(self, i: int) -> SymView {
        SymView::NonTerminal(self.nts[i])
    }

    pub open spec fn term(self, j: int) -> SymView {
        SymView::Terminal(self.terms[j])
    }

    pub open spec fn valid(self, s: ISym) -> bool {
        match s {
            ISym::T(j) => j < self.terms.len(),
            ISym::N(i) => i < self.nts.len(),
        }
    }

    pub open spec fn sym(self, s: ISym) -> SymView {
        match s {
            ISym::T(j) => self.term(j as int),
            ISym::N(i) => self.nt(i as int),
        }
    }

    /// `ip` is production `p` written over this universe's positions.
    pub open spec fn mirrors(self, p: ProdView, ip: IProd) -> bool {
        &&& ip.lhs < self.nts.len()
        &&& p.lhs == self.nt(ip.lhs as int)
        &&& ip.rhs@.len() == p.rhs.syms().len()
        &&& forall|q: int|
            0 <= q < ip.rhs@.len() ==> self.valid(#[trigger] ip.rhs@[q]) && self.sym(ip.rhs@[q])
                == p.rhs.syms()[q]
    }

    /// `other` lists every name of `self` at the same position.
    pub open spec fn extended_by(self, other: Universe) -> bool {
        &&& self.nts.len() <= other.nts.len()
        &&& self.terms.len() <= other.terms.len()
        &&& forall|i: int| 0 <= i < self.nts.len() ==> self.nts[i] == other.nts[i]
        &&& forall|j: int| 0 <= j < self.terms.len() ==> self.terms[j] == other.terms[j]
    }

    pub proof fn lemma_mirrors_extended(self, other: Universe, p: ProdView, ip: IProd)
        requires
            self.extended_by(other),
            self.mirrors(p, ip),
        ensures
            other.mirrors(p, ip),
    {
        assert forall|q: int| 0 <= q < ip.rhs@.len() implies other.valid(#[trigger] ip.rhs@[q])
            && other.sym(ip.rhs@[q]) == p.rhs.syms()[q] by {
            assert(self.valid(ip.rhs@[q]));
        }
    }
}

/// The position of a name in a table, if it is listed.
pub open spec fn index_of(names: Seq<Seq<char>>, s: Seq<char>) -> Option<int> {
    if exists|i: int| 0 <= i < names.len() && names[i] == s {
        Some(choose|i: int| 0 <= i < names.len() && names[i] == s)
    } else {
        None
    }
}

pub proof fn lemma_index_of(names: Seq<Seq<char>>, i: int)
    requires
        names.no_duplicates(),
        0 <= i < names.len(),
    ensures
        index_of(names, names[i]) == Some(i),
{
}

pub proof fn lemma_index_of_some(names: Seq<Seq<char>>, s: Seq<char>)
    ensures
        index_of(names, s) matches Some(i) ==> 0 <= i < names.len() && names[i] == s,
        index_of(names, s) is None ==> forall|i: int| 0 <= i < names.len() ==> names[i] != s,
{
}

/// Looks a name up in a table.
pub fn find_name(names: &Vec<String>, s: &String) -> (r: Option<usize>)
    ensures
        r matches Some(i) ==> i < names.len() && names@[i as int]@ == s@,
        r is None ==> forall|i: int| 0 <= i < names.len() ==> names@[i]@ != s@,
        names_view(names@).no_duplicates() ==> (match r {
            Some(i) => index_of(names_view(names@), s@) == Some(i as int),
            None => index_of(names_view(names@), s@) is None,
        }),
{
    let mut i: usize = 0;
    while i < names.len()
        invariant
            i <= names.len(),
            forall|j: int| 0 <= j < i ==> names@[j]@ != s@,
        decreases names.len() - i,
    {
        if names[i] == *s {
            proof {
                if names_view(names@).no_duplicates() {
                    assert(names_view(names@)[i as int] == s@);
                    lemma_index_of(names_view(names@), i as int);
                }
            }
            return Some(i);
        }
        i += 1;
    }
    proof {
        assert forall|j: int| 0 <= j < names_view(names@).len() implies names_view(names@)[j]
            != s@ by {
            assert(names@[j]@ != s@);
        }
    }
    None
}

/// Copies a table of names.
pub fn clone_names(v: &Vec<String>) -> (r: Vec<String>)
    ensures
        r@ == v@,
{
    let mut r: Vec<String> = Vec::new();
    let mut i: usize = 0;
    while i < v.len()
        invariant
            i <= v.len(),
            r@ == v@.take(i as int),
        decreases v.len() - i,
    {
        r.push(v[i].clone());
        assert(v@.take(i as int).push(v@[i as int]) =~= v@.take(i + 1));
        i += 1;
    }
    assert(v@.take(v.len() as int) =~= v@);
    r
}

/// Finds a name in a table, listing it at the end when it is new.
fn intern(names: &mut Vec<String>, s: &String) -> (r: usize)
    requires
        names_view(old(names)@).no_duplicates(),
    ensures
        names_view(final(names)@).no_duplicates(),
        old(names)@.len() <= final(names)@.len(),
        forall|i: int| 0 <= i < old(names)@.len() ==> final(names)@[i] == old(names)@[i],
        r < final(names)@.len(),
        final(names)@[r as int]@ == s@,
{
    match find_name(names, s) {
        Some(i) => i,
        None => {
            let n = names.len();
            names.push(s.clone());
            proof {
                let v = names_view(names@);
                assert forall|a: int, b: int| 0 <= a < v.len() && 0 <= b < v.len() && a != b implies v[a] != v[b] by {
                    if a < n && b < n {
                        assert(names_view(old(names)@)[a] != names_view(old(names)@)[b]);
                    }
                }
            }
            n
        },
    }
}

/// A context-free grammar: a name, productions in the order they were given,
/// and the symbol every derivation starts from.
#[derive(Debug)]
pub struct Gram {
    name: String,
    productions: Vec<GramProd>,
    start: GramSym,
    nts: Vec<String>,
    terms: Vec<String>,
    iprods: Vec<IProd>,
    istart: usize,
}

impl View for Gram {
    type V = GramView;

    closed spec fn view(&self) -> GramView {
        GramView { name: self.name@, prods: prods_view(self.productions@), start: self.start@ }
    }
}

impl Gram {
    /// The grammar's name tables.
    pub closed spec fn universe(&self) -> Universe {
        Universe { nts: names_view(self.nts@), terms: names_view(self.terms@) }
    }

    /// The grammar's productions over table positions.
    pub closed spec fn indexed(&self) -> Seq<IProd> {
        self.iprods@
    }

    /// The start symbol's position among the nonterminals.
    pub closed spec fn start_index(&self) -> int {
        self.istart as int
    }

    /// The tables list each name once and the indexed productions say what
    /// the productions say.
    #[verifier::type_invariant]
    pub closed spec fn inv(&self) -> bool {
        &&& self.universe().wf()
        &&& self.istart < self.nts@.len()
        &&& self.start@ == self.universe().nt(self.istart as int)
        &&& self.iprods@.len() == self.productions@.len()
        &&& forall|k: int|
            0 <= k < self.iprods@.len() ==> self.universe().mirrors(
                (#[trigger] self.productions@[k])@,
                self.iprods@[k],
            )
    }

    /// What the invariant says, for the other parts of the library.
    pub proof fn lemma_inv(&self)
        requires
            self.inv(),
        ensures
            self.universe().wf(),
            0 <= self.start_index() < self.universe().nts.len(),
            self@.start == self.universe().nt(self.start_index()),
            self.indexed().len() == self@.prods.len(),
            forall|k: int|
                0 <= k < self@.prods.len() ==> self.universe().mirrors(
                    #[trigger] self@.prods[k],
                    self.indexed()[k],
                ),
            self@.well_formed(),
    {
        assert forall|k: int| 0 <= k < self@.prods.len() implies self.universe().mirrors(
            #[trigger] self@.prods[k],
            self.indexed()[k],
        ) by {
            assert(self.universe().mirrors(self.productions@[k]@, self.iprods@[k]));
        }
    }

    /// Builds a grammar. `None` when the start symbol or the left side of a
    /// production is a terminal.
    pub fn new(name: &str, start: GramSym, productions: Vec<GramProd>) -> (r: Option<Gram>)
        ensures
            r is Some <==> (GramView {
                name: name@,
                prods: prods_view(productions@),
                start: start@,
            }).well_formed(),
            r matches Some(g) ==> g@ == (GramView {
                name: name@,
                prods: prods_view(productions@),
                start: start@,
            }) && g.inv(),
    {
        let ghost gv = GramView { name: name@, prods: prods_view(productions@), start: start@ };
        if start.is_terminal() {
            return None;
        }
        let mut nts: Vec<String> = Vec::new();
        let mut terms: Vec<String> = Vec::new();
        let mut iprods: Vec<IProd> = Vec::new();
        let istart = intern(&mut nts, start.name());
        let mut k: usize = 0;
        while k < productions.len()
            invariant
                k <= productions.len(),
                gv.prods == prods_view(productions@),
                names_view(nts@).no_duplicates(),
                names_view(terms@).no_duplicates(),
                istart < nts@.len(),
                names_view(nts@)[istart as int] == start@.name(),
                iprods@.len() == k,
                forall|j: int| 0 <= j < k ==> (#[trigger] gv.prods[j]).lhs is NonTerminal,
                forall|j: int|
                    0 <= j < k ==> (Universe {
                        nts: names_view(nts@),
                        terms: names_view(terms@),
                    }).mirrors((#[trigger] productions@[j])@, iprods@[j]),
            decreases productions.len() - k,
        {
            let prod = &productions[k];
            if prod.lfsym.is_terminal() {
                assert(!(gv.prods[k as int].lhs is NonTerminal));
                return None;
            }
            let ghost u0 = Universe { nts: names_view(nts@), terms: names_view(terms@) };
            let lhs = intern(&mut nts, prod.lfsym.name());
            let mut rhs: Vec<ISym> = Vec::new();
            match &prod.rhstr {
                GramSymStr::Epsilon => {},
                GramSymStr::Str(v) => {
                    let mut q: usize = 0;
                    while q < v.len()
                        invariant
                            q <= v.len(),
                            names_view(nts@).no_duplicates(),
                            names_view(terms@).no_duplicates(),
                            u0.extended_by(
                                Universe { nts: names_view(nts@), terms: names_view(terms@) },
                            ),
                            lhs < nts@.len(),
                            nts@[lhs as int]@ == prod.lfsym@.name(),
                            rhs@.len() == q,
                            forall|p: int|
                                0 <= p < q ==> (Universe {
                                    nts: names_view(nts@),
                                    terms: names_view(terms@),
                                }).valid(#[trigger] rhs@[p]) && (Universe {
                                    nts: names_view(nts@),
                                    terms: names_view(terms@),
                                }).sym(rhs@[p]) == v@[p]@,
                        decreases v.len() - q,
                    {
                        let ghost rhs0 = rhs@;
                        let s = &v[q];
                        match s {
                            GramSym::Terminal(n) => {
                                let j = intern(&mut terms, n);
                                rhs.push(ISym::T(j));
                            },
                            GramSym::NonTerminal(n) => {
                                let i = intern(&mut nts, n);
                                rhs.push(ISym::N(i));
                            },
                        }
                        proof {
                            let u = Universe { nts: names_view(nts@), terms: names_view(terms@) };
                            assert forall|p: int| 0 <= p < q + 1 implies u.valid(
                                #[trigger] rhs@[p],
                            ) && u.sym(rhs@[p]) == v@[p]@ by {
                                if p < q {
                                    assert(rhs@[p] == rhs0[p]);
                                }
                            }
                        }
                        q += 1;
                    }
                },
            }
            let ip = IProd { lhs, rhs };
            iprods.push(ip);
            proof {
                let u = Universe { nts: names_view(nts@), terms: names_view(terms@) };
                assert(u0.extended_by(u));
                assert(u.nts[istart as int] == u0.nts[istart as int]);
                assert forall|j: int| 0 <= j < k + 1 implies u.mirrors(
                    (#[trigger] productions@[j])@,
                    iprods@[j],
                ) by {
                    if j < k {
                        u0.lemma_mirrors_extended(u, productions@[j]@, iprods@[j]);
                    } else {
                        assert(iprods@[j].rhs@.len() == productions@[j]@.rhs.syms().len());
                    }
                }
                assert(gv.prods[k as int] == productions@[k as int]@);
            }
            k += 1;
        }
        let g = Gram {
            name: name.to_string(),
            productions,
            start,
            nts,
            terms,
            iprods,
            istart,
        };
        proof {
            assert(g@ == gv);
        }
        Some(g)
    }

    pub(crate) fn nts(&self) -> (r: &Vec<String>)
        ensures
            names_view(r@) == self.universe().nts,
    {
        &self.nts
    }

    pub(crate) fn terms(&self) -> (r: &Vec<String>)
        ensures
            names_view(r@) == self.universe().terms,
    {
        &self.terms
    }

    pub(crate) fn iprods(&self) -> (r: &Vec<IProd>)
        ensures
            r@ == self.indexed(),
    {
        &self.iprods
    }

    pub(crate) fn istart(&self) -> (r: usize)
        ensures
            r as int == self.start_index(),
    {
        self.istart
    }

    pub fn name(&self) -> (r: &str)
        ensures
            r@ == self@.name,
    {
        self.name.as_str()
    }

    pub fn start_sym(&self) -> (r: &GramSym)
        ensures
            r@ == self@.start,
    {
        &self.start
    }

    /// The productions, in the order they were given.
    pub fn productions(&self) -> (r: &Vec<GramProd>)
        ensures
            prods_view(r@) == self@.prods,
    {
        &self.productions
    }
}

} // verus!
