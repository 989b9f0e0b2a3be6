//! The syntax tree: a node per expanded nonterminal, a leaf per token, the
//! children of a node in derivation order.
use crate::gram::{GramSym, SymView, syms_view};
use crate::text::{head, kids_text, next_level, node_text, tree_text};
use crate::token::{Token, TokenView};
use itertools::Itertools;
use vstd::prelude::*;
use vstd::string::StringExecFns;

verus! {

/// What a child of a tree node is, as a mathematical value.
pub enum NodeView {
    Leaf(TokenView),
    Tree(TreeView),
}

/// What a tree node is, as a mathematical value: its symbol and its
/// children, each with the symbol it stands for.
pub struct TreeView {
    pub sym: SymView,
    pub kids: Seq<(SymView, NodeView)>,
}

impl NodeView {
    /// The symbol that the child stands for.
    pub open spec fn sym(self) -> SymView {
        match self {
            NodeView::Leaf(t) => SymView::Terminal(t.name),
            NodeView::Tree(t) => t.sym,
        }
    }
}

impl TreeView {
    /// A node with the symbol `sym` and no children.
    pub open spec fn bare(sym: SymView) -> TreeView {
        TreeView { sym, kids: Seq::empty() }
    }

    /// The node with one more child at the end.
    pub open spec fn with_kid(self, kid: (SymView, NodeView)) -> TreeView {
        TreeView { sym: self.sym, kids: self.kids.push(kid) }
    }

    /// The symbols of the children, in order.
    pub open spec fn kid_syms(self) -> Seq<SymView> {
        syms_of(self.kids)
    }
}

/// The symbols that children stand for, in order.
pub open spec fn syms_of(kids: Seq<(SymView, NodeView)>) -> Seq<SymView> {
    Seq::new(kids.len(), |i: int| kids[i].0)
}

/// A child of a tree node: a subtree or a token.
#[derive(Debug)]
pub enum ASTNode {
    Tree(AST),
    Leaf(Token),
}

/// A tree node: the nonterminal it stands for and its children.
#[derive(Debug)]
pub struct AST {
    sym: GramSym,
    elems: Vec<(GramSym, ASTNode)>,
}

pub closed spec fn tree_view(a: AST) -> TreeView
    decreases a,
{
    TreeView { sym: a.sym@, kids: kids_view(a.elems@) }
}

pub closed spec fn kids_view(elems: Seq<(GramSym, ASTNode)>) -> Seq<(SymView, NodeView)>
    decreases elems,
{
    Seq::new(
        elems.len(),
        |i: int|
            if 0 <= i < elems.len() {
                (elems[i].0@, node_view(elems[i].1))
            } else {
                (elems[i].0@, NodeView::Tree(TreeView::bare(elems[i].0@)))
            },
    )
}

pub closed spec fn node_view(n: ASTNode) -> NodeView
    decreases n,
{
    match n {
        ASTNode::Tree(a) => NodeView::Tree(tree_view(a)),
        ASTNode::Leaf(t) => NodeView::Leaf(t@),
    }
}

impl View for ASTNode {
    type V = NodeView;

    open spec fn view(&self) -> NodeView {
        node_view(*self)
    }
}

impl View for AST {
    type V = TreeView;

    open spec fn view(&self) -> TreeView {
        tree_view(*self)
    }
}

/// `Itertools::collect_vec` on the iterator over a slice: the references to
/// the items, in the slice's order.
#[verifier::external_body]
fn collect_refs<'a>(elems: &'a Vec<(GramSym, ASTNode)>) -> (r: Vec<&'a (GramSym, ASTNode)>)
    ensures
        r@.len() == elems@.len(),
        forall|i: int| 0 <= i < elems@.len() ==> *(#[trigger] r@[i]) == elems@[i],
{
    elems.iter().collect_vec()
}

impl ASTNode {
    pub fn get_token(&self) -> (r: Option<&Token>)
        ensures
            match r {
                Some(t) => self@ == NodeView::Leaf(t@),
                None => self@ is Tree,
            },
    {
        match self {
            Self::Leaf(token) => Some(token),
            _ => None,
        }
    }

    pub fn get_ast(&self) -> (r: Option<&AST>)
        ensures
            match r {
                Some(a) => self@ == NodeView::Tree(a@),
                None => self@ is Leaf,
            },
    {
        match self {
            Self::Tree(ast) => Some(ast),
            _ => None,
        }
    }

    /// The symbol that the child stands for.
    pub fn to_gram_sym(&self) -> (r: GramSym)
        ensures
            r@ == self@.sym(),
    {
        match self {
            Self::Tree(ast) => ast.sym().clone(),
            Self::Leaf(token) => token.to_gram_sym(),
        }
    }

    /// The child written out at `padlevel`, each line indented by its level.
    pub fn dump(&self, padlevel: usize) -> (r: String)
        ensures
            r@ == node_text(self@, padlevel),
        decreases self,
    {
        match self {
            Self::Leaf(token) => {
                let mut s = head(padlevel);
                let t = token.text();
                s.append(t.as_str());
                s.append("\n");
                s
            },
            Self::Tree(ast) => ast.dump(padlevel),
        }
    }

    /// The child written out from level 0.
    pub fn text(&self) -> (r: String)
        ensures
            r@ == node_text(self@, 0),
    {
        self.dump(0)
    }

    /// A copy of the child, subtrees and all.
    pub fn copy_node(&self) -> (r: ASTNode)
        ensures
            r@ == self@,
        decreases self,
    {
        match self {
            Self::Tree(ast) => ASTNode::Tree(ast.copy_tree()),
            Self::Leaf(token) => ASTNode::Leaf(token.clone()),
        }
    }
}

impl AST {
    pub fn new(sym: &GramSym) -> (r: Self)
        ensures
            r@ == TreeView::bare(sym@),
    {
        let r = Self { sym: sym.clone(), elems: Vec::new() };
        assert(r@.kids =~= Seq::empty());
        r
    }

    pub fn sym(&self) -> (r: &GramSym)
        ensures
            r@ == self@.sym,
    {
        &self.sym
    }

    /// How many children the node has.
    pub fn len(&self) -> (r: usize)
        ensures
            r == self@.kids.len(),
    {
        self.elems.len()
    }

    /// The symbols of the children, in order.
    pub fn elem_syms(&self) -> (r: Vec<GramSym>)
        ensures
            syms_view(r@) == self@.kid_syms(),
    {
        let refs = self.elems_vec();
        let mut r: Vec<GramSym> = Vec::new();
        let mut i: usize = 0;
        while i < refs.len()
            invariant
                i <= refs@.len(),
                refs@.len() == self@.kids.len(),
                forall|k: int|
                    0 <= k < refs@.len() ==> ((#[trigger] refs@[k]).0@, refs@[k].1@)
                        == self@.kids[k],
                r@.len() == i,
                forall|k: int| 0 <= k < i ==> (#[trigger] r@[k])@ == self@.kids[k].0,
            decreases refs@.len() - i,
        {
            r.push(refs[i].0.clone());
            i += 1;
        }
        assert(syms_view(r@) =~= self@.kid_syms());
        r
    }

    /// The children with their symbols, in order.
    pub fn elems_vec(&self) -> (r: Vec<&(GramSym, ASTNode)>)
        ensures
            r@.len() == self@.kids.len(),
            forall|i: int|
                0 <= i < r@.len() ==> ((#[trigger] r@[i]).0@, r@[i].1@) == self@.kids[i],
    {
        collect_refs(&self.elems)
    }

    /// The first child that stands for `sym`, if there is one.
    pub fn get_elem(&self, sym: &GramSym) -> (r: Option<&ASTNode>)
        ensures
            match r {
                Some(n) => exists|i: int|
                    0 <= i < self@.kids.len() && #[trigger] self@.kids[i] == (sym@, n@) && forall|
                        j: int,
                    |
                        0 <= j < i ==> (#[trigger] self@.kids[j]).0 != sym@,
                None => forall|j: int|
                    0 <= j < self@.kids.len() ==> (#[trigger] self@.kids[j]).0 != sym@,
            },
    {
        let mut i: usize = 0;
        while i < self.elems.len()
            invariant
                i <= self.elems@.len(),
                self@.kids.len() == self.elems@.len(),
                forall|j: int| 0 <= j < i ==> (#[trigger] self@.kids[j]).0 != sym@,
            decreases self.elems@.len() - i,
        {
            if self.elems[i].0 == *sym {
                assert(self@.kids[i as int] == (sym@, self.elems@[i as int].1@));
                return Some(&self.elems[i].1);
            }
            i += 1;
        }
        None
    }

    pub fn insert_leaf(&mut self, token: Token)
        ensures
            final(self)@ == old(self)@.with_kid(
                (SymView::Terminal(token@.name), NodeView::Leaf(token@)),
            ),
    {
        let leaf_name = token.to_gram_sym();
        let leaf = ASTNode::Leaf(token);
        let ghost kids0 = self@.kids;
        self.elems.push((leaf_name, leaf));
        assert(self@.kids =~= kids0.push((SymView::Terminal(token@.name), NodeView::Leaf(token@))));
    }

    pub fn insert_tree(&mut self, tree: AST)
        ensures
            final(self)@ == old(self)@.with_kid((tree@.sym, NodeView::Tree(tree@))),
    {
        let tree_name = tree.sym().clone();
        let ghost kids0 = self@.kids;
        let ghost tv = tree@;
        let node = ASTNode::Tree(tree);
        self.elems.push((tree_name, node));
        assert(self@.kids =~= kids0.push((tv.sym, NodeView::Tree(tv))));
    }

    pub fn insert_node(&mut self, node: ASTNode)
        ensures
            final(self)@ == old(self)@.with_kid((node@.sym(), node@)),
    {
        let name = node.to_gram_sym();
        let ghost kids0 = self@.kids;
        let ghost nv = node@;
        self.elems.push((name, node));
        assert(self@.kids =~= kids0.push((nv.sym(), nv)));
    }

    /// The tree written out at `padlevel`, each line indented by its level.
    pub fn dump(&self, padlevel: usize) -> (r: String)
        ensures
            r@ == tree_text(self@, padlevel),
        decreases self,
    {
        let mut s = head(padlevel);
        s.append(self.sym.name().as_str());
        s.append(": \n");
        let below = if padlevel < usize::MAX {
            padlevel + 1
        } else {
            padlevel
        };
        let ghost front = s@;
        let mut i: usize = 0;
        while i < self.elems.len()
            invariant
                i <= self.elems@.len(),
                self@.kids.len() == self.elems@.len(),
                below == next_level(padlevel),
                s@ == front + kids_text(self@.kids.take(i as int), below),
            decreases self.elems@.len() - i,
        {
            let ghost prev = self@.kids.take(i as int);
            let ghost cur = self@.kids.take(i + 1);
            proof {
                assert(cur.drop_last() =~= prev);
                assert(cur.last() == self@.kids[i as int]);
                assert(self@.kids[i as int].1 == self.elems@[i as int].1@);
            }
            let part = self.elems[i].1.dump(below);
            s.append(part.as_str());
            assert(s@ =~= front + kids_text(cur, below));
            i += 1;
        }
        assert(self@.kids.take(self.elems@.len() as int) =~= self@.kids);
        s
    }

    /// The tree written out from level 0.
    pub fn text(&self) -> (r: String)
        ensures
            r@ == tree_text(self@, 0),
    {
        self.dump(0)
    }

    /// A copy of the tree, subtrees and all.
    pub fn copy_tree(&self) -> (r: AST)
        ensures
            r@ == self@,
        decreases self,
    {
        let mut new_tree = Self::new(self.sym());
        let mut i: usize = 0;
        while i < self.elems.len()
            invariant
                i <= self.elems@.len(),
                new_tree@.sym == self@.sym,
                new_tree@.kids == self@.kids.take(i as int),
                self@.kids.len() == self.elems@.len(),
            decreases self.elems@.len() - i,
        {
            let node = self.elems[i].1.copy_node();
            let sym = self.elems[i].0.clone();
            let ghost kids0 = new_tree@.kids;
            new_tree.elems.push((sym, node));
            proof {
                assert(self@.kids[i as int] == (self.elems@[i as int].0@, self.elems@[i as int].1@));
                assert(new_tree@.kids =~= kids0.push(self@.kids[i as int]));
                assert(self@.kids.take(i as int).push(self@.kids[i as int]) =~= self@.kids.take(
                    i + 1,
                ));
            }
            i += 1;
        }
        assert(self@.kids.take(self.elems@.len() as int) =~= self@.kids);
        new_tree
    }
}

} // verus!
