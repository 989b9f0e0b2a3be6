//! The LL(1) parser: a grammar with its prediction table, and the derivation
//! that turns tokens into a syntax tree.
use crate::ast::{AST, TreeView};
use crate::error::{ParseError, TrapCode, TrapCodeView};
use crate::gram::{
    Gram, GramProd, GramSym, GramSymStr, GramView, SymView, clone_syms, syms_view,
};
use crate::machine::{
    FrameView, ParseErrorView, lemma_step_decreases, parse_spec, potential, run, step, weight,
};
use crate::predict::{PredSet, PredSetSym, first_collision, outcome_view, prediction_outcome};
use crate::complete::{generates, lemma_parse_generates, lemma_sentences_parse};
use crate::sound::{leaves, lemma_parse_sound, valid_tree};
use crate::stack::{pending_syms, stack_from, stack_pop};
use crate::theory::{Lookahead, conflict, predict_table};
use crate::token::{Token, TokenView, tokens_view};
use crate::VerboseLv;
use m6stack::Stack;
use vstd::prelude::*;

verus! {

/// A parser for one grammar.
pub struct LL1Parser {
    name: String,
    gram: Gram,
    prediction_sets: PredSet,
    verbose: VerboseLv,
}

/// The frames that a stack of states stands for.
pub open spec fn frames_view(states: Seq<(AST, Stack<GramSym>)>) -> Seq<FrameView> {
    Seq::new(
        states.len(),
        |k: int|
            FrameView { node: states[k].0@, pending: syms_view(pending_syms(states[k].1)) },
    )
}

/// What a parse gave, as a mathematical value.
pub open spec fn result_view(r: Result<AST, ParseError>) -> Result<TreeView, ParseErrorView> {
    match r {
        Ok(a) => Ok(a@),
        Err(e) => Err(e@),
    }
}

impl LL1Parser {
    /// The grammar that this parser parses by.
    pub closed spec fn grammar(&self) -> GramView {
        self.gram@
    }

    #[verifier::type_invariant]
    pub closed spec fn inv(&self) -> bool {
        &&& self.prediction_sets@ == predict_table(self.gram@)
        &&& !conflict(self.gram@)
    }

    /// A parser for `gram`, or the first rule that shows `gram` not to be
    /// LL(1).
    pub fn new(gram: Gram) -> (r: Result<Self, TrapCode>)
        ensures
            r is Ok <==> !conflict(gram@),
            r matches Ok(p) ==> p.grammar() == gram@,
            r matches Err(e) ==> exists|k: int|
                #[trigger] first_collision(gram@, k) && e@ == TrapCodeView::AmbigousLLRule(
                    gram@.prods[k].text(),
                ),
    {
        Self::with_verbose(gram, VerboseLv::V0)
    }

    /// As `new`, for an owner who wants to trace at level `verbose`.
    pub fn with_verbose(gram: Gram, verbose: VerboseLv) -> (r: Result<Self, TrapCode>)
        ensures
            r is Ok <==> !conflict(gram@),
            r matches Ok(p) ==> p.grammar() == gram@ && p.verbose_spec() == verbose,
            r matches Err(e) ==> exists|k: int|
                #[trigger] first_collision(gram@, k) && e@ == TrapCodeView::AmbigousLLRule(
                    gram@.prods[k].text(),
                ),
    {
        let first_sets = gram.first_sets();
        let follow_sets = gram.follow_sets(&first_sets);
        match gram.prediction_sets(&first_sets, &follow_sets) {
            Err(e) => Err(e),
            Ok(prediction_sets) => {
                let name = gram.name().to_string();
                Ok(Self { name, gram, prediction_sets, verbose })
            },
        }
    }

    pub closed spec fn verbose_spec(&self) -> VerboseLv {
        self.verbose
    }

    /// The level at which the owner wants to trace.
    pub fn verbose(&self) -> (r: VerboseLv)
        ensures
            r == self.verbose_spec(),
    {
        self.verbose
    }

    pub fn name(&self) -> (r: &str)
        ensures
            r@ == self.grammar().name,
    {
        proof {
            use_type_invariant(self);
        }
        self.gram.name()
    }

    /// The grammar.
    pub fn gram(&self) -> (r: &Gram)
        ensures
            r@ == self.grammar(),
    {
        &self.gram
    }

    /// The production to expand `lfsym` by when `la` comes next, if the
    /// table has one.
    pub fn predict_prod(&self, lfsym: &GramSym, la: PredSetSym) -> (r: Option<&GramProd>)
        ensures
            match r {
                Some(p) => predict_table(self.grammar()).dom().contains((lfsym@, la@)) && p@
                    == predict_table(self.grammar())[(lfsym@, la@)],
                None => !predict_table(self.grammar()).dom().contains((lfsym@, la@)),
            },
    {
        proof {
            use_type_invariant(self);
        }
        self.prediction_sets.predict(lfsym, la)
    }

    /// Parses `tokens` into the syntax tree of their derivation from the
    /// start symbol.
    pub fn parse(&self, tokens: Vec<Token>) -> (res: Result<AST, ParseError>)
        ensures
            result_view(res) == parse_spec(self.grammar(), tokens_view(tokens@)),
            tokens@.len() == 0 ==> res matches Err(ParseError::EmptyTokens),
            res matches Ok(t) ==> valid_tree(self.grammar(), t@) && leaves(t@) == tokens_view(
                tokens@,
            ) && t@.sym == self.grammar().start,
            res is Ok <==> tokens@.len() > 0 && generates(self.grammar(), tokens_view(tokens@)),
    {
        proof {
            use_type_invariant(self);
            use_type_invariant(&self.gram);
            self.gram.lemma_inv();
            let g = self.gram@;
            let toks = tokens_view(tokens@);
            lemma_parse_sound(g, toks);
            if parse_spec(g, toks) is Ok {
                lemma_parse_generates(g, toks);
            }
            if toks.len() > 0 && generates(g, toks) {
                lemma_sentences_parse(g, toks);
            }
        }
        if tokens.len() == 0 {
            return Err(ParseError::EmptyTokens);
        }
        let start_sym = self.gram.start_sym();
        let root = AST::new(start_sym);
        match self.predict_prod(start_sym, tokens[0].to_pred_set_sym()) {
            None => Err(ParseError::UnexpectedRoot { token: tokens[0].clone() }),
            Some(prod) => {
                let pending = match &prod.rhstr {
                    GramSymStr::Str(v) => stack_from(clone_syms(v)),
                    GramSymStr::Epsilon => stack_from(Vec::new()),
                };
                let mut states_stack: Vec<(AST, Stack<GramSym>)> = Vec::new();
                states_stack.push((root, pending));
                proof {
                    let fv = frames_view(states_stack@);
                    assert(fv.drop_last() =~= Seq::empty());
                    assert(fv.last().pending =~= prod@.rhs.syms());
                }
                ll1_parse(self, &tokens, states_stack)
            },
        }
    }
}

/// Runs the derivation from the frames of `states_stack`, the last of them
/// on top, with the cursor before the first token.
fn ll1_parse(parser: &LL1Parser, tokens: &Vec<Token>, states_stack: Vec<(AST, Stack<GramSym>)>) -> (res:
    Result<AST, ParseError>)
    requires
        states_stack@.len() > 0,
        parser.grammar().well_formed(),
        !conflict(parser.grammar()),
    ensures
        result_view(res) == run(
            parser.grammar(),
            tokens_view(tokens@),
            frames_view(states_stack@).drop_last(),
            frames_view(states_stack@).last(),
            0,
        ),
{
    let ghost g = parser.grammar();
    let ghost toks = tokens_view(tokens@);
    let ghost goal = run(
        g,
        toks,
        frames_view(states_stack@).drop_last(),
        frames_view(states_stack@).last(),
        0,
    );
    let mut states = states_stack;
    let top = states.pop().unwrap();
    let mut cur_ast = top.0;
    let mut symstr = top.1;
    let mut i: usize = 0;
    proof {
        assert(frames_view(states@) =~= frames_view(states_stack@).drop_last());
    }
    loop
        invariant
            i <= tokens@.len(),
            toks == tokens_view(tokens@),
            g == parser.grammar(),
            g.well_formed(),
            !conflict(g),
            states_stack@.len() > 0,
            goal == run(
                parser.grammar(),
                tokens_view(tokens@),
                frames_view(states_stack@).drop_last(),
                frames_view(states_stack@).last(),
                0,
            ),
            goal == run(
                g,
                toks,
                frames_view(states@),
                FrameView { node: cur_ast@, pending: syms_view(pending_syms(symstr)) },
                i as nat,
            ),
        decreases
                tokens@.len() - i,
                potential(
                    g,
                    toks,
                    true,
                    frames_view(states@),
                    FrameView { node: cur_ast@, pending: syms_view(pending_syms(symstr)) },
                    i as nat,
                ),
                potential(
                    g,
                    toks,
                    false,
                    frames_view(states@),
                    FrameView { node: cur_ast@, pending: syms_view(pending_syms(symstr)) },
                    i as nat,
                ),
                weight(frames_view(states@)) + pending_syms(symstr).len(),
    {
        let ghost below = frames_view(states@);
        let ghost top = FrameView { node: cur_ast@, pending: syms_view(pending_syms(symstr)) };
        proof {
            lemma_step_decreases(g, toks, below, top, i as nat);
        }
        match stack_pop(&mut symstr) {
            None => {
                match states.pop() {
                    None => {
                        if i == tokens.len() {
                            return Ok(cur_ast);
                        } else {
                            return Err(ParseError::TokensRemain { at: i });
                        }
                    },
                    Some(frame) => {
                        let (mut parent, ppend) = frame;
                        proof {
                            assert(frames_view(states@) =~= below.drop_last());
                            assert(below.last() == FrameView {
                                node: parent@,
                                pending: syms_view(pending_syms(ppend)),
                            });
                        }
                        parent.insert_tree(cur_ast);
                        cur_ast = parent;
                        symstr = ppend;
                    },
                }
            },
            Some(s) => {
                proof {
                    assert(top.pending[0] == s@);
                    assert(syms_view(pending_syms(symstr)) =~= top.pending.drop_first());
                }
                if i >= tokens.len() {
                    if parser.predict_prod(&s, PredSetSym::EndMarker).is_some() {
                    } else {
                        return Err(ParseError::Unfinished { node: cur_ast.sym().clone(), sym: s });
                    }
                } else if s.is_terminal() {
                    assert(toks[i as int] == tokens@[i as int]@);
                    if tokens[i].is_sym(&s) {
                        cur_ast.insert_leaf(tokens[i].clone());
                        i += 1;
                    } else {
                        return Err(ParseError::Unmatched { token: tokens[i].clone(), expected: s });
                    }
                } else {
                    assert(toks[i as int] == tokens@[i as int]@);
                    match parser.predict_prod(&s, tokens[i].to_pred_set_sym()) {
                        None => {
                            return Err(
                                ParseError::UnexpectedDerive { token: tokens[i].clone(), sym: s },
                            );
                        },
                        Some(prod) => match &prod.rhstr {
                            GramSymStr::Epsilon => {},
                            GramSymStr::Str(v) => {
                                let sub = AST::new(&s);
                                let newpend = stack_from(clone_syms(v));
                                states.push((cur_ast, symstr));
                                proof {
                                    assert(frames_view(states@) =~= below.push(
                                        FrameView {
                                            node: top.node,
                                            pending: top.pending.drop_first(),
                                        },
                                    ));
                                }
                                cur_ast = sub;
                                symstr = newpend;
                            },
                        },
                    }
                }
            },
        }
    }
}

} // verus!
