//! The stack of symbols still to be matched, kept in an `m6stack::Stack`.
use crate::gram::GramSym;
use m6stack::Stack;
use vstd::prelude::*;

verus! {

/// `m6stack::Stack`, carried as it is: nothing is said of what is inside but
/// through `pending_syms`.
#[verifier::external_type_specification]
#[verifier::external_body]
#[verifier::reject_recursive_types(T)]
pub struct ExStack<T>(Stack<T>);

/// The symbols that a stack holds, in the order in which `pop` hands them
/// out.
pub uninterp spec fn pending_syms(s: Stack<GramSym>) -> Seq<GramSym>;

/// `Stack::from`: a stack that hands the symbols out in the order of `v`,
/// the first of `v` first. (The crate stores `v` reversed and pops from the
/// end.)
#[verifier::external_body]
pub(crate) fn stack_from(v: Vec<GramSym>) -> (s: Stack<GramSym>)
    ensures
        pending_syms(s) == v@,
{
    Stack::from(v)
}

/// `Stack::pop`: takes the next symbol off the stack; `None`, and the stack
/// as it was, when the stack is empty.
#[verifier::external_body]
pub(crate) fn stack_pop(s: &mut Stack<GramSym>) -> (r: Option<GramSym>)
    ensures
        pending_syms(*old(s)).len() == 0 ==> r is None && pending_syms(*final(s)) == pending_syms(
            *old(s),
        ),
        pending_syms(*old(s)).len() > 0 ==> r == Some(pending_syms(*old(s))[0]) && pending_syms(
            *final(s),
        ) == pending_syms(*old(s)).drop_first(),
{
    s.pop()
}

} // verus!
