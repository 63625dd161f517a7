//! A small parser combinator engine over in-memory text, and a Lisp-like
//! grammar built from it.
//!
//! A parser is a value that, given a text, either yields a value together with
//! the unconsumed rest of the text, or fails. [`parser_comb`] holds the engine:
//! the [`Parser`] trait, the leaf parsers and the combinators, each with a
//! contract over the set of outcomes that a parser admits. [`semantics`] holds
//! the words of those contracts and [`laws`] what follows from them for every
//! parser. [`lisp_comb`] holds the grammar, and [`text`] the helpers on strings
//! that the others use.
use vstd::prelude::*;

pub mod laws;
pub mod lisp_comb;
pub mod parser_comb;
pub mod semantics;
pub mod text;

pub use parser_comb::{parse, Parser};

verus! {

/// A node of the Lisp-like syntax.
#[derive(Debug, PartialEq)]
pub enum LispObject {
    /// A parenthesised list of nodes.
    List(Vec<LispObject>),
    /// A quoted text literal, without its quotes.
    String(String),
    /// A bare identifier.
    Ident(String),
}

/// What a [`LispObject`] stands for: a tree of lists over texts.
pub enum LispValue {
    List(Seq<LispValue>),
    String(Seq<char>),
    Ident(Seq<char>),
}

impl View for LispObject {
    type V = LispValue;

    open spec fn view(&self) -> LispValue
        decreases self,
    {
        match self {
            LispObject::List(items) => LispValue::List(
                Seq::new(
                    items.len() as nat,
                    |i: int|
                        if 0 <= i < items.len() {
                            items[i].view()
                        } else {
                            LispValue::List(Seq::empty())
                        },
                ),
            ),
            LispObject::String(text) => LispValue::String(text@),
            LispObject::Ident(name) => LispValue::Ident(name@),
        }
    }
}

impl Clone for LispObject {
    #[verifier::loop_isolation(false)]
    fn clone(&self) -> (res: Self)
        ensures
            res@ == self@,
        decreases self,
    {
        match self {
            LispObject::List(items) => {
                let mut copies: Vec<LispObject> = Vec::new();
                let mut i: usize = 0;
                while i < items.len()
                    invariant
                        i <= items.len(),
                        copies.len() == i,
                        forall|k: int| 0 <= k < i ==> copies@[k]@ == items@[k]@,
                    decreases items.len() - i,
                {
                    copies.push(items[i].clone());
                    i += 1;
                }
                let copy = LispObject::List(copies);
                proof {
                    assert(copy@->List_0 =~= self@->List_0);
                }
                copy
            },
            LispObject::String(text) => LispObject::String(text.clone()),
            LispObject::Ident(name) => LispObject::Ident(name.clone()),
        }
    }
}

} // verus!
