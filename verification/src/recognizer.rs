//! What the two recognizers have in common.
use crate::grammar::{CFGrammar, GrammarModel};
use vstd::prelude::*;

verus! {

/// Why a grammar cannot be fitted.
#[derive(Clone, Copy, Debug, PartialEq, Eq, Structural)]
pub enum FitError {
    /// Some production rewrites a symbol that is not a non-terminal.
    NotContextFree,
    /// Two different actions fall on one cell of the LR(1) action table.
    NotLR1,
}

impl FitError {
    /// The error in words.
    pub fn message(&self) -> (text: &'static str)
        ensures
            text@ == match *self {
                FitError::NotContextFree => "The grammar is not context free."@,
                FitError::NotLR1 => "The given grammar is not LR(1)."@,
            },
    {
        match self {
            FitError::NotContextFree => "The grammar is not context free.",
            FitError::NotLR1 => "The given grammar is not LR(1).",
        }
    }
}

/// What `Parser::predict` promises of the answer it gives and of the
/// recognizer it leaves: the answer is that of the recognizer as it stood,
/// and asking changes no answer.
pub open spec fn answered<P: Parser>(before: P, word: Seq<char>, accepted: bool, after: P) -> bool {
    &&& accepted == before.accepts(word)
    &&& after.fitted() == before.fitted()
    &&& forall|w: Seq<char>| after.accepts(w) == before.accepts(w)
}

/// A recognizer: fitted with a grammar once, asked about words any number of
/// times.
pub trait Parser {
    /// The grammar that the recognizer answers for, if it has one.
    spec fn fitted(&self) -> Option<GrammarModel>;

    /// Whether the recognizer, as it stands, says yes to `word`.
    spec fn accepts(&self, word: Seq<char>) -> bool;

    /// Grammar preprocessing. A grammar with a production whose left-hand
    /// side is not a non-terminal is refused as not context-free.
    fn fit(&mut self, grammar: &CFGrammar) -> (outcome: Result<(), FitError>)
        ensures
            !grammar@.context_free() <==> outcome == Err::<(), FitError>(FitError::NotContextFree),
            outcome is Ok ==> final(self).fitted() == Some(grammar@),
    ;

    /// Check if the word is in the language. Asking changes no answer.
    fn predict(&mut self, word: &str) -> (accepted: bool)
        ensures
            accepted == old(self).accepts(word@),
            final(self).fitted() == old(self).fitted(),
            forall|w: Seq<char>| final(self).accepts(w) == old(self).accepts(w),
    ;
}

} // verus!
