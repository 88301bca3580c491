//! The exchange with the reasoning engine.
//!
//! The library writes the texts; the program that uses it hands each text
//! to the engine and reports the engine's answer back. What the engine
//! answers depends on everything it was sent before, so nothing is stated
//! of its answers. The library tells acceptance from rejection and keeps
//! the record of what was handed over.

use crate::error::RxError;
use vstd::prelude::*;

verus! {

/// `egglog::Error`, of which the verifier sees nothing but the name.
#[verifier::external_type_specification]
#[verifier::external_body]
pub struct ExEgglogError(egglog::Error);

/// What the library makes of the engine's answer: acceptance, or the one
/// error that stands for every rejection.
pub fn settle(answer: Result<Vec<String>, egglog::Error>) -> (r: Result<(), RxError>)
    ensures
        answer is Ok ==> r == Ok::<(), RxError>(()),
        answer is Err ==> r == Err::<(), RxError>(RxError::BackendRejection),
{
    match answer {
        Ok(_) => Ok(()),
        Err(_) => Err(RxError::BackendRejection),
    }
}

/// The record of what one protocol instance handed to its reasoning engine.
pub struct Backend {
    log: Ghost<Seq<(Seq<char>, bool)>>,
}

impl Backend {
    /// The texts that were reported as handed to the engine, oldest first,
    /// each with the answer that was reported: `true` where the engine
    /// accepted the text.
    pub closed spec fn sent(&self) -> Seq<(Seq<char>, bool)> {
        self.log@
    }

    /// The record of an engine that was handed nothing yet.
    pub fn new() -> (b: Backend)
        ensures
            b.sent() == Seq::<(Seq<char>, bool)>::empty(),
    {
        Backend { log: Ghost(Seq::empty()) }
    }

    /// Takes note that a text was handed to the engine and that the engine
    /// gave `answer`.
    pub(crate) fn record(
        &mut self,
        text: Ghost<Seq<char>>,
        answer: Result<Vec<String>, egglog::Error>,
    ) -> (r: Result<(), RxError>)
        ensures
            final(self).sent() == old(self).sent().push((text@, answer is Ok)),
            answer is Ok ==> r == Ok::<(), RxError>(()),
            answer is Err ==> r == Err::<(), RxError>(RxError::BackendRejection),
    {
        self.log = Ghost(self.log@.push((text@, answer is Ok)));
        settle(answer)
    }

    /// Takes note that the text `s` was handed to the engine and that the
    /// engine gave `answer`. Succeeds where the engine accepted the text; a
    /// rejection is the only way in which this fails.
    pub fn interpret(&mut self, s: &str, answer: Result<Vec<String>, egglog::Error>) -> (r: Result<
        (),
        RxError,
    >)
        ensures
            final(self).sent() == old(self).sent().push((s@, answer is Ok)),
            answer is Ok ==> r == Ok::<(), RxError>(()),
            answer is Err ==> r == Err::<(), RxError>(RxError::BackendRejection),
    {
        self.record(Ghost(s@), answer)
    }
}

} // verus!
