//! Operator contexts that can be resumed: each holds the operator that runs
//! in it and the values stashed between its steps.
use vstd::prelude::*;

use crate::context::Context;
use crate::strmap::StrMap;

verus! {

/// Values stashed between the steps of an operator, by name.
pub type StashMap = StrMap<&'static str>;

/// An operator whose work is done in steps.
pub trait ContinuousCompute {
    /// Whether the operator can take its next step with these stashed
    /// values.
    spec fn can_continue(&self, vals: Map<Seq<char>, &'static str>) -> bool;

    /// Whether `new_vals` is what the operator's next step makes of the
    /// stashed values `vals`.
    spec fn step_result(
        &self,
        vals: Map<Seq<char>, &'static str>,
        new_vals: Map<Seq<char>, &'static str>,
    ) -> bool;

    /// Takes the next step, reading and updating the stashed values.
    fn contine_compute(&mut self, vals: &mut StashMap)
        requires
            old(vals).wf(),
            old(self).can_continue(old(vals)@),
        ensures
            final(vals).wf(),
            old(self).step_result(old(vals)@, final(vals)@),
    ;
}

/// The contexts in progress.
pub struct CtxManager {
    ctxs: Vec<Ctx<dyn ContinuousCompute>>,
}

impl CtxManager {
    /// The number of contexts in progress.
    pub closed spec fn len(&self) -> nat {
        self.ctxs@.len()
    }

    /// No context is in progress.
    pub fn new() -> (r: CtxManager)
        ensures
            r.len() == 0,
    {
        CtxManager { ctxs: Vec::new() }
    }
}

/// One context in progress; `M` is the kind of operator that runs in it,
/// most often any operator at all (`dyn ContinuousCompute`).
pub struct Ctx<M: ContinuousCompute + ?Sized> {
    pub id: String,
    pub context: Context,
    pub member: Box<M>,
    pub stash_values: StashMap,
}

/// The id that every context gets.
pub const CTX_ID: &'static str = "1";

impl<M: ContinuousCompute + ?Sized> Ctx<M> {
    /// A context for `member`, with nothing stashed.
    pub fn new(context: Context, member: Box<M>) -> (r: Ctx<M>)
        ensures
            r.id@ == CTX_ID@,
            r.context == context,
            r.member == member,
            r.stash_values.wf(),
            r.stash_values@ == Map::<Seq<char>, &'static str>::empty(),
    {
        Ctx { id: CTX_ID.to_owned(), context, member, stash_values: StrMap::new() }
    }

    /// Lets the operator take its next step with the stashed values.
    pub fn contine_computing(&mut self)
        requires
            old(self).stash_values.wf(),
            old(self).member.can_continue(old(self).stash_values@),
        ensures
            final(self).id == old(self).id,
            final(self).context == old(self).context,
            final(self).stash_values.wf(),
            old(self).member.step_result(old(self).stash_values@, final(self).stash_values@),
    {
        self.member.contine_compute(&mut self.stash_values);
    }
}

} // verus!
