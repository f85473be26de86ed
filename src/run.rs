use vstd::prelude::*;

use crate::reconcile::{ops_view, LabelOp, OpView};

verus! {

/// Where a run stands: the calls, how many have succeeded, and whether the
/// call after them failed.
pub struct RunView {
    pub ops: Seq<OpView>,
    pub done: nat,
    pub failed: bool,
}

/// A run that has made no call yet.
pub open spec fn start(ops: Seq<OpView>) -> RunView {
    RunView { ops, done: 0, failed: false }
}

/// A call is owed while nothing failed and calls remain.
pub open spec fn has_pending(s: RunView) -> bool {
    !s.failed && s.done < s.ops.len()
}

/// The state after the pending call reported `ok`.
pub open spec fn step(s: RunView, ok: bool) -> RunView {
    if ok {
        RunView { done: s.done + 1, ..s }
    } else {
        RunView { failed: true, ..s }
    }
}

/// The calls made when the service answers with `results`, one per call.
pub open spec fn calls_made(s: RunView, results: Seq<bool>) -> Seq<OpView>
    decreases results.len(),
{
    if results.len() == 0 || !has_pending(s) {
        seq![]
    } else {
        seq![s.ops[s.done as int]] + calls_made(step(s, results[0]), results.drop_first())
    }
}

/// The state reached when the service answers with `results`.
pub open spec fn run_to(s: RunView, results: Seq<bool>) -> RunView
    decreases results.len(),
{
    if results.len() == 0 || !has_pending(s) {
        s
    } else {
        run_to(step(s, results[0]), results.drop_first())
    }
}

/// Applies a list of calls one at a time; the first failure ends the run,
/// and nothing already applied is undone.
pub struct ImportRun {
    ops: Vec<LabelOp>,
    done: usize,
    failed: bool,
}

impl View for ImportRun {
    type V = RunView;

    closed spec fn view(&self) -> RunView {
        RunView { ops: ops_view(self.ops@), done: self.done as nat, failed: self.failed }
    }
}

impl ImportRun {
    pub closed spec fn wf(&self) -> bool {
        self.done <= self.ops@.len()
    }

    pub fn new(ops: Vec<LabelOp>) -> (r: ImportRun)
        ensures
            r.wf(),
            r@ == start(ops_view(ops@)),
    {
        ImportRun { ops, done: 0, failed: false }
    }

    /// The call to make next, if any.
    pub fn pending(&self) -> (r: Option<&LabelOp>)
        requires
            self.wf(),
        ensures
            r.is_some() == has_pending(self@),
            r matches Some(op) ==> op@ == self@.ops[self@.done as int],
    {
        if !self.failed && self.done < self.ops.len() {
            Some(&self.ops[self.done])
        } else {
            None
        }
    }

    /// Records how the pending call went.
    pub fn record(&mut self, ok: bool)
        requires
            old(self).wf(),
            has_pending(old(self)@),
        ensures
            final(self).wf(),
            final(self)@ == step(old(self)@, ok),
    {
        let n = self.ops.len();
        if ok {
            assert(self.done < n);
            self.done = self.done + 1;
        } else {
            self.failed = true;
        }
    }

    /// How many calls succeeded.
    pub fn succeeded(&self) -> (r: usize)
        ensures
            r == self@.done,
    {
        self.done
    }

    /// Whether a call failed.
    pub fn has_failed(&self) -> (r: bool)
        ensures
            r == self@.failed,
    {
        self.failed
    }

    /// Whether every call has succeeded.
    pub fn is_complete(&self) -> (r: bool)
        requires
            self.wf(),
        ensures
            r == (!self@.failed && self@.done == self@.ops.len()),
    {
        !self.failed && self.done == self.ops.len()
    }
}

proof fn lemma_failure_from(s: RunView, results: Seq<bool>, f: int)
    requires
        has_pending(s),
        0 <= f < results.len(),
        s.done + f < s.ops.len(),
        !results[f],
        forall|i: int| 0 <= i < f ==> #[trigger] results[i],
    ensures
        calls_made(s, results) == s.ops.subrange(s.done as int, s.done + f + 1 as int),
        run_to(s, results) == (RunView { done: (s.done + f) as nat, failed: true, ..s }),
    decreases f,
{
    if f == 0 {
        let t = step(s, false);
        assert(!has_pending(t));
        assert(calls_made(t, results.drop_first()) == Seq::<OpView>::empty());
        assert(run_to(t, results.drop_first()) == t);
        assert(calls_made(s, results) =~= s.ops.subrange(s.done as int, s.done + 1 as int));
    } else {
        let t = step(s, true);
        let rest = results.drop_first();
        assert(results[0]);
        assert forall|i: int| 0 <= i < f - 1 implies #[trigger] rest[i] by {
            assert(rest[i] == results[i + 1]);
        }
        lemma_failure_from(t, rest, f - 1);
        assert(calls_made(s, results) =~= s.ops.subrange(s.done as int, s.done + f + 1 as int));
    }
}

proof fn lemma_success_from(s: RunView, results: Seq<bool>)
    requires
        !s.failed,
        s.done <= s.ops.len(),
        results.len() >= s.ops.len() - s.done,
        forall|i: int| 0 <= i < results.len() ==> #[trigger] results[i],
    ensures
        calls_made(s, results) == s.ops.skip(s.done as int),
        run_to(s, results) == (RunView { done: s.ops.len(), ..s }),
    decreases s.ops.len() - s.done,
{
    if s.done == s.ops.len() {
        assert(s.ops.skip(s.done as int) =~= Seq::<OpView>::empty());
    } else {
        let rest = results.drop_first();
        assert(results[0]);
        assert forall|i: int| 0 <= i < rest.len() implies #[trigger] rest[i] by {
            assert(rest[i] == results[i + 1]);
        }
        lemma_success_from(step(s, true), rest);
        assert(calls_made(s, results) =~= s.ops.skip(s.done as int));
    }
}

/// When the call at position `f` is the first to fail, exactly the calls
/// up to and including it are made, in order, and none after it: no call
/// undoes an earlier one.
pub proof fn lemma_first_failure_aborts(ops: Seq<OpView>, results: Seq<bool>, f: int)
    requires
        0 <= f < results.len(),
        f < ops.len(),
        !results[f],
        forall|i: int| 0 <= i < f ==> #[trigger] results[i],
    ensures
        calls_made(start(ops), results) == ops.take(f + 1),
        run_to(start(ops), results) == (RunView { ops, done: f as nat, failed: true }),
{
    lemma_failure_from(start(ops), results, f);
    assert(ops.subrange(0, f + 1) =~= ops.take(f + 1));
}

/// When every call succeeds, all of them are made, in order.
pub proof fn lemma_all_succeed(ops: Seq<OpView>, results: Seq<bool>)
    requires
        results.len() >= ops.len(),
        forall|i: int| 0 <= i < results.len() ==> #[trigger] results[i],
    ensures
        calls_made(start(ops), results) == ops,
        run_to(start(ops), results) == (RunView { ops, done: ops.len(), failed: false }),
{
    lemma_success_from(start(ops), results);
    assert(ops.skip(0) =~= ops);
}

} // verus!
