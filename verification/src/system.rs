//! The dispatcher together with the span stacks of all threads, and what
//! holds of every sequence of operations on them.
//!
//! A run is a sequence of steps, each one operation of one thread, in the
//! order in which the operations took effect.

use vstd::prelude::*;
use crate::callsite::CallSiteView;
use crate::filter::FilterSpecView;
use crate::model::{
    gate, lemma_check_inv, lemma_close_inv, lemma_enter_inv, lemma_pop_stack_wf,
    lemma_push_stack_wf, lemma_register_inv, lemma_reload_inv, stack_wf, DispatcherView, SpanView,
};

verus! {

/// The dispatcher and every thread's stack of live spans.
pub struct SystemView {
    pub dispatcher: DispatcherView,
    pub stacks: Map<nat, Seq<SpanView>>,
}

/// One operation of one thread.
pub enum Step {
    /// A reload with a new filter.
    Reload { spec: FilterSpecView },
    /// Teardown of the dispatcher.
    Close,
    /// The registration of a call site.
    Register { identity: CallSiteView },
    /// A check of a call site.
    Check { site: int },
    /// A thread enters a span at a call site.
    Enter { thread: nat, site: int },
    /// A thread leaves its innermost span.
    Exit { thread: nat },
    /// A thread emits an event at a call site.
    Record { thread: nat, site: int },
}

/// Whether `e` can come after `d`: the generation and the span counter have
/// not gone back, what was installed under a generation is still what stands
/// under it, and every call site has kept its index and identity.
pub open spec fn advances(d: DispatcherView, e: DispatcherView) -> bool {
    &&& d.generation <= e.generation
    &&& d.history.is_prefix_of(e.history)
    &&& d.next_span <= e.next_span
    &&& d.sites.len() <= e.sites.len()
    &&& forall|i: int| 0 <= i < d.sites.len() ==> (#[trigger] e.sites[i]).site == d.sites[i].site
    &&& d.closed ==> e.closed
}

impl SystemView {
    /// A new dispatcher and no live span anywhere.
    pub open spec fn init(spec: FilterSpecView) -> SystemView {
        SystemView { dispatcher: DispatcherView::init(spec), stacks: Map::empty() }
    }

    /// The stack of a thread. A thread that has entered no span has an
    /// empty one.
    pub open spec fn stack(self, thread: nat) -> Seq<SpanView> {
        if self.stacks.dom().contains(thread) {
            self.stacks[thread]
        } else {
            Seq::empty()
        }
    }

    /// The state after one step. A step that the operations' contracts rule
    /// out (an unknown call site, leaving with no live span) changes
    /// nothing.
    pub open spec fn step(self, op: Step) -> SystemView {
        match op {
            Step::Reload { spec } => SystemView { dispatcher: self.dispatcher.reload(spec), ..self },
            Step::Close => SystemView { dispatcher: self.dispatcher.close(), ..self },
            Step::Register { identity } => SystemView {
                dispatcher: self.dispatcher.register(identity),
                ..self
            },
            Step::Check { site } => SystemView { dispatcher: self.dispatcher.after_check(site), ..self },
            Step::Record { thread, site } => SystemView {
                dispatcher: self.dispatcher.after_check(site),
                ..self
            },
            Step::Enter { thread, site } => if self.dispatcher.valid_site(site) {
                SystemView {
                    dispatcher: self.dispatcher.after_enter(site),
                    stacks: self.stacks.insert(
                        thread,
                        self.stack(thread).push(self.dispatcher.entered(self.stack(thread), site)),
                    ),
                }
            } else {
                self
            },
            Step::Exit { thread } => if self.stack(thread).len() > 0 {
                SystemView { stacks: self.stacks.insert(thread, self.stack(thread).drop_last()), ..self }
            } else {
                self
            },
        }
    }

    /// The state after a sequence of steps.
    pub open spec fn run(self, ops: Seq<Step>) -> SystemView
        decreases ops.len(),
    {
        if ops.len() == 0 {
            self
        } else {
            self.run(ops.drop_last()).step(ops.last())
        }
    }

    /// How many of the steps are reloads that took place, that is reloads
    /// of a dispatcher that was not closed.
    pub open spec fn reloads_done(self, ops: Seq<Step>) -> nat
        decreases ops.len(),
    {
        if ops.len() == 0 {
            0
        } else {
            let before = self.run(ops.drop_last());
            let this: nat = if ops.last() is Reload && !before.dispatcher.closed {
                1
            } else {
                0
            };
            self.reloads_done(ops.drop_last()) + this
        }
    }

    /// Span `k` of a thread belongs to a generation that has been, to a
    /// registered call site, and is enabled exactly if the filter of the
    /// generation at its entry enabled its call site and the span below it
    /// let it through.
    pub open spec fn span_sound(self, thread: nat, k: int) -> bool {
        let span = self.stack(thread)[k];
        let d = self.dispatcher;
        &&& span.generation_at_entry <= d.generation
        &&& d.valid_site(span.call_site)
        &&& span.id < d.next_span
        &&& span.enabled == (DispatcherView::evaluate_under(
            d.history[span.generation_at_entry as int],
            d.sites[span.call_site].site,
        ) && gate(self.stack(thread).take(k)))
    }

    /// The invariant of the whole system.
    pub open spec fn inv(self) -> bool {
        &&& self.dispatcher.inv()
        &&& forall|t: nat| stack_wf(#[trigger] self.stack(t))
        &&& forall|t: nat, k: int| 0 <= k < self.stack(t).len() ==> #[trigger] self.span_sound(t, k)
    }
}

/// Every filter that the steps install is well formed.
pub open spec fn admissible(ops: Seq<Step>) -> bool {
    forall|n: int| 0 <= n < ops.len() ==> ((#[trigger] ops[n]) matches Step::Reload { spec } ==> spec.wf())
}

/// A new system satisfies the invariant.
pub proof fn law_new_system_is_sound(spec: FilterSpecView)
    requires
        spec.wf(),
    ensures
        SystemView::init(spec).inv(),
{
    crate::model::lemma_init_inv(spec);
    let s = SystemView::init(spec);
    assert forall|t: nat| stack_wf(#[trigger] s.stack(t)) by {
        assert(s.stack(t) =~= Seq::empty());
    }
}

/// `advances` is reflexive and transitive.
pub proof fn lemma_advances_transitive(a: DispatcherView, b: DispatcherView, c: DispatcherView)
    requires
        advances(a, b),
        advances(b, c),
    ensures
        advances(a, c),
        advances(a, a),
{
    assert forall|i: int| 0 <= i < a.sites.len() implies (#[trigger] c.sites[i]).site == a.sites[i].site by {
        assert(b.sites[i].site == a.sites[i].site);
    }
}

/// One step of the dispatcher alone advances it and keeps its invariant.
proof fn lemma_dispatcher_step(s: SystemView, op: Step)
    requires
        s.dispatcher.inv(),
        op matches Step::Reload { spec } ==> spec.wf(),
    ensures
        s.step(op).dispatcher.inv(),
        advances(s.dispatcher, s.step(op).dispatcher),
{
    let d = s.dispatcher;
    match op {
        Step::Reload { spec } => {
            lemma_reload_inv(d, spec);
        },
        Step::Close => {
            lemma_close_inv(d);
        },
        Step::Register { identity } => {
            lemma_register_inv(d, identity);
        },
        Step::Check { site } => {
            lemma_check_inv(d, site);
        },
        Step::Record { thread, site } => {
            lemma_check_inv(d, site);
        },
        Step::Enter { thread, site } => {
            lemma_enter_inv(d, site);
        },
        Step::Exit { thread } => {},
    }
}

/// A sound span stays sound while the dispatcher advances and the span and
/// what lies below it stay as they are.
proof fn lemma_sound_carries(s: SystemView, e: SystemView, t: nat, k: int)
    requires
        s.dispatcher.inv(),
        advances(s.dispatcher, e.dispatcher),
        0 <= k < s.stack(t).len(),
        s.span_sound(t, k),
        k < e.stack(t).len(),
        e.stack(t)[k] == s.stack(t)[k],
        e.stack(t).take(k) == s.stack(t).take(k),
    ensures
        e.span_sound(t, k),
{
    let span = s.stack(t)[k];
    let g = span.generation_at_entry as int;
    assert(e.dispatcher.history[g] == s.dispatcher.history[g]);
    assert(e.dispatcher.sites[span.call_site].site == s.dispatcher.sites[span.call_site].site);
}

/// One step keeps the invariant and advances the dispatcher.
pub proof fn lemma_step_inv(s: SystemView, op: Step)
    requires
        s.inv(),
        op matches Step::Reload { spec } ==> spec.wf(),
    ensures
        s.step(op).inv(),
        advances(s.dispatcher, s.step(op).dispatcher),
{
    let e = s.step(op);
    lemma_dispatcher_step(s, op);
    match op {
        Step::Enter { thread, site } => {
            if s.dispatcher.valid_site(site) {
                let old_stack = s.stack(thread);
                let span = s.dispatcher.entered(old_stack, site);
                lemma_push_stack_wf(s.dispatcher, old_stack, site);
                assert forall|t: nat| stack_wf(#[trigger] e.stack(t)) by {
                    if t != thread {
                        assert(e.stack(t) == s.stack(t));
                    }
                }
                assert forall|t: nat, k: int| 0 <= k < e.stack(t).len() implies #[trigger] e.span_sound(
                    t,
                    k,
                ) by {
                    if t != thread {
                        assert(e.stack(t) == s.stack(t));
                        assert(s.span_sound(t, k));
                        lemma_sound_carries(s, e, t, k);
                    } else if k < old_stack.len() {
                        assert(e.stack(t).take(k) =~= old_stack.take(k));
                        assert(s.span_sound(t, k));
                        lemma_sound_carries(s, e, t, k);
                    } else {
                        assert(e.stack(t).take(k) =~= old_stack);
                        assert(e.stack(t)[k] == span);
                    }
                }
            }
        },
        Step::Exit { thread } => {
            if s.stack(thread).len() > 0 {
                let old_stack = s.stack(thread);
                lemma_pop_stack_wf(old_stack);
                assert forall|t: nat| stack_wf(#[trigger] e.stack(t)) by {
                    if t != thread {
                        assert(e.stack(t) == s.stack(t));
                    }
                }
                assert forall|t: nat, k: int| 0 <= k < e.stack(t).len() implies #[trigger] e.span_sound(
                    t,
                    k,
                ) by {
                    if t != thread {
                        assert(e.stack(t) == s.stack(t));
                    } else {
                        assert(e.stack(t).take(k) =~= old_stack.take(k));
                    }
                    assert(s.span_sound(t, k));
                    lemma_sound_carries(s, e, t, k);
                }
            }
        },
        _ => {
            assert forall|t: nat| stack_wf(#[trigger] e.stack(t)) by {
                assert(e.stack(t) == s.stack(t));
            }
            assert forall|t: nat, k: int| 0 <= k < e.stack(t).len() implies #[trigger] e.span_sound(
                t,
                k,
            ) by {
                assert(e.stack(t) == s.stack(t));
                assert(s.span_sound(t, k));
                lemma_sound_carries(s, e, t, k);
            }
        },
    }
}

/// Every run keeps the invariant and only ever advances the dispatcher: no
/// state is reached in which the generation stands beside the filter of
/// another generation, and what was installed under a generation is never
/// rewritten.
pub proof fn law_run_keeps_invariant(s: SystemView, ops: Seq<Step>)
    requires
        s.inv(),
        admissible(ops),
    ensures
        s.run(ops).inv(),
        advances(s.dispatcher, s.run(ops).dispatcher),
        s.run(ops).dispatcher.spec == s.run(ops).dispatcher.history[s.run(ops).dispatcher.generation as int],
    decreases ops.len(),
{
    if ops.len() > 0 {
        let front = ops.drop_last();
        assert forall|n: int| 0 <= n < front.len() implies ((#[trigger] front[n]) matches Step::Reload {
            spec,
        } ==> spec.wf()) by {
            assert(front[n] == ops[n]);
        }
        law_run_keeps_invariant(s, front);
        assert(ops.last() == ops[ops.len() - 1]);
        lemma_step_inv(s.run(front), ops.last());
        lemma_advances_transitive(s.dispatcher, s.run(front).dispatcher, s.run(ops).dispatcher);
    }
}

/// The generation never goes down, and it goes up by exactly one for each
/// reload that took place.
pub proof fn law_generation_counts_reloads(s: SystemView, ops: Seq<Step>)
    ensures
        s.run(ops).dispatcher.generation == s.dispatcher.generation + s.reloads_done(ops),
        s.run(ops).dispatcher.generation >= s.dispatcher.generation,
    decreases ops.len(),
{
    if ops.len() > 0 {
        law_generation_counts_reloads(s, ops.drop_last());
    }
}

/// The generation at any point of a run is no greater than at any later
/// point.
pub proof fn law_generation_monotone(s: SystemView, ops: Seq<Step>, n: int)
    requires
        0 <= n <= ops.len(),
    ensures
        s.run(ops.take(n)).dispatcher.generation <= s.run(ops).dispatcher.generation,
    decreases ops.len(),
{
    if n == ops.len() {
        assert(ops.take(n) =~= ops);
    } else {
        law_generation_monotone(s, ops.drop_last(), n);
        assert(ops.drop_last().take(n) =~= ops.take(n));
        law_generation_counts_reloads(s.run(ops.drop_last()), seq![ops.last()]);
        assert(seq![ops.last()].drop_last() =~= Seq::<Step>::empty());
    }
}

/// Every reload that took place raised the generation by one, and of two
/// such reloads the later one got the higher generation: no generation is
/// given out twice.
pub proof fn law_reloads_get_distinct_generations(s: SystemView, ops: Seq<Step>, m: int, n: int)
    requires
        0 <= m < n < ops.len(),
        ops[m] is Reload,
        ops[n] is Reload,
        !s.run(ops.take(m)).dispatcher.closed,
        !s.run(ops.take(n)).dispatcher.closed,
    ensures
        s.run(ops.take(m + 1)).dispatcher.generation == s.run(ops.take(m)).dispatcher.generation + 1,
        s.run(ops.take(n + 1)).dispatcher.generation == s.run(ops.take(n)).dispatcher.generation + 1,
        s.run(ops.take(m + 1)).dispatcher.generation < s.run(ops.take(n + 1)).dispatcher.generation,
{
    assert(ops.take(m + 1).drop_last() =~= ops.take(m));
    assert(ops.take(m + 1).last() == ops[m]);
    assert(ops.take(n + 1).drop_last() =~= ops.take(n));
    assert(ops.take(n + 1).last() == ops[n]);
    law_generation_monotone(s, ops.take(n), m + 1);
    assert(ops.take(n).take(m + 1) =~= ops.take(m + 1));
}

/// After a reload that took place, whatever steps follow, a check runs at
/// a generation no lower than the reloaded one and answers by the filter of
/// the generation it runs at. Where no further reload took place in
/// between, that is the reloaded filter.
pub proof fn law_reload_is_visible(s: SystemView, spec: FilterSpecView, ops: Seq<Step>, site: int)
    requires
        s.inv(),
        spec.wf(),
        !s.dispatcher.closed,
        admissible(ops),
    ensures
        ({
            let reloaded = s.step(Step::Reload { spec });
            let later = reloaded.run(ops);
            &&& reloaded.dispatcher.generation == s.dispatcher.generation + 1
            &&& later.dispatcher.generation >= reloaded.dispatcher.generation
            &&& later.dispatcher.verdict(site) == DispatcherView::evaluate_under(
                later.dispatcher.history[later.dispatcher.generation as int],
                later.dispatcher.sites[site].site,
            )
            &&& later.dispatcher.history[reloaded.dispatcher.generation as int] == spec
            &&& reloaded.reloads_done(ops) == 0 ==> later.dispatcher.spec == spec
        }),
{
    let reloaded = s.step(Step::Reload { spec });
    lemma_step_inv(s, Step::Reload { spec });
    law_run_keeps_invariant(reloaded, ops);
    law_generation_counts_reloads(reloaded, ops);
    let later = reloaded.run(ops);
    assert(later.dispatcher.history[reloaded.dispatcher.generation as int]
        == reloaded.dispatcher.history[reloaded.dispatcher.generation as int]);
}

/// A span that stays live through a run is not changed by it, whatever
/// reloads take place meanwhile: neither whether it is enabled nor anything
/// else of it.
pub proof fn law_live_span_is_frozen(s: SystemView, ops: Seq<Step>, thread: nat, k: int)
    requires
        0 <= k,
        forall|n: int| 0 <= n <= ops.len() ==> k < (#[trigger] s.run(ops.take(n))).stack(thread).len(),
    ensures
        k < s.run(ops).stack(thread).len(),
        s.run(ops).stack(thread)[k] == s.stack(thread)[k],
        s.run(ops).stack(thread).take(k) == s.stack(thread).take(k),
    decreases ops.len(),
{
    assert(ops.take(ops.len() as int) =~= ops);
    assert(k < s.run(ops.take(ops.len() as int)).stack(thread).len());
    if ops.len() == 0 {
    } else {
        let front = ops.drop_last();
        assert forall|n: int| 0 <= n <= front.len() implies k < (#[trigger] s.run(front.take(n))).stack(
            thread,
        ).len() by {
            assert(front.take(n) =~= ops.take(n));
            assert(k < s.run(ops.take(n)).stack(thread).len());
        }
        law_live_span_is_frozen(s, front, thread, k);
        let before = s.run(front);
        let after = s.run(ops);
        assert(after == before.step(ops.last()));
        assert(after.stack(thread).take(k) =~= before.stack(thread).take(k));
    }
}

/// In every state of the invariant, a live span is enabled exactly if the
/// filter of the generation at its entry enabled its call site and the span
/// below it let it through; and an event on the thread is recorded exactly
/// if the innermost live span is enabled, or there is none, and the active
/// filter enables the event's call site.
pub proof fn law_span_holds_entry_verdict(s: SystemView, thread: nat, k: int, site: int)
    requires
        s.inv(),
        0 <= k < s.stack(thread).len(),
    ensures
        s.stack(thread)[k].enabled == (DispatcherView::evaluate_under(
            s.dispatcher.history[s.stack(thread)[k].generation_at_entry as int],
            s.dispatcher.sites[s.stack(thread)[k].call_site].site,
        ) && gate(s.stack(thread).take(k))),
        s.dispatcher.records(s.stack(thread), site) == (s.stack(thread).last().enabled
            && s.dispatcher.verdict(site)),
{
    assert(s.span_sound(thread, k));
}

} // verus!
