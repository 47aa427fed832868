//! The mathematical model of the dispatcher and of a thread's span stack.
//!
//! Every executable operation is specified as a transition of this model.

use vstd::prelude::*;
use vstd::utf8::encode_utf8;
use crate::callsite::CallSiteView;
use crate::filter::FilterSpecView;
use crate::interest::{CachedInterestView, Interest};

verus! {

/// A registered call site with its cached verdict.
pub struct SiteState {
    pub site: CallSiteView,
    pub cached: CachedInterestView,
}

/// The state of a dispatcher.
pub struct DispatcherView {
    /// The generation of the active filter.
    pub generation: nat,
    /// The active filter.
    pub spec: FilterSpecView,
    /// Whether the dispatcher has been torn down.
    pub closed: bool,
    /// The call sites, by index.
    pub sites: Seq<SiteState>,
    /// The identity that the next span gets.
    pub next_span: nat,
    /// The filter that was installed at each generation so far.
    pub history: Seq<FilterSpecView>,
}

/// A span on a thread's stack.
pub struct SpanView {
    pub id: nat,
    pub call_site: int,
    pub parent: Option<nat>,
    pub enabled: bool,
    pub generation_at_entry: nat,
}

/// Whether the innermost live span lets events through. An empty stack
/// does.
pub open spec fn gate(stack: Seq<SpanView>) -> bool {
    stack.len() == 0 || stack.last().enabled
}

/// The identity of the innermost live span.
pub open spec fn innermost(stack: Seq<SpanView>) -> Option<nat> {
    if stack.len() == 0 {
        None
    } else {
        Some(stack.last().id)
    }
}

/// Each span's parent is the span below it, and no span is enabled above a
/// disabled one.
pub open spec fn stack_wf(stack: Seq<SpanView>) -> bool {
    forall|k: int|
        0 <= k < stack.len() ==> {
            &&& (#[trigger] stack[k]).parent == innermost(stack.take(k))
            &&& stack[k].enabled ==> gate(stack.take(k))
        }
}

impl DispatcherView {
    /// The state of a new dispatcher: generation 0, no call site.
    pub open spec fn init(spec: FilterSpecView) -> DispatcherView {
        DispatcherView {
            generation: 0,
            spec,
            closed: false,
            sites: Seq::empty(),
            next_span: 0,
            history: seq![spec],
        }
    }

    /// Whether `i` is the index of a registered call site.
    pub open spec fn valid_site(self, i: int) -> bool {
        0 <= i < self.sites.len()
    }

    /// What a given filter makes of a call site.
    pub open spec fn evaluate_under(spec: FilterSpecView, site: CallSiteView) -> bool {
        spec.evaluate(encode_utf8(site.target), site.level)
    }

    /// What the active filter makes of call site `i`.
    pub open spec fn verdict(self, i: int) -> bool {
        Self::evaluate_under(self.spec, self.sites[i].site)
    }

    /// The cache entry that an evaluation against the active filter stores.
    pub open spec fn fresh_interest(self, site: CallSiteView) -> CachedInterestView {
        CachedInterestView {
            generation: self.generation,
            verdict: Interest::spec_from_enabled(Self::evaluate_under(self.spec, site)),
        }
    }

    /// Whether the cache entry of call site `i` belongs to an earlier
    /// generation.
    pub open spec fn stale(self, i: int) -> bool {
        self.sites[i].cached.generation != self.generation
    }

    /// A reload: unless the dispatcher is closed, the filter is replaced and
    /// the generation goes up by one, in one step.
    pub open spec fn reload(self, spec: FilterSpecView) -> DispatcherView {
        if self.closed {
            self
        } else {
            DispatcherView {
                generation: self.generation + 1,
                spec,
                history: self.history.push(spec),
                ..self
            }
        }
    }

    /// Teardown.
    pub open spec fn close(self) -> DispatcherView {
        DispatcherView { closed: true, ..self }
    }

    /// A check of call site `i`: a stale cache entry is replaced by a fresh
    /// one, and nothing else changes.
    pub open spec fn after_check(self, i: int) -> DispatcherView {
        if self.valid_site(i) && self.stale(i) {
            DispatcherView {
                sites: self.sites.update(
                    i,
                    SiteState {
                        site: self.sites[i].site,
                        cached: self.fresh_interest(self.sites[i].site),
                    },
                ),
                ..self
            }
        } else {
            self
        }
    }

    /// Whether a call site of this identity is registered.
    pub open spec fn knows(self, site: CallSiteView) -> bool {
        exists|i: int| 0 <= i < self.sites.len() && (#[trigger] self.sites[i]).site == site
    }

    /// The index of the call site of this identity: its place if it is
    /// registered, else the place it would get.
    pub open spec fn index_of(self, site: CallSiteView) -> int {
        if self.knows(site) {
            choose|i: int| 0 <= i < self.sites.len() && (#[trigger] self.sites[i]).site == site
        } else {
            self.sites.len() as int
        }
    }

    /// A registration: a new identity is appended with a fresh cache entry,
    /// a known one changes nothing.
    pub open spec fn register(self, site: CallSiteView) -> DispatcherView {
        if self.knows(site) {
            self
        } else {
            DispatcherView {
                sites: self.sites.push(SiteState { site, cached: self.fresh_interest(site) }),
                ..self
            }
        }
    }

    /// The span that entering call site `i` puts on `stack`.
    pub open spec fn entered(self, stack: Seq<SpanView>, i: int) -> SpanView {
        SpanView {
            id: self.next_span,
            call_site: i,
            parent: innermost(stack),
            enabled: self.verdict(i) && gate(stack),
            generation_at_entry: self.generation,
        }
    }

    /// The dispatcher after a span was entered at call site `i`: the call
    /// site was checked and one span identity was used up.
    pub open spec fn after_enter(self, i: int) -> DispatcherView {
        DispatcherView { next_span: self.next_span + 1, ..self.after_check(i) }
    }

    /// Whether an event at call site `i` is recorded on a thread with this
    /// stack.
    pub open spec fn records(self, stack: Seq<SpanView>, i: int) -> bool {
        gate(stack) && self.verdict(i)
    }

    /// The cache entry of call site `i` belongs to a generation that has
    /// been, and holds what the filter of that generation makes of the call
    /// site.
    pub open spec fn cache_sound(self, i: int) -> bool {
        let s = self.sites[i];
        &&& s.cached.generation <= self.generation
        &&& s.cached.verdict.spec_is_enabled() == Self::evaluate_under(
            self.history[s.cached.generation as int],
            s.site,
        )
    }

    /// The invariant of the dispatcher.
    pub open spec fn inv(self) -> bool {
        &&& self.history.len() == self.generation + 1
        &&& self.history[self.generation as int] == self.spec
        &&& forall|g: int| 0 <= g < self.history.len() ==> (#[trigger] self.history[g]).wf()
        &&& forall|i: int| 0 <= i < self.sites.len() ==> #[trigger] self.cache_sound(i)
        &&& forall|i: int, j: int|
            0 <= i < j < self.sites.len() ==> (#[trigger] self.sites[i]).site != (
            #[trigger] self.sites[j]).site
    }
}

/// A new dispatcher satisfies the invariant.
pub proof fn lemma_init_inv(spec: FilterSpecView)
    requires
        spec.wf(),
    ensures
        DispatcherView::init(spec).inv(),
{
}

/// A reload keeps the invariant.
pub proof fn lemma_reload_inv(d: DispatcherView, spec: FilterSpecView)
    requires
        d.inv(),
        spec.wf(),
    ensures
        d.reload(spec).inv(),
{
    let r = d.reload(spec);
    if !d.closed {
        assert forall|i: int| 0 <= i < r.sites.len() implies #[trigger] r.cache_sound(i) by {
            assert(d.cache_sound(i));
        }
        assert forall|g: int| 0 <= g < r.history.len() implies (#[trigger] r.history[g]).wf() by {
            if g < d.history.len() {
                assert(d.history[g].wf());
            }
        }
    }
}

/// Teardown keeps the invariant.
pub proof fn lemma_close_inv(d: DispatcherView)
    requires
        d.inv(),
    ensures
        d.close().inv(),
{
    let r = d.close();
    assert forall|i: int| 0 <= i < r.sites.len() implies #[trigger] r.cache_sound(i) by {
        assert(d.cache_sound(i));
    }
}

/// A check keeps the invariant.
pub proof fn lemma_check_inv(d: DispatcherView, i: int)
    requires
        d.inv(),
    ensures
        d.after_check(i).inv(),
{
    let r = d.after_check(i);
    if d.valid_site(i) && d.stale(i) {
        assert forall|k: int| 0 <= k < r.sites.len() implies #[trigger] r.cache_sound(k) by {
            assert(d.cache_sound(k));
        }
        assert forall|a: int, b: int| 0 <= a < b < r.sites.len() implies (#[trigger] r.sites[a]).site != (
        #[trigger] r.sites[b]).site by {
            assert(d.sites[a].site != d.sites[b].site);
        }
    }
}

/// A registration keeps the invariant.
pub proof fn lemma_register_inv(d: DispatcherView, site: CallSiteView)
    requires
        d.inv(),
    ensures
        d.register(site).inv(),
        d.register(site).valid_site(d.index_of(site)),
        d.register(site).sites[d.index_of(site)].site == site,
{
    let r = d.register(site);
    if !d.knows(site) {
        assert forall|k: int| 0 <= k < r.sites.len() implies #[trigger] r.cache_sound(k) by {
            if k < d.sites.len() {
                assert(d.cache_sound(k));
            }
        }
        assert forall|a: int, b: int| 0 <= a < b < r.sites.len() implies (#[trigger] r.sites[a]).site != (
        #[trigger] r.sites[b]).site by {
            if b < d.sites.len() {
                assert(d.sites[a].site != d.sites[b].site);
            } else {
                assert(d.sites[a].site != site);
            }
        }
    }
}

/// Entering a span keeps the invariant.
pub proof fn lemma_enter_inv(d: DispatcherView, i: int)
    requires
        d.inv(),
    ensures
        d.after_enter(i).inv(),
{
    lemma_check_inv(d, i);
    let c = d.after_check(i);
    let r = d.after_enter(i);
    assert forall|k: int| 0 <= k < r.sites.len() implies #[trigger] r.cache_sound(k) by {
        assert(c.cache_sound(k));
    }
}

/// A cache entry of the current generation holds what the active filter
/// makes of its call site.
pub proof fn lemma_current_entry_is_verdict(d: DispatcherView, i: int)
    requires
        d.inv(),
        d.valid_site(i),
        !d.stale(i),
    ensures
        d.sites[i].cached.verdict.spec_is_enabled() == d.verdict(i),
{
    assert(d.cache_sound(i));
}

/// Pushing the span that `entered` describes keeps a stack well formed.
pub proof fn lemma_push_stack_wf(d: DispatcherView, stack: Seq<SpanView>, i: int)
    requires
        stack_wf(stack),
    ensures
        stack_wf(stack.push(d.entered(stack, i))),
{
    let s = d.entered(stack, i);
    let after = stack.push(s);
    assert forall|k: int| 0 <= k < after.len() implies {
        &&& (#[trigger] after[k]).parent == innermost(after.take(k))
        &&& after[k].enabled ==> gate(after.take(k))
    } by {
        if k < stack.len() {
            assert(after.take(k) =~= stack.take(k));
            assert(stack[k].parent == innermost(stack.take(k)));
        } else {
            assert(after.take(k) =~= stack);
        }
    }
}

/// Popping the innermost span keeps a stack well formed.
pub proof fn lemma_pop_stack_wf(stack: Seq<SpanView>)
    requires
        stack_wf(stack),
        stack.len() > 0,
    ensures
        stack_wf(stack.drop_last()),
{
    let after = stack.drop_last();
    assert forall|k: int| 0 <= k < after.len() implies {
        &&& (#[trigger] after[k]).parent == innermost(after.take(k))
        &&& after[k].enabled ==> gate(after.take(k))
    } by {
        assert(after.take(k) =~= stack.take(k));
        assert(stack[k].parent == innermost(stack.take(k)));
    }
}

} // verus!
