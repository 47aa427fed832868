//! The dispatcher: the one place that call sites ask whether they are
//! enabled, and the owner of the active filter.

use vstd::prelude::*;
use crate::callsite::{CallSite, CallSiteId};
use crate::event::{event_on, fields_view, Event, Field};
use crate::filter::{FilterSpec, FilterSpecView};
use crate::interest::{CachedInterest, Interest};
use crate::level::Level;
use crate::model::{
    lemma_check_inv, lemma_close_inv, lemma_current_entry_is_verdict, lemma_enter_inv,
    lemma_init_inv, lemma_register_inv, lemma_reload_inv, DispatcherView, SiteState,
};
use crate::span::{Span, SpanGuard, ThreadSpanStack};

verus! {

/// Why a reload did not take place.
#[derive(Clone, Copy, Debug, PartialEq, Eq, Structural)]
pub enum ReloadError {
    /// The dispatcher had been torn down.
    Closed,
}

/// The active filter and its generation. The two are only ever replaced
/// together.
#[derive(Debug)]
pub struct ActiveFilter {
    generation: u64,
    spec: FilterSpec,
}

impl ActiveFilter {
    /// The generation of the filter.
    pub closed spec fn spec_generation(&self) -> nat {
        self.generation as nat
    }

    /// The filter.
    pub closed spec fn spec_filter(&self) -> FilterSpecView {
        self.spec@
    }

    /// A filter at generation 0.
    pub fn new(spec: FilterSpec) -> (r: ActiveFilter)
        ensures
            r.spec_generation() == 0,
            r.spec_filter() == spec@,
    {
        ActiveFilter { generation: 0, spec }
    }

    /// The generation and the filter that belongs to it.
    pub fn current(&self) -> (r: (u64, &FilterSpec))
        ensures
            r.0 == self.spec_generation(),
            r.1@ == self.spec_filter(),
    {
        (self.generation, &self.spec)
    }

    /// Installs a filter under the next generation.
    pub fn replace(&mut self, spec: FilterSpec)
        requires
            old(self).spec_generation() < u64::MAX,
        ensures
            final(self).spec_generation() == old(self).spec_generation() + 1,
            final(self).spec_filter() == spec@,
    {
        *self = ActiveFilter { generation: self.generation + 1, spec };
    }
}

/// The dispatcher. It owns the active filter and the call sites with their
/// cached verdicts, and hands out span identities.
pub struct Dispatcher {
    active: ActiveFilter,
    closed: bool,
    sites: Vec<CallSite>,
    cache: Vec<CachedInterest>,
    next_span: u64,
    history: Ghost<Seq<FilterSpecView>>,
}

impl View for Dispatcher {
    type V = DispatcherView;

    closed spec fn view(&self) -> DispatcherView {
        DispatcherView {
            generation: self.active.spec_generation(),
            spec: self.active.spec_filter(),
            closed: self.closed,
            sites: Seq::new(
                self.sites@.len(),
                |i: int| SiteState { site: self.sites@[i]@, cached: self.cache@[i]@ },
            ),
            next_span: self.next_span as nat,
            history: self.history@,
        }
    }
}

impl Dispatcher {
    /// Every call site has a cache entry.
    pub closed spec fn coherent(&self) -> bool {
        self.sites@.len() == self.cache@.len()
    }

    /// The dispatcher's representation is coherent and its state satisfies
    /// the invariant of the model.
    pub open spec fn wf(&self) -> bool {
        self.coherent() && self@.inv()
    }

    /// A dispatcher with `spec` as its filter, at generation 0, with no
    /// call site.
    pub fn new(spec: FilterSpec) -> (r: Dispatcher)
        requires
            spec.wf(),
        ensures
            r.wf(),
            r@ == DispatcherView::init(spec@),
    {
        let ghost first = spec@;
        let history: Ghost<Seq<FilterSpecView>> = Ghost(Seq::empty().push(first));
        let r = Dispatcher {
            active: ActiveFilter::new(spec),
            closed: false,
            sites: Vec::new(),
            cache: Vec::new(),
            next_span: 0,
            history,
        };
        proof {
            assert(r@.sites =~= Seq::<SiteState>::empty());
            lemma_init_inv(first);
        }
        r
    }

    /// The current generation.
    pub fn generation(&self) -> (r: u64)
        ensures
            r == self@.generation,
    {
        self.active.current().0
    }

    /// Whether the dispatcher has been torn down.
    pub fn is_closed(&self) -> (r: bool)
        ensures
            r == self@.closed,
    {
        self.closed
    }

    /// The number of registered call sites.
    pub fn site_count(&self) -> (r: usize)
        ensures
            r == self@.sites.len(),
    {
        self.sites.len()
    }

    /// The identity of a registered call site.
    pub fn call_site(&self, site: CallSiteId) -> (r: &CallSite)
        requires
            self.wf(),
            self@.valid_site(site@),
        ensures
            r@ == self@.sites[site@].site,
    {
        &self.sites[site.0]
    }

    /// The cache entry of a registered call site.
    pub fn cached(&self, site: CallSiteId) -> (r: CachedInterest)
        requires
            self.wf(),
            self@.valid_site(site@),
        ensures
            r@ == self@.sites[site@].cached,
    {
        self.cache[site.0]
    }

    /// The identity that the next span gets.
    pub fn next_span_id(&self) -> (r: u64)
        ensures
            r == self@.next_span,
    {
        self.next_span
    }

    /// The current generation together with the filter that was installed
    /// under it: never the filter of another generation.
    pub fn current(&self) -> (r: (u64, &FilterSpec))
        requires
            self.wf(),
        ensures
            r.0 == self@.generation,
            r.1@ == self@.spec,
            r.1@ == self@.history[r.0 as int],
            r.1.wf(),
    {
        self.active.current()
    }

    /// Tears the dispatcher down. Later reloads fail; everything else goes
    /// on as before.
    pub fn close(&mut self)
        requires
            old(self).wf(),
        ensures
            final(self).wf(),
            final(self)@ == old(self)@.close(),
    {
        proof {
            lemma_close_inv(self@);
        }
        self.closed = true;
    }

    /// Replaces the filter and raises the generation by one, in one step.
    /// Fails, and changes nothing, exactly when the dispatcher is closed.
    pub fn reload(&mut self, spec: FilterSpec) -> (r: Result<(), ReloadError>)
        requires
            old(self).wf(),
            spec.wf(),
            old(self)@.closed || old(self)@.generation < u64::MAX,
        ensures
            final(self).wf(),
            final(self)@ == old(self)@.reload(spec@),
            r is Err <==> old(self)@.closed,
            r is Err ==> r == Err::<(), ReloadError>(ReloadError::Closed),
    {
        if self.closed {
            return Err(ReloadError::Closed);
        }
        let ghost before = self@;
        let ghost installed = spec@;
        proof {
            lemma_reload_inv(before, installed);
        }
        self.active.replace(spec);
        let history: Ghost<Seq<FilterSpecView>> = Ghost(before.history.push(installed));
        self.history = history;
        proof {
            assert(self@.sites =~= before.sites);
        }
        Ok(())
    }

    /// Registers a call site and returns its index. A call site whose
    /// identity is already known keeps its index and its cache entry; a new
    /// one is appended, evaluated against the active filter.
    pub fn register(&mut self, site: CallSite) -> (r: CallSiteId)
        requires
            old(self).wf(),
        ensures
            final(self).wf(),
            final(self)@ == old(self)@.register(site@),
            r@ == old(self)@.index_of(site@),
            final(self)@.valid_site(r@),
            final(self)@.sites[r@].site == site@,
    {
        let ghost before = self@;
        proof {
            lemma_register_inv(before, site@);
        }
        let mut i: usize = 0;
        while i < self.sites.len()
            invariant
                i <= self.sites.len(),
                self.wf(),
                self@ == before,
                forall|k: int| 0 <= k < i ==> (#[trigger] before.sites[k]).site != site@,
            decreases self.sites.len() - i,
        {
            if self.sites[i].same_as(&site) {
                proof {
                    assert(before.sites[i as int].site == site@);
                    let j = before.index_of(site@);
                    if j < i {
                        assert(before.sites[j].site != before.sites[i as int].site);
                    } else if i < j {
                        assert(before.sites[i as int].site != before.sites[j].site);
                    }
                }
                return CallSiteId(i);
            }
            i += 1;
        }
        let (_, spec) = self.active.current();
        let enabled = spec.evaluate(site.target.as_str(), site.level);
        let entry = CachedInterest {
            generation: self.active.current().0,
            verdict: Interest::from_enabled(enabled),
        };
        let id = self.sites.len();
        let ghost added = SiteState { site: site@, cached: before.fresh_interest(site@) };
        self.sites.push(site);
        self.cache.push(entry);
        proof {
            assert(entry@ == added.cached);
            assert(self@.sites =~= before.sites.push(added));
        }
        CallSiteId(id)
    }

    /// Whether call site `site` is enabled under the active filter. A cache
    /// entry of the current generation answers at once; a stale one is
    /// recomputed and replaced.
    pub fn check(&mut self, site: CallSiteId) -> (r: bool)
        requires
            old(self).wf(),
            old(self)@.valid_site(site@),
        ensures
            final(self).wf(),
            final(self)@ == old(self)@.after_check(site@),
            r == old(self)@.verdict(site@),
    {
        let ghost before = self@;
        let i = site.0;
        proof {
            lemma_check_inv(before, i as int);
        }
        let cached = self.cache[i];
        let (generation, spec) = self.active.current();
        assert(cached@ == before.sites[i as int].cached);
        if cached.generation == generation {
            proof {
                lemma_current_entry_is_verdict(before, i as int);
            }
            return cached.verdict.is_enabled();
        }
        let enabled = spec.evaluate(self.sites[i].target.as_str(), self.sites[i].level);
        let entry = CachedInterest { generation, verdict: Interest::from_enabled(enabled) };
        self.cache[i] = entry;
        proof {
            let fresh = SiteState {
                site: before.sites[i as int].site,
                cached: before.fresh_interest(before.sites[i as int].site),
            };
            assert(entry@ == fresh.cached);
            assert(self@.sites =~= before.sites.update(i as int, fresh));
        }
        enabled
    }

    /// Enters a span at call site `site` on the thread that owns `stack`.
    /// The span is enabled if the call site is and the span below it, if
    /// there is one, is too; that is decided here, once.
    pub fn enter(&mut self, stack: &mut ThreadSpanStack, site: CallSiteId) -> (r: SpanGuard)
        requires
            old(self).wf(),
            old(stack).wf(),
            old(self)@.valid_site(site@),
            old(self)@.next_span < u64::MAX,
        ensures
            final(self).wf(),
            final(stack).wf(),
            final(self)@ == old(self)@.after_enter(site@),
            r@ == old(self)@.entered(old(stack)@, site@),
            final(stack)@ == old(stack)@.push(r@),
    {
        let ghost before = self@;
        proof {
            lemma_check_inv(before, site@);
            lemma_enter_inv(before, site@);
        }
        let generation = self.active.current().0;
        let checked = self.check(site);
        let span = Span {
            id: self.next_span,
            call_site: site,
            parent: stack.innermost_id(),
            enabled: checked && stack.gate(),
            generation_at_entry: generation,
        };
        self.next_span = self.next_span + 1;
        proof {
            assert(self@.sites =~= before.after_check(site@).sites);
            assert(span@ == before.entered(stack@, site@));
        }
        stack.push(span);
        SpanGuard::new(span)
    }

    /// Whether an event at call site `site` is recorded on the thread that
    /// owns `stack`: it is if the innermost live span lets it through, or
    /// there is none, and the call site is enabled. A caller can ask this
    /// before it formats the event's fields.
    pub fn event_enabled(&mut self, stack: &ThreadSpanStack, site: CallSiteId) -> (r: bool)
        requires
            old(self).wf(),
            old(self)@.valid_site(site@),
        ensures
            final(self).wf(),
            final(self)@ == old(self)@.after_check(site@),
            r == old(self)@.records(stack@, site@),
    {
        let enabled = self.check(site);
        enabled && stack.gate()
    }

    /// Records an event at call site `site` on the thread that owns
    /// `stack`, if it is enabled there. A recorded event comes back to be
    /// passed to the sink, with the innermost live span and the path of live
    /// spans; a dropped one leaves nothing behind.
    pub fn record_event(
        &mut self,
        stack: &ThreadSpanStack,
        site: CallSiteId,
        level: Level,
        fields: Vec<Field>,
    ) -> (r: Option<Event>)
        requires
            old(self).wf(),
            old(self)@.valid_site(site@),
        ensures
            final(self).wf(),
            final(self)@ == old(self)@.after_check(site@),
            r is Some <==> old(self)@.records(stack@, site@),
            r matches Some(e) ==> e@ == event_on(stack@, site@, level, fields_view(fields@)),
    {
        if self.event_enabled(stack, site) {
            let e = Event {
                call_site: site,
                level,
                fields,
                innermost_span: stack.innermost_id(),
                span_path: stack.path(),
            };
            proof {
                assert(e@.span_path =~= event_on(stack@, site@, level, fields_view(fields@)).span_path);
            }
            Some(e)
        } else {
            None
        }
    }
}

} // verus!
