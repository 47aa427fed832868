//! Spans and the stack of live spans that each thread owns.

use vstd::prelude::*;
use crate::callsite::CallSiteId;
use crate::model::{gate, innermost, stack_wf, SpanView};

verus! {

/// A span as it stands on a thread's stack. Whether it is enabled is
/// decided when it is entered and never changes afterwards.
#[derive(Clone, Copy, Debug)]
pub struct Span {
    pub id: u64,
    pub call_site: CallSiteId,
    pub parent: Option<u64>,
    pub enabled: bool,
    pub generation_at_entry: u64,
}

impl View for Span {
    type V = SpanView;

    open spec fn view(&self) -> SpanView {
        SpanView {
            id: self.id as nat,
            call_site: self.call_site@,
            parent: match self.parent {
                None => None,
                Some(p) => Some(p as nat),
            },
            enabled: self.enabled,
            generation_at_entry: self.generation_at_entry as nat,
        }
    }
}

impl Span {
    /// Whether two spans agree in every field.
    pub fn same_as(&self, other: &Span) -> (r: bool)
        ensures
            r == (self@ == other@),
    {
        let parents = match (self.parent, other.parent) {
            (None, None) => true,
            (Some(a), Some(b)) => a == b,
            _ => false,
        };
        parents && self.id == other.id && self.call_site.0 == other.call_site.0 && self.enabled
            == other.enabled && self.generation_at_entry == other.generation_at_entry
    }
}

/// The token that entering a span hands out and leaving it takes back.
#[derive(Clone, Copy, Debug)]
pub struct SpanGuard {
    span: Span,
}

impl View for SpanGuard {
    type V = SpanView;

    closed spec fn view(&self) -> SpanView {
        self.span@
    }
}

impl SpanGuard {
    /// The guard of a span.
    pub fn new(span: Span) -> (r: SpanGuard)
        ensures
            r@ == span@,
    {
        SpanGuard { span }
    }

    /// The span that the guard stands for.
    pub fn span(&self) -> (r: Span)
        ensures
            r@ == self@,
    {
        self.span
    }

    /// The identity of the span.
    pub fn id(&self) -> (r: u64)
        ensures
            r == self@.id,
    {
        self.span.id
    }

    /// Whether the span was enabled when it was entered.
    pub fn is_enabled(&self) -> (r: bool)
        ensures
            r == self@.enabled,
    {
        self.span.enabled
    }
}

/// The live spans of one thread, outermost first. Spans are pushed on entry
/// and popped on exit, strictly last in, first out.
#[derive(Debug)]
pub struct ThreadSpanStack {
    spans: Vec<Span>,
}

impl View for ThreadSpanStack {
    type V = Seq<SpanView>;

    closed spec fn view(&self) -> Seq<SpanView> {
        Seq::new(self.spans@.len(), |i: int| self.spans@[i]@)
    }
}

impl ThreadSpanStack {
    /// Each span's parent is the span below it, and no span is enabled
    /// above a disabled one.
    pub open spec fn wf(&self) -> bool {
        stack_wf(self@)
    }

    /// The stack of a thread that has entered no span.
    pub fn new() -> (r: ThreadSpanStack)
        ensures
            r.wf(),
            r@ == Seq::<SpanView>::empty(),
    {
        let r = ThreadSpanStack { spans: Vec::new() };
        assert(r@ =~= Seq::<SpanView>::empty());
        r
    }

    /// The number of live spans.
    pub fn depth(&self) -> (r: usize)
        ensures
            r == self@.len(),
    {
        self.spans.len()
    }

    /// The innermost live span.
    pub fn top(&self) -> (r: Option<Span>)
        ensures
            self@.len() == 0 ==> r is None,
            self@.len() > 0 ==> r is Some && r->0@ == self@.last(),
    {
        let n = self.spans.len();
        if n == 0 {
            None
        } else {
            Some(self.spans[n - 1])
        }
    }

    /// The identity of the innermost live span.
    pub fn innermost_id(&self) -> (r: Option<u64>)
        ensures
            match r {
                None => innermost(self@) is None,
                Some(id) => innermost(self@) == Some(id as nat),
            },
    {
        let n = self.spans.len();
        if n == 0 {
            None
        } else {
            Some(self.spans[n - 1].id)
        }
    }

    /// Whether the innermost live span lets events through. An empty stack
    /// does.
    pub fn gate(&self) -> (r: bool)
        ensures
            r == gate(self@),
    {
        let n = self.spans.len();
        if n == 0 {
            true
        } else {
            self.spans[n - 1].enabled
        }
    }

    /// The identities of the live spans, outermost first.
    pub fn path(&self) -> (r: Vec<u64>)
        ensures
            r@.len() == self@.len(),
            forall|k: int| 0 <= k < r@.len() ==> r@[k] as nat == (#[trigger] self@[k]).id,
    {
        let mut ids: Vec<u64> = Vec::new();
        let mut i: usize = 0;
        while i < self.spans.len()
            invariant
                i <= self.spans.len(),
                ids@.len() == i,
                forall|k: int| 0 <= k < i ==> ids@[k] as nat == (#[trigger] self@[k]).id,
            decreases self.spans.len() - i,
        {
            ids.push(self.spans[i].id);
            i += 1;
        }
        ids
    }

    /// Puts a span on top of the stack.
    pub fn push(&mut self, span: Span)
        requires
            old(self).wf(),
            span@.parent == innermost(old(self)@),
            span@.enabled ==> gate(old(self)@),
        ensures
            final(self).wf(),
            final(self)@ == old(self)@.push(span@),
    {
        let ghost before = self@;
        self.spans.push(span);
        proof {
            let after = self@;
            assert(after =~= before.push(span@));
            assert forall|k: int| 0 <= k < after.len() implies {
                &&& (#[trigger] after[k]).parent == innermost(after.take(k))
                &&& after[k].enabled ==> gate(after.take(k))
            } by {
                if k < before.len() {
                    assert(after.take(k) =~= before.take(k));
                    assert(before[k].parent == innermost(before.take(k)));
                } else {
                    assert(after.take(k) =~= before);
                }
            }
        }
    }

    /// Whether `guard` stands for the innermost live span, so that it may
    /// leave now.
    pub fn can_exit(&self, guard: &SpanGuard) -> (r: bool)
        ensures
            r == (self@.len() > 0 && self@.last() == guard@),
    {
        let n = self.spans.len();
        if n == 0 {
            false
        } else {
            self.spans[n - 1].same_as(&guard.span)
        }
    }

    /// Leaves the innermost live span, which `guard` must stand for, and
    /// hands it back.
    pub fn exit(&mut self, guard: SpanGuard) -> (r: Span)
        requires
            old(self).wf(),
            old(self)@.len() > 0,
            old(self)@.last() == guard@,
        ensures
            final(self).wf(),
            final(self)@ == old(self)@.drop_last(),
            r@ == guard@,
    {
        let ghost before = self@;
        let popped = self.spans.pop();
        proof {
            assert(self@ =~= before.drop_last());
            crate::model::lemma_pop_stack_wf(before);
        }
        match popped {
            Some(span) => span,
            None => guard.span,
        }
    }
}

} // verus!
