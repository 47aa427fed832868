//! Events as they are handed to a sink.

use vstd::prelude::*;
use crate::callsite::CallSiteId;
use crate::level::Level;
use crate::model::{innermost, SpanView};

verus! {

/// One named value of an event.
#[derive(Debug)]
pub struct Field {
    pub name: String,
    pub value: String,
}

/// The mathematical content of a field.
pub struct FieldView {
    pub name: Seq<char>,
    pub value: Seq<char>,
}

impl View for Field {
    type V = FieldView;

    open spec fn view(&self) -> FieldView {
        FieldView { name: self.name@, value: self.value@ }
    }
}

/// The contents of a list of fields.
pub open spec fn fields_view(fields: Seq<Field>) -> Seq<FieldView> {
    Seq::new(fields.len(), |k: int| fields[k]@)
}

/// An accepted event, ready for the sink. It names the innermost live span
/// of the emitting thread, and the whole path of live spans, outermost
/// first.
#[derive(Debug)]
pub struct Event {
    pub call_site: CallSiteId,
    pub level: Level,
    pub fields: Vec<Field>,
    pub innermost_span: Option<u64>,
    pub span_path: Vec<u64>,
}

/// The mathematical content of an event.
pub struct EventView {
    pub call_site: int,
    pub level: Level,
    pub fields: Seq<FieldView>,
    pub innermost_span: Option<nat>,
    pub span_path: Seq<nat>,
}

impl View for Event {
    type V = EventView;

    open spec fn view(&self) -> EventView {
        EventView {
            call_site: self.call_site@,
            level: self.level,
            fields: fields_view(self.fields@),
            innermost_span: match self.innermost_span {
                None => None,
                Some(id) => Some(id as nat),
            },
            span_path: Seq::new(self.span_path@.len(), |k: int| self.span_path@[k] as nat),
        }
    }
}

/// The event that a thread with this stack emits at a call site.
pub open spec fn event_on(
    stack: Seq<SpanView>,
    call_site: int,
    level: Level,
    fields: Seq<FieldView>,
) -> EventView {
    EventView {
        call_site,
        level,
        fields,
        innermost_span: innermost(stack),
        span_path: Seq::new(stack.len(), |k: int| stack[k].id),
    }
}

} // verus!
