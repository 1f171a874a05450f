//! Events on the error stream, and the context that operators raise them in.
use vstd::prelude::*;
use crate::chunk::opt_text;
use crate::text::owned;

verus! {

/// How grave an event is, in ascending order. Only a fatal one stops a run.
#[derive(Clone, Copy, Debug, PartialEq, Eq, Structural)]
pub enum Severity {
    Info,
    Warn,
    Recoverable,
    Critical,
    Fatal,
}

impl Severity {
    /// The place in the order.
    pub open spec fn level(self) -> int {
        match self {
            Severity::Info => 0,
            Severity::Warn => 1,
            Severity::Recoverable => 2,
            Severity::Critical => 3,
            Severity::Fatal => 4,
        }
    }

    /// The place in the order.
    pub fn rank(self) -> (r: u8)
        ensures
            r == self.level(),
    {
        match self {
            Severity::Info => 0,
            Severity::Warn => 1,
            Severity::Recoverable => 2,
            Severity::Critical => 3,
            Severity::Fatal => 4,
        }
    }
}

/// What an event is about.
#[derive(Clone, Copy, Debug, PartialEq, Eq, Structural)]
pub enum ErrorScope {
    Item,
    Chunk,
    Branch,
    Graph,
}

/// An event on the error stream.
#[derive(Debug)]
pub struct ErrorEvent {
    pub severity: Severity,
    pub scope: ErrorScope,
    pub message: String,
    pub node: Option<String>,
    pub chunk: Option<u64>,
}

/// What an [`ErrorEvent`] is.
pub struct EventV {
    pub severity: Severity,
    pub scope: ErrorScope,
    pub message: Seq<char>,
    pub node: Option<Seq<char>>,
    pub chunk: Option<u64>,
}

impl ErrorEvent {
    /// The event.
    pub open spec fn view(&self) -> EventV {
        EventV {
            severity: self.severity,
            scope: self.scope,
            message: self.message@,
            node: opt_text(self.node),
            chunk: self.chunk,
        }
    }

    /// An event of no node and no chunk.
    pub fn new(severity: Severity, scope: ErrorScope, message: String) -> (r: ErrorEvent)
        ensures
            r@ == (EventV { severity, scope, message: message@, node: None, chunk: None }),
    {
        ErrorEvent { severity, scope, message, node: None, chunk: None }
    }

    /// The event, raised at a node.
    pub fn at_node(self, label: String) -> (r: ErrorEvent)
        ensures
            r@ == (EventV { node: Some(label@), ..self@ }),
    {
        ErrorEvent {
            severity: self.severity,
            scope: self.scope,
            message: self.message,
            node: Some(label),
            chunk: self.chunk,
        }
    }

    /// The event, raised on a chunk.
    pub fn at_chunk(self, id: u64) -> (r: ErrorEvent)
        ensures
            r@ == (EventV { chunk: Some(id), ..self@ }),
    {
        ErrorEvent {
            severity: self.severity,
            scope: self.scope,
            message: self.message,
            node: self.node,
            chunk: Some(id),
        }
    }

    /// Does the event stop the run?
    pub fn is_fatal(&self) -> (r: bool)
        ensures
            r == (self@.severity is Fatal),
    {
        matches!(self.severity, Severity::Fatal)
    }

    /// A copy of the event.
    pub fn dup(&self) -> (r: ErrorEvent)
        ensures
            r@ == self@,
    {
        ErrorEvent {
            severity: self.severity,
            scope: self.scope,
            message: self.message.clone(),
            node: crate::chunk::dup_opt_text(&self.node),
            chunk: self.chunk,
        }
    }
}

/// The views of a list of events.
pub open spec fn events(s: Seq<ErrorEvent>) -> Seq<EventV> {
    Seq::new(s.len(), |i: int| s[i]@)
}

/// Is there a fatal event among them?
pub open spec fn any_fatal(s: Seq<EventV>) -> bool {
    exists|i: int| 0 <= i < s.len() && (#[trigger] s[i]).severity is Fatal
}

/// Is there a fatal event from `from` on?
pub fn has_fatal(v: &Vec<ErrorEvent>, from: usize) -> (r: bool)
    requires
        from <= v@.len(),
    ensures
        r == any_fatal(events(v@).skip(from as int)),
{
    let ghost s = events(v@).skip(from as int);
    for i in from..v.len()
        invariant
            from <= v@.len(),
            s == events(v@).skip(from as int),
            forall|k: int| 0 <= k < i - from ==> !((#[trigger] s[k]).severity is Fatal),
    {
        assert(s[i - from] == v@[i as int]@);
        if v[i].is_fatal() {
            return true;
        }
    }
    false
}

/// A message of three parts.
pub fn message3(a: &str, b: &str, c: &str) -> (r: String)
    ensures
        r@ == a@ + b@ + c@,
{
    let mut r: String = owned(a);
    r.push_str(b);
    r.push_str(c);
    r
}

/// What an operator is called with: its label, the error stream, and the number
/// of the next chunk.
#[derive(Debug)]
pub struct OpCtx {
    pub label: String,
    pub errors: Vec<ErrorEvent>,
    pub next_chunk_id: u64,
}

/// What an [`OpCtx`] is.
#[verifier::ext_equal]
pub struct CtxV {
    pub label: Seq<char>,
    pub errors: Seq<EventV>,
    pub next_chunk_id: u64,
}

impl CtxV {
    /// The context with an event raised.
    pub open spec fn raised(self, e: EventV) -> CtxV {
        CtxV { errors: self.errors.push(e), ..self }
    }

    /// The context with a chunk number used.
    pub open spec fn advanced(self) -> CtxV {
        CtxV { next_chunk_id: self.next_chunk_id.wrapping_add(1), ..self }
    }

    /// An event at this context's node.
    pub open spec fn event(self, severity: Severity, scope: ErrorScope, message: Seq<char>) -> EventV {
        EventV { severity, scope, message, node: Some(self.label), chunk: None }
    }
}

impl OpCtx {
    /// The context.
    pub open spec fn view(&self) -> CtxV {
        CtxV {
            label: self.label@,
            errors: events(self.errors@),
            next_chunk_id: self.next_chunk_id,
        }
    }

    /// A context with an empty error stream.
    pub fn new(label: String, next_chunk_id: u64) -> (r: OpCtx)
        ensures
            r@ == (CtxV { label: label@, errors: Seq::empty(), next_chunk_id }),
    {
        let r = OpCtx { label, errors: Vec::new(), next_chunk_id };
        assert(r@.errors =~= Seq::empty());
        r
    }

    /// The number of a new chunk.
    pub fn fresh_id(&mut self) -> (r: u64)
        ensures
            r == old(self)@.next_chunk_id,
            final(self)@ == old(self)@.advanced(),
    {
        let id: u64 = self.next_chunk_id;
        self.next_chunk_id = id.wrapping_add(1);
        id
    }

    /// Puts an event on the error stream.
    pub fn raise(&mut self, e: ErrorEvent)
        ensures
            final(self)@ == old(self)@.raised(e@),
    {
        let ghost before = events(self.errors@);
        self.errors.push(e);
        assert(events(self.errors@) =~= before.push(e@));
    }

    /// Raises a warning about a chunk of this node.
    pub fn warn(&mut self, message: String)
        ensures
            final(self)@ == old(self)@.raised(
                old(self)@.event(Severity::Warn, ErrorScope::Chunk, message@),
            ),
    {
        let e = ErrorEvent::new(Severity::Warn, ErrorScope::Chunk, message).at_node(
            self.label.clone(),
        );
        self.raise(e);
    }

    /// Raises a warning about the chunk with that number.
    pub fn warn_at(&mut self, message: String, id: u64)
        ensures
            final(self)@ == old(self)@.raised(
                (EventV {
                    chunk: Some(id),
                    ..old(self)@.event(Severity::Warn, ErrorScope::Chunk, message@)
                }),
            ),
    {
        let e = ErrorEvent::new(Severity::Warn, ErrorScope::Chunk, message).at_node(
            self.label.clone(),
        ).at_chunk(id);
        self.raise(e);
    }
}

} // verus!
