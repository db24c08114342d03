//! Log capture and correlation: timestamped events, span-chain
//! reconstruction, and per-entity append-only streams.
//!
//! An event emitted outside any entity context has no stream to live in and
//! is dropped by [`LogRegistry::capture`]; that policy is deliberate.

use vstd::prelude::*;

use crate::assoc::{distinct_keys, has_key, lookup, store};
use crate::text::{contains_str, has_substring};

verus! {

/// One active execution context at emission time: its name and its
/// already-formatted field string.
pub struct Span {
    pub name: String,
    pub fields: String,
}

/// One captured log event. Immutable once recorded. `module` is the owning
/// entity's path; events without one never reach a stream.
pub struct Event {
    pub time: u64,
    pub level: String,
    pub target: String,
    pub module: Option<String>,
    pub span: String,
    pub fields: String,
}

/// Append-only stream of the events one entity emitted, in capture order.
pub struct ModuleLog {
    pub events: Vec<Event>,
}

/// All per-entity streams, keyed by entity path.
pub struct LogRegistry {
    pub streams: Vec<(String, ModuleLog)>,
}

/// Whether an event matches a query: a case-sensitive substring test against
/// its formatted fields, its span chain, or its entity path.
pub open spec fn event_matches(e: Event, q: Seq<char>) -> bool {
    ||| has_substring(e.fields@, q)
    ||| has_substring(e.span@, q)
    ||| (e.module matches Some(m) && has_substring(m@, q))
}

/// The events of `es` that match `q`, in order.
pub open spec fn filter_matching(es: Seq<Event>, q: Seq<char>) -> Seq<Event>
    decreases es.len(),
{
    if es.len() == 0 {
        Seq::empty()
    } else {
        let rest = filter_matching(es.drop_last(), q);
        if event_matches(es.last(), q) {
            rest.push(es.last())
        } else {
            rest
        }
    }
}

/// The rendering of one span: its name, plus its fields in braces when it
/// has any.
pub open spec fn span_part(name: Seq<char>, fields: Seq<char>) -> Seq<char> {
    if fields.len() == 0 {
        name
    } else {
        name + seq!['{'] + fields + seq!['}']
    }
}

/// The model of a span list.
pub open spec fn spans_of(spans: Seq<Span>) -> Seq<(Seq<char>, Seq<char>)>
    decreases spans.len(),
{
    if spans.len() == 0 {
        Seq::empty()
    } else {
        spans_of(spans.drop_last()).push((spans.last().name@, spans.last().fields@))
    }
}

/// The span chain: each active span rendered root-first, separated by `:`.
pub open spec fn spec_span_chain(spans: Seq<(Seq<char>, Seq<char>)>) -> Seq<char>
    decreases spans.len(),
{
    if spans.len() == 0 {
        Seq::empty()
    } else if spans.len() == 1 {
        span_part(spans[0].0, spans[0].1)
    } else {
        spec_span_chain(spans.drop_last()) + seq![':'] + span_part(
            spans.last().0,
            spans.last().1,
        )
    }
}

/// `spans_of` keeps the length.
pub broadcast proof fn lemma_spans_of_len(spans: Seq<Span>)
    ensures
        (#[trigger] spans_of(spans)).len() == spans.len(),
    decreases spans.len(),
{
    if spans.len() > 0 {
        lemma_spans_of_len(spans.drop_last());
    }
}

/// `spans_of` maps element-wise.
pub broadcast proof fn lemma_spans_of_index(spans: Seq<Span>, i: int)
    requires
        0 <= i < spans.len(),
    ensures
        (#[trigger] spans_of(spans)[i]) == (spans[i].name@, spans[i].fields@),
    decreases spans.len(),
{
    lemma_spans_of_len(spans.drop_last());
    if i < spans.len() - 1 {
        lemma_spans_of_index(spans.drop_last(), i);
    }
}

/// The model of the stream list.
pub open spec fn logs_of(streams: Seq<(String, ModuleLog)>) -> Seq<(Seq<char>, Seq<Event>)>
    decreases streams.len(),
{
    if streams.len() == 0 {
        Seq::empty()
    } else {
        seq![(streams[0].0@, streams[0].1.events@)] + logs_of(streams.drop_first())
    }
}

/// `logs_of` keeps the length.
pub broadcast proof fn lemma_logs_of_len(streams: Seq<(String, ModuleLog)>)
    ensures
        (#[trigger] logs_of(streams)).len() == streams.len(),
    decreases streams.len(),
{
    if streams.len() > 0 {
        lemma_logs_of_len(streams.drop_first());
    }
}

/// `logs_of` maps entry-wise.
pub broadcast proof fn lemma_logs_of_index(streams: Seq<(String, ModuleLog)>, i: int)
    requires
        0 <= i < streams.len(),
    ensures
        (#[trigger] logs_of(streams)[i]) == (streams[i].0@, streams[i].1.events@),
    decreases streams.len(),
{
    lemma_logs_of_len(streams.drop_first());
    if i > 0 {
        lemma_logs_of_index(streams.drop_first(), i - 1);
    }
}

/// The stream recorded for `m`, or the empty stream.
pub open spec fn stream_of(reg: Seq<(Seq<char>, Seq<Event>)>, m: Seq<char>) -> Seq<Event> {
    match lookup(reg, m) {
        Some(s) => s,
        None => Seq::empty(),
    }
}

impl Event {
    /// Whether this event matches `query` in any of its searchable parts.
    pub fn matches(&self, query: &str) -> (r: bool)
        ensures
            r == event_matches(*self, query@),
    {
        let in_fields = contains_str(self.fields.as_str(), query);
        let in_span = contains_str(self.span.as_str(), query);
        let in_module = match &self.module {
            Some(m) => contains_str(m.as_str(), query),
            None => false,
        };
        in_fields || in_span || in_module
    }

    /// A copy of this event.
    pub fn duplicate(&self) -> (r: Event)
        ensures
            r == *self,
    {
        Event {
            time: self.time,
            level: self.level.clone(),
            target: self.target.clone(),
            module: match &self.module {
                Some(m) => Some(m.clone()),
                None => None,
            },
            span: self.span.clone(),
            fields: self.fields.clone(),
        }
    }
}

/// Render the active span stack, root first: each span's name, its fields in
/// braces when non-empty, spans separated by `:`.
pub fn span_chain(spans: &Vec<Span>) -> (r: String)
    ensures
        r@ == spec_span_chain(spans_of(spans@)),
{
    let mut out = String::new();
    let n = spans.len();
    proof {
        assert(spans@.take(0) =~= Seq::<Span>::empty());
    }
    let mut i: usize = 0;
    while i < n
        invariant
            i <= n,
            n == spans@.len(),
            out@ == spec_span_chain(spans_of(spans@.take(i as int))),
        decreases n - i,
    {
        proof {
            reveal_strlit(":");
            reveal_strlit("{");
            reveal_strlit("}");
            assert((":")@ =~= seq![':']);
            assert(("{")@ =~= seq!['{']);
            assert(("}")@ =~= seq!['}']);
        }
        if i > 0 {
            out.append(":");
        }
        out.append(spans[i].name.as_str());
        if !spans[i].fields.as_str().is_empty() {
            out.append("{");
            out.append(spans[i].fields.as_str());
            out.append("}");
        }
        proof {
            let t1 = spans@.take(i + 1);
            assert(t1.drop_last() =~= spans@.take(i as int));
            assert(t1.last() == spans@[i as int]);
            lemma_spans_of_len(t1.drop_last());
            assert(spans_of(t1).drop_last() =~= spans_of(spans@.take(i as int)));
            assert(spans_of(t1).last() == (spans@[i as int].name@, spans@[i as int].fields@));
            if i == 0 {
                assert(spans_of(t1).len() == 1);
            } else {
                assert(spans_of(t1).len() == i + 1);
            }
        }
        i = i + 1;
    }
    proof {
        assert(spans@.take(n as int) =~= spans@);
    }
    out
}

impl ModuleLog {
    /// An empty stream.
    pub fn new() -> (r: ModuleLog)
        ensures
            r.events@ == Seq::<Event>::empty(),
    {
        ModuleLog { events: Vec::new() }
    }

    /// Append one event. Earlier events keep their positions: the stream
    /// grows at the end and is never reordered.
    pub fn append(&mut self, e: Event)
        ensures
            final(self).events@ == old(self).events@.push(e),
    {
        self.events.push(e);
    }

    /// All events, in append order.
    pub fn output(&self) -> (r: &Vec<Event>)
        ensures
            r@ == self.events@,
    {
        &self.events
    }

    /// The events matching `query`, in append order.
    pub fn filtered(&self, query: &str) -> (r: Vec<Event>)
        ensures
            r@ == filter_matching(self.events@, query@),
    {
        let mut out: Vec<Event> = Vec::new();
        let n = self.events.len();
        proof {
            assert(self.events@.take(0) =~= Seq::<Event>::empty());
        }
        let mut i: usize = 0;
        while i < n
            invariant
                i <= n,
                n == self.events@.len(),
                out@ == filter_matching(self.events@.take(i as int), query@),
            decreases n - i,
        {
            proof {
                let t1 = self.events@.take(i + 1);
                assert(t1.drop_last() =~= self.events@.take(i as int));
                assert(t1.last() == self.events@[i as int]);
            }
            if self.events[i].matches(query) {
                let copy = self.events[i].duplicate();
                out.push(copy);
            }
            i = i + 1;
        }
        proof {
            assert(self.events@.take(n as int) =~= self.events@);
        }
        out
    }
}

impl LogRegistry {
    /// A registry with no streams.
    pub fn new() -> (r: LogRegistry)
        ensures
            r@ == Seq::<(Seq<char>, Seq<Event>)>::empty(),
    {
        let r = LogRegistry { streams: Vec::new() };
        proof {
            assert(r@ =~= Seq::<(Seq<char>, Seq<Event>)>::empty());
        }
        r
    }

    /// The stream of the entity at `module`, if any event of it was captured.
    pub fn stream<'a>(&'a self, module: &str) -> (r: Option<&'a ModuleLog>)
        ensures
            match r {
                Some(log) => lookup(self@, module@) == Some(log.events@),
                None => lookup(self@, module@) is None,
            },
    {
        proof {
            lemma_logs_of_len(self.streams@);
        }
        let n = self.streams.len();
        let mut i: usize = 0;
        while i < n
            invariant
                i <= n,
                n == self.streams@.len(),
                self@.len() == n,
                forall|j: int| 0 <= j < i ==> (#[trigger] self@[j]).0 != module@,
            decreases n - i,
        {
            proof {
                lemma_logs_of_index(self.streams@, i as int);
            }
            if crate::text::str_eq(self.streams[i].0.as_str(), module) {
                proof {
                    crate::assoc::lemma_lookup_at(self@, module@, i as int);
                }
                return Some(&self.streams[i].1);
            }
            i = i + 1;
        }
        proof {
            crate::assoc::lemma_lookup_none(self@, module@);
        }
        None
    }

    /// Append `event` to the stream of `module`, creating the stream on
    /// first use. Existing events everywhere keep their positions.
    pub fn append_event(&mut self, module: &str, event: Event)
        requires
            distinct_keys(old(self)@),
        ensures
            final(self)@ == store(
                old(self)@,
                module@,
                stream_of(old(self)@, module@).push(event),
            ),
            distinct_keys(final(self)@),
    {
        proof {
            lemma_logs_of_len(self.streams@);
            crate::assoc::lemma_store(old(self)@, module@, stream_of(old(self)@, module@).push(event));
        }
        let n = self.streams.len();
        let mut i: usize = 0;
        while i < n
            invariant
                i <= n,
                distinct_keys(old(self)@),
                self.streams@ == old(self).streams@,
                n == self.streams@.len(),
                self@.len() == n,
                forall|j: int| 0 <= j < i ==> (#[trigger] self@[j]).0 != module@,
            decreases n - i,
        {
            proof {
                lemma_logs_of_index(self.streams@, i as int);
            }
            if crate::text::str_eq(self.streams[i].0.as_str(), module) {
                proof {
                    assert(self@[i as int].0 == module@);
                    assert(has_key(self@, module@));
                    crate::assoc::lemma_lookup_at(self@, module@, i as int);
                }
                let mut entry = self.streams.remove(i);
                entry.1.events.push(event);
                let ghost gentry = entry;
                self.streams.insert(i, entry);
                proof {
                    assert(self.streams@ =~= old(self).streams@.update(i as int, gentry));
                    lemma_logs_of_update(old(self).streams@, i as int, gentry);
                    assert(gentry.0@ == module@);
                    assert(gentry.1.events@ == stream_of(old(self)@, module@).push(event));
                    crate::assoc::lemma_store(
                        old(self)@,
                        module@,
                        stream_of(old(self)@, module@).push(event),
                    );
                    assert(self@ =~= store(
                        old(self)@,
                        module@,
                        stream_of(old(self)@, module@).push(event),
                    ));
                }
                return ;
            }
            i = i + 1;
        }
        proof {
            if has_key(self@, module@) {
                let j = choose|j: int| 0 <= j < self@.len() && self@[j].0 == module@;
                assert(self@[j].0 != module@);
            }
            crate::assoc::lemma_lookup_none(self@, module@);
        }
        let key = String::from_str(module);
        let mut log = ModuleLog::new();
        log.events.push(event);
        let ghost gentry = (key, log);
        self.streams.push((key, log));
        proof {
            lemma_logs_of_push(old(self).streams@, gentry);
            assert(stream_of(old(self)@, module@) =~= Seq::<Event>::empty());
            assert(gentry.1.events@ =~= stream_of(old(self)@, module@).push(event));
            assert(self@ =~= store(
                old(self)@,
                module@,
                stream_of(old(self)@, module@).push(event),
            ));
        }
    }

    /// Record one event under its owning entity. An event with no owner has
    /// no stream to join and is dropped.
    pub fn capture(&mut self, event: Event) -> (recorded: bool)
        requires
            distinct_keys(old(self)@),
        ensures
            recorded == (event.module is Some),
            event.module is None ==> final(self)@ == old(self)@,
            event.module matches Some(m) ==> final(self)@ == store(
                old(self)@,
                m@,
                stream_of(old(self)@, m@).push(event),
            ),
            distinct_keys(final(self)@),
    {
        let key: Option<String> = match &event.module {
            Some(m) => Some(m.clone()),
            None => None,
        };
        match key {
            Some(k) => {
                self.append_event(k.as_str(), event);
                true
            },
            None => false,
        }
    }
}

/// Appending a stream entry appends its model.
pub proof fn lemma_logs_of_push(streams: Seq<(String, ModuleLog)>, e: (String, ModuleLog))
    ensures
        logs_of(streams.push(e)) =~= logs_of(streams).push((e.0@, e.1.events@)),
{
    let l = streams.push(e);
    lemma_logs_of_len(streams);
    lemma_logs_of_len(l);
    assert forall|i: int| 0 <= i < l.len() implies logs_of(l)[i] == logs_of(streams).push(
        (e.0@, e.1.events@),
    )[i] by {
        lemma_logs_of_index(l, i);
        if i < streams.len() {
            lemma_logs_of_index(streams, i);
        }
    }
}

/// Updating a stream entry updates its model.
pub proof fn lemma_logs_of_update(streams: Seq<(String, ModuleLog)>, d: int, e: (String, ModuleLog))
    requires
        0 <= d < streams.len(),
    ensures
        logs_of(streams.update(d, e)) =~= logs_of(streams).update(d, (e.0@, e.1.events@)),
{
    let l = streams.update(d, e);
    lemma_logs_of_len(streams);
    lemma_logs_of_len(l);
    assert forall|i: int| 0 <= i < l.len() implies logs_of(l)[i] == logs_of(streams).update(
        d,
        (e.0@, e.1.events@),
    )[i] by {
        lemma_logs_of_index(l, i);
        if i != d {
            lemma_logs_of_index(streams, i);
        }
    }
}

impl View for LogRegistry {
    type V = Seq<(Seq<char>, Seq<Event>)>;

    open spec fn view(&self) -> Seq<(Seq<char>, Seq<Event>)> {
        logs_of(self.streams@)
    }
}

/// What the captured event carries: the emission's own data, its owner, and
/// the reconstructed span chain.
pub open spec fn recorded_event(
    e: Event,
    time: u64,
    level: Seq<char>,
    target: Seq<char>,
    m: Seq<char>,
    span: Seq<char>,
    fields: Seq<char>,
) -> bool {
    &&& e.time == time
    &&& e.level@ == level
    &&& e.target@ == target
    &&& e.module matches Some(mm) && mm@ == m
    &&& e.span@ == span
    &&& e.fields@ == fields
}

/// Capture one structured log emission: reconstruct the span chain, build
/// the event, and append it to the owning entity's stream. An emission with
/// no owning entity is dropped.
pub fn capture_event(
    registry: &mut LogRegistry,
    time: u64,
    level: String,
    target: String,
    module: Option<String>,
    spans: &Vec<Span>,
    fields: String,
) -> (recorded: bool)
    requires
        distinct_keys(old(registry)@),
    ensures
        recorded == (module is Some),
        module is None ==> final(registry)@ == old(registry)@,
        distinct_keys(final(registry)@),
        module matches Some(m) ==> {
            let prev = stream_of(old(registry)@, m@);
            let cur = stream_of(final(registry)@, m@);
            &&& has_key(final(registry)@, m@)
            &&& cur.len() == prev.len() + 1
            &&& cur.take(prev.len() as int) == prev
            &&& recorded_event(
                cur.last(),
                time,
                level@,
                target@,
                m@,
                spec_span_chain(spans_of(spans@)),
                fields@,
            )
            &&& forall|k2: Seq<char>| k2 != m@ ==> lookup(final(registry)@, k2) == lookup(
                old(registry)@,
                k2,
            )
        },
{
    let chain = span_chain(spans);
    let event = Event { time, level, target, module, span: chain, fields };
    let recorded = registry.capture(event);
    proof {
        if event.module is Some {
            let m = event.module->0;
            let prev = stream_of(old(registry)@, m@);
            crate::assoc::lemma_store(old(registry)@, m@, prev.push(event));
            crate::assoc::lemma_lookup_has_key(final(registry)@, m@);
            assert(stream_of(final(registry)@, m@) == prev.push(event));
            assert(prev.push(event).take(prev.len() as int) =~= prev);
        }
    }
    recorded
}

} // verus!
