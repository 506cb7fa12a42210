//! The driver: named inputs bound to source rules, kept in step with the
//! host's changing set of sources, and the per-cycle delivery of decoded
//! messages.

use std::collections::HashMap;
use std::sync::Arc;
use vstd::prelude::*;
use vstd::std_specs::cmp::PartialEqSpec;

use crate::decoder::{is_packet, pending_after, protocol1_message, DecoderProtocol, DecoderProtocol1};
use crate::endpoints::{
    has_source_id, name_le, ConnectedSource, DestinationInfo, Endpoints, SourceId, SourceInfo,
};
use crate::event::{Event, EventSink};
use crate::filter::{first_match, str_eq, Filter, SourceMatch, SourceMatches};
use crate::publish::{published_map, FilterTable};

verus! {

broadcast use vstd::std_specs::hash::group_hash_axioms;

/// What can go wrong in the driver's own operations.
#[derive(Debug)]
pub enum JackMidiError {
    /// The host would not open a client session.
    ClientCreate,
    /// The host would not register the input's port.
    PortCreate,
    /// An input of this name exists already.
    InputAlreadyExists(InputConfig),
    /// No input has this name.
    InputNotFound(String),
}

/// The error of a driver, whichever host it runs on.
#[derive(Debug)]
pub enum Error {
    JackMidi(JackMidiError),
}

/// The name of an input and the rules that choose its sources.
#[derive(Debug, Clone)]
pub struct InputConfig {
    pub name: String,
    pub sources: SourceMatches,
}

impl InputConfig {
    /// A configuration with no rules yet.
    pub fn new(name: &str) -> (r: InputConfig)
        ensures
            r.name@ == name@,
            r.sources.rules() == Seq::<(SourceMatch, Filter)>::empty(),
    {
        InputConfig { name: name.to_owned(), sources: SourceMatches::new() }
    }

    /// The same configuration with one more rule after the others.
    pub fn with_source(self, source: SourceMatch, filter: Filter) -> (r: InputConfig)
        ensures
            r.name == self.name,
            r.sources.rules() == self.sources.rules().push((source, filter)),
    {
        InputConfig { name: self.name, sources: self.sources.with_source(source, filter) }
    }
}

/// A listing entry for an input.
#[derive(Debug, Clone)]
pub struct InputInfo {
    pub name: String,
    pub sources: SourceMatches,
    pub connected_sources: Vec<SourceId>,
}

/// What the driver needs from the host: ports for its inputs, and
/// connecting or disconnecting a source's port to one of them. Each call may
/// fail; the driver goes on without it.
pub trait Backend {
    /// The host's handle of a source.
    type Source: PartialEq;

    /// The host's handle of an input's own port.
    type Port;

    fn register_input_port(&mut self, name: &str) -> Option<Self::Port>;

    fn connect(&mut self, source: &Self::Source, port: &Self::Port) -> bool;

    fn disconnect(&mut self, source: &Self::Source, port: &Self::Port) -> bool;
}

/// The filter map an input's rules give over the connected sources: each
/// source that some rule takes, with the filter of the first such rule.
pub open spec fn matched_filters<S>(
    rules: Seq<(SourceMatch, Filter)>,
    sources: Seq<ConnectedSource<S>>,
) -> Map<SourceId, Filter>
    decreases sources.len(),
{
    if sources.len() == 0 {
        Map::empty()
    } else {
        let rest = matched_filters(rules, sources.drop_last());
        let s = sources.last();
        match first_match(rules, s.id, s.name@) {
            Some(f) => rest.insert(s.id, f),
            None => rest,
        }
    }
}

/// A source wired to an input, with the decoder of its words.
#[derive(Debug)]
struct Connection {
    source: SourceId,
    decoder: DecoderProtocol1,
}

/// The sources of a list of connections.
spec fn connection_ids(v: Seq<Connection>) -> Set<SourceId> {
    Set::new(|id: SourceId| exists|i: int| 0 <= i < v.len() && (#[trigger] v[i]).source == id)
}

spec fn connections_wf(v: Seq<Connection>) -> bool {
    &&& forall|i: int, j: int|
        0 <= i < j < v.len() ==> (#[trigger] v[i]).source != (#[trigger] v[j]).source
    &&& forall|i: int| 0 <= i < v.len() ==> (#[trigger] v[i]).decoder.wf()
}

/// Takes the connection of this source out of the list.
fn take_connection(v: &mut Vec<Connection>, id: SourceId) -> (r: Option<Connection>)
    requires
        connections_wf(old(v)@),
    ensures
        connections_wf(final(v)@),
        r is Some <==> connection_ids(old(v)@).contains(id),
        r is Some ==> r->Some_0.source == id && r->Some_0.decoder.wf(),
        connection_ids(final(v)@) == connection_ids(old(v)@).remove(id),
{
    let ghost before = v@;
    let mut i: usize = 0;
    while i < v.len()
        invariant
            v@ == before,
            before == old(v)@,
            connections_wf(before),
            i <= before.len(),
            forall|k: int| 0 <= k < i ==> (#[trigger] before[k]).source != id,
        decreases before.len() - i,
    {
        if v[i].source == id {
            let c = v.remove(i);
            let ghost after = v@;
            assert(after == before.remove(i as int));
            assert forall|a: int, b: int| 0 <= a < b < after.len() implies (#[trigger] after[a]).source
                != (#[trigger] after[b]).source by {
                let a0 = if a < i { a } else { a + 1 };
                let b0 = if b < i { b } else { b + 1 };
                assert(after[a] == before[a0] && after[b] == before[b0]);
            }
            assert forall|a: int| 0 <= a < after.len() implies (#[trigger] after[a]).decoder.wf() by {
                let a0 = if a < i { a } else { a + 1 };
                assert(after[a] == before[a0]);
            }
            assert(connection_ids(after) =~= connection_ids(before).remove(id)) by {
                assert forall|x: SourceId| connection_ids(before).remove(id).contains(x) implies connection_ids(after).contains(x) by {
                    let k = choose|k: int| 0 <= k < before.len() && (#[trigger] before[k]).source == x;
                    assert(k != i);
                    if k < i {
                        assert(after[k] == before[k]);
                    } else {
                        assert(after[k - 1] == before[k]);
                    }
                }
                assert forall|x: SourceId| connection_ids(after).contains(x) implies connection_ids(before).remove(id).contains(x) by {
                    let k = choose|k: int| 0 <= k < after.len() && (#[trigger] after[k]).source == x;
                    let k0 = if k < i { k } else { k + 1 };
                    assert(after[k] == before[k0]);
                }
            }
            assert(before[i as int].source == id);
            assert(connection_ids(before).contains(id));
            return Some(c);
        }
        i = i + 1;
    }
    assert(connection_ids(before).remove(id) =~= connection_ids(before));
    None
}

/// A call the driver made on the host, with the host's answer where the
/// driver acts on it.
pub enum HostCall {
    /// Registering an input's port; whether the host gave one.
    RegisterPort(bool),
    /// Wiring a source to an input's port; whether the host wired it.
    Connect(SourceId, bool),
    /// Unwiring a source from an input's port.
    Disconnect(SourceId),
}

/// The ids of the connected sources, in registry order, that the rules take
/// and that are in `connected`: the connections that stay.
pub open spec fn still_wired<S>(
    rules: Seq<(SourceMatch, Filter)>,
    sources: Seq<ConnectedSource<S>>,
    connected: Seq<SourceId>,
) -> Seq<SourceId>
    decreases sources.len(),
{
    if sources.len() == 0 {
        Seq::empty()
    } else {
        let rest = still_wired(rules, sources.drop_last(), connected);
        let s = sources.last();
        if first_match(rules, s.id, s.name@) is Some && connected.contains(s.id) {
            rest.push(s.id)
        } else {
            rest
        }
    }
}

/// The sources that connect calls wired, in order.
pub open spec fn wired(calls: Seq<HostCall>) -> Seq<SourceId>
    decreases calls.len(),
{
    if calls.len() == 0 {
        Seq::empty()
    } else {
        let rest = wired(calls.drop_last());
        match calls.last() {
            HostCall::Connect(id, true) => rest.push(id),
            _ => rest,
        }
    }
}

/// The calls made after those of `before`, where `after` extends it.
pub open spec fn calls_since(before: Seq<HostCall>, after: Seq<HostCall>) -> Seq<HostCall> {
    after.subrange(before.len() as int, after.len() as int)
}

/// Whether `after` is `before` followed by more calls.
pub open spec fn extends(before: Seq<HostCall>, after: Seq<HostCall>) -> bool {
    before.len() <= after.len() && after.subrange(0, before.len() as int) == before
}

/// The sources of the disconnect calls among `calls`.
pub open spec fn disconnect_ids(calls: Seq<HostCall>) -> Set<SourceId> {
    Set::new(|id: SourceId| exists|m: int| 0 <= m < calls.len() && (#[trigger] calls[m])->Disconnect_0 == id)
}

/// How replacing an input's rules went with the host, given the calls made
/// meanwhile: the sources to wire were handed to the host in order and those
/// it wired joined the connections that stay; then each connection the new
/// rules no longer take, whose source is still registered, was unwired,
/// once.
pub open spec fn rewired<P, H, S>(
    before: Input<P, H>,
    after: Input<P, H>,
    rules: Seq<(SourceMatch, Filter)>,
    sources: Seq<ConnectedSource<S>>,
    calls: Seq<HostCall>,
) -> bool {
    let wire = to_wire(rules, sources, before.connected_ids());
    let connects = calls.subrange(0, wire.len() as int);
    let disconnects = calls.subrange(wire.len() as int, calls.len() as int);
    &&& wire.len() <= calls.len()
    &&& connects_to(connects, wire)
    &&& after.connected_ids() == still_wired(rules, sources, before.connected_ids()) + wired(connects)
    &&& forall|m: int| 0 <= m < disconnects.len() ==> (#[trigger] disconnects[m]) is Disconnect
    &&& forall|a: int, b: int|
        0 <= a < b < disconnects.len() ==> (#[trigger] disconnects[a])->Disconnect_0
            != (#[trigger] disconnects[b])->Disconnect_0
    &&& disconnect_ids(disconnects) == Set::new(
        |id: SourceId|
            before.connected_ids().contains(id) && !after.filter_map().contains_key(id) && has_source_id(sources, id),
    )
}

/// Whether `calls` are connect calls for `ids`, one each, in order.
pub open spec fn connects_to(calls: Seq<HostCall>, ids: Seq<SourceId>) -> bool {
    &&& calls.len() == ids.len()
    &&& forall|k: int| 0 <= k < calls.len() ==> (#[trigger] calls[k]) is Connect && calls[k]->Connect_0 == ids[k]
}

proof fn lemma_still_wired_none<S>(rules: Seq<(SourceMatch, Filter)>, sources: Seq<ConnectedSource<S>>)
    ensures
        still_wired(rules, sources, Seq::<SourceId>::empty()) == Seq::<SourceId>::empty(),
    decreases sources.len(),
{
    if sources.len() > 0 {
        lemma_still_wired_none(rules, sources.drop_last());
    }
}

/// The sources to wire: the ids of the connected sources, in registry order,
/// that the rules take and that are not in `connected`.
pub open spec fn to_wire<S>(
    rules: Seq<(SourceMatch, Filter)>,
    sources: Seq<ConnectedSource<S>>,
    connected: Seq<SourceId>,
) -> Seq<SourceId>
    decreases sources.len(),
{
    if sources.len() == 0 {
        Seq::empty()
    } else {
        let rest = to_wire(rules, sources.drop_last(), connected);
        let s = sources.last();
        if first_match(rules, s.id, s.name@) is Some && !connected.contains(s.id) {
            rest.push(s.id)
        } else {
            rest
        }
    }
}

proof fn lemma_to_wire_members<S>(rules: Seq<(SourceMatch, Filter)>, sources: Seq<ConnectedSource<S>>, connected: Seq<SourceId>)
    ensures
        forall|k: int| 0 <= k < to_wire(rules, sources, connected).len() ==> exists|i: int|
            0 <= i < sources.len() && (#[trigger] sources[i]).id == #[trigger] to_wire(rules, sources, connected)[k]
                && first_match(rules, sources[i].id, sources[i].name@) is Some
                && !connected.contains(to_wire(rules, sources, connected)[k]),
    decreases sources.len(),
{
    if sources.len() > 0 {
        let init = sources.drop_last();
        lemma_to_wire_members(rules, init, connected);
        let w = to_wire(rules, sources, connected);
        let r = to_wire(rules, init, connected);
        assert forall|k: int| 0 <= k < w.len() implies exists|i: int|
            0 <= i < sources.len() && (#[trigger] sources[i]).id == #[trigger] w[k]
                && first_match(rules, sources[i].id, sources[i].name@) is Some && !connected.contains(w[k]) by {
            if k < r.len() {
                assert(w[k] == r[k]);
                let i = choose|i: int|
                    0 <= i < init.len() && (#[trigger] init[i]).id == #[trigger] r[k]
                        && first_match(rules, init[i].id, init[i].name@) is Some && !connected.contains(r[k]);
                assert(sources[i] == init[i]);
            } else {
                assert(sources[sources.len() - 1] == sources.last());
            }
        }
    }
}

proof fn lemma_to_wire_distinct<S>(rules: Seq<(SourceMatch, Filter)>, sources: Seq<ConnectedSource<S>>, connected: Seq<SourceId>)
    requires
        forall|i: int, j: int| 0 <= i < j < sources.len() ==> (#[trigger] sources[i]).id != (#[trigger] sources[j]).id,
    ensures
        forall|a: int, b: int|
            0 <= a < b < to_wire(rules, sources, connected).len() ==> (#[trigger] to_wire(rules, sources, connected)[a])
                != (#[trigger] to_wire(rules, sources, connected)[b]),
    decreases sources.len(),
{
    if sources.len() > 0 {
        let init = sources.drop_last();
        assert forall|i: int, j: int| 0 <= i < j < init.len() implies (#[trigger] init[i]).id != (#[trigger] init[j]).id by {
            assert(init[i] == sources[i] && init[j] == sources[j]);
        }
        lemma_to_wire_distinct(rules, init, connected);
        lemma_to_wire_members(rules, init, connected);
        let w = to_wire(rules, sources, connected);
        let r = to_wire(rules, init, connected);
        assert forall|a: int, b: int| 0 <= a < b < w.len() implies (#[trigger] w[a]) != (#[trigger] w[b]) by {
            assert(w[a] == r[a]);
            if b < r.len() {
                assert(w[b] == r[b]);
            } else {
                let i = choose|i: int|
                    0 <= i < init.len() && (#[trigger] init[i]).id == #[trigger] r[a]
                        && first_match(rules, init[i].id, init[i].name@) is Some && !connected.contains(r[a]);
                assert(init[i] == sources[i]);
                assert(w[b] == sources[sources.len() - 1].id);
            }
        }
    }
}

proof fn lemma_matched_contains<S>(rules: Seq<(SourceMatch, Filter)>, sources: Seq<ConnectedSource<S>>, i: int)
    requires
        0 <= i < sources.len(),
        first_match(rules, sources[i].id, sources[i].name@) is Some,
    ensures
        matched_filters(rules, sources).contains_key(sources[i].id),
    decreases sources.len(),
{
    if i < sources.len() - 1 {
        let init = sources.drop_last();
        assert(init[i] == sources[i]);
        lemma_matched_contains(rules, init, i);
    }
}

/// The sources of a list of connections, in order.
spec fn source_ids(v: Seq<Connection>) -> Seq<SourceId> {
    v.map_values(|c: Connection| c.source)
}

fn ids_of(v: &Vec<Connection>) -> (r: Vec<SourceId>)
    ensures
        r@ == source_ids(v@),
{
    let mut r: Vec<SourceId> = Vec::new();
    let mut i: usize = 0;
    while i < v.len()
        invariant
            i <= v@.len(),
            r@ == source_ids(v@).subrange(0, i as int),
        decreases v@.len() - i,
    {
        r.push(v[i].source);
        i = i + 1;
        assert(r@ =~= source_ids(v@).subrange(0, i as int));
    }
    assert(r@ =~= source_ids(v@));
    r
}

/// Whether the id is among `ids`.
fn contains_id(ids: &[SourceId], id: SourceId) -> (r: bool)
    ensures
        r == ids@.contains(id),
{
    let mut i: usize = 0;
    while i < ids.len()
        invariant
            i <= ids@.len(),
            forall|k: int| 0 <= k < i ==> ids@[k] != id,
        decreases ids@.len() - i,
    {
        if ids[i] == id {
            return true;
        }
        i = i + 1;
    }
    false
}

/// The sources of the registry to wire under `rules`, given those wired
/// already.
fn wire_list<S: PartialEq, D: PartialEq>(endpoints: &Endpoints<S, D>, rules: &SourceMatches, connected: &[SourceId]) -> (r: Vec<SourceId>)
    requires
        endpoints.wf(),
    ensures
        r@ == to_wire(rules.rules(), endpoints.sources(), connected@),
{
    let ghost srcs = endpoints.sources();
    let list = endpoints.connected_sources();
    let mut r: Vec<SourceId> = Vec::new();
    let mut i: usize = 0;
    assert(srcs.subrange(0, 0) =~= Seq::<ConnectedSource<S>>::empty());
    while i < list.len()
        invariant
            srcs == endpoints.sources(),
            list@.len() == srcs.len(),
            forall|k: int| 0 <= k < list@.len() ==> *(#[trigger] list@[k]) == srcs[k],
            i <= srcs.len(),
            r@ == to_wire(rules.rules(), srcs.subrange(0, i as int), connected@),
        decreases srcs.len() - i,
    {
        let source = list[i];
        assert(srcs.subrange(0, i + 1).drop_last() =~= srcs.subrange(0, i as int));
        assert(srcs.subrange(0, i + 1).last() == srcs[i as int]);
        if rules.match_filter(source.id, source.name.as_str()).is_some() && !contains_id(connected, source.id) {
            r.push(source.id);
        }
        i = i + 1;
    }
    assert(srcs.subrange(0, srcs.len() as int) =~= srcs);
    r
}

/// A named logical route from the sources its rules take to one handler.
pub struct Input<P, H> {
    name: String,
    sources: SourceMatches,
    connected: Vec<Connection>,
    filters: FilterTable,
    port: P,
    handler: H,
    delivered: Ghost<Seq<Event>>,
}

impl<P, H> Input<P, H> {
    pub closed spec fn name_view(&self) -> Seq<char> {
        self.name@
    }

    pub closed spec fn rules(&self) -> Seq<(SourceMatch, Filter)> {
        self.sources.rules()
    }

    /// The sources wired to the input, in the order they were wired.
    pub closed spec fn connected_ids(&self) -> Seq<SourceId> {
        self.connected@.map_values(|c: Connection| c.source)
    }

    /// Every event handed to the handler so far, in order.
    pub closed spec fn delivered(&self) -> Seq<Event> {
        self.delivered@
    }

    pub closed spec fn port_view(&self) -> P {
        self.port
    }

    pub closed spec fn handler_view(&self) -> H {
        self.handler
    }

    /// The filter map as published to the real-time path.
    pub closed spec fn filter_map(&self) -> Map<SourceId, Filter> {
        published_map(self.filters)
    }

    pub closed spec fn wf(&self) -> bool {
        &&& forall|i: int, j: int|
            0 <= i < j < self.connected@.len() ==> (#[trigger] self.connected@[i]).source
                != (#[trigger] self.connected@[j]).source
        &&& forall|i: int|
            0 <= i < self.connected@.len() ==> (#[trigger] self.connected@[i]).decoder.wf()
        &&& forall|i: int|
            0 <= i < self.connected@.len() ==> self.filter_map().contains_key(
                (#[trigger] self.connected@[i]).source,
            )
    }

    /// The words held by the decoder of this source: none where the input is
    /// not wired to it.
    pub closed spec fn pending_of(&self, id: SourceId) -> Seq<u32> {
        if exists|i: int| 0 <= i < self.connected@.len() && (#[trigger] self.connected@[i]).source == id {
            self.connected@[choose|i: int| 0 <= i < self.connected@.len() && (#[trigger] self.connected@[i]).source == id].decoder.pending()
        } else {
            Seq::empty()
        }
    }

    /// Runs one cycle's words of a source through that source's decoder, under
    /// the source's published filter (an open one where it has none), and
    /// hands each message that comes out to the handler. Words of a source
    /// the input is not wired to are dropped.
    fn process(&mut self, source: SourceId, words: &[(u32, u64)])
        where
            H: EventSink,
        requires
            old(self).wf(),
        ensures
            final(self).wf(),
            final(self).name_view() == old(self).name_view(),
            final(self).rules() == old(self).rules(),
            final(self).filter_map() == old(self).filter_map(),
            final(self).connected_ids() == old(self).connected_ids(),
            forall|id: SourceId| id != source ==> #[trigger] final(self).pending_of(id) == old(self).pending_of(id),
            final(self).pending_of(source) == if old(self).connected_ids().contains(source) {
                pending_after_words(old(self).pending_of(source), words_of(words@))
            } else {
                Seq::<u32>::empty()
            },
            final(self).delivered() == old(self).delivered() + if old(self).connected_ids().contains(source) {
                events_after(old(self).pending_of(source), words@, source, old(self).filter_map()[source])
            } else {
                Seq::<Event>::empty()
            },
    {
        let k = match self.connection_index(source) {
            Some(k) => k,
            None => {
                assert forall|j: int| 0 <= j < self.connected@.len() implies (#[trigger] self.connected@[j]).source != source by {
                    assert(self.connected_ids()[j] == self.connected@[j].source);
                }
                assert(self.delivered() =~= self.delivered() + Seq::<Event>::empty());
                return;
            },
        };
        let ghost start = self.connected@;
        assert(start == old(self).connected@);
        let current = self.filters.load();
        let filter = match current.get(&source) {
            Some(filter) => *filter,
            None => Filter::new(),
        };
        proof {
            assert(self.filter_map().contains_key(start[k as int].source));
            assert(filter == self.filter_map()[source]);
        }
        let ghost pending = start[k as int].decoder.pending();
        let mut i: usize = 0;
        assert(words_of(words@).subrange(0, 0) =~= Seq::<u32>::empty());
        assert(words@.subrange(0, 0) =~= Seq::<(u32, u64)>::empty());
        assert(self.delivered() =~= old(self).delivered() + Seq::<Event>::empty());
        while i < words.len()
            invariant
                filter == old(self).filter_map()[source],
                pending == start[k as int].decoder.pending(),
                self.delivered() == old(self).delivered() + events_after(
                    pending,
                    words@.subrange(0, i as int),
                    source,
                    filter,
                ),
                k < self.connected@.len(),
                start[k as int].source == source,
                self.connected@.len() == start.len(),
                self.name == old(self).name,
                self.sources == old(self).sources,
                self.filters == old(self).filters,
                forall|j: int| 0 <= j < start.len() && j != k ==> #[trigger] self.connected@[j] == start[j],
                forall|j: int| 0 <= j < start.len() ==> (#[trigger] self.connected@[j]).source == start[j].source,
                self.connected@[k as int].decoder.wf(),
                i <= words@.len(),
                self.connected@[k as int].decoder.pending() == pending_after_words(
                    start[k as int].decoder.pending(),
                    words_of(words@).subrange(0, i as int),
                ),
            decreases words@.len() - i,
        {
            let (word, time) = words[i];
            let connection = &mut self.connected[k];
            let event = decode_event(&mut connection.decoder, &filter, source, word, time);
            let ghost entries = words@.subrange(0, i + 1);
            assert(entries.drop_last() =~= words@.subrange(0, i as int));
            assert(entries.last() == (word, time));
            assert(words_of(entries.drop_last()) =~= words_of(words@).subrange(0, i as int));
            let ghost logged = self.delivered();
            match event {
                Some(event) => {
                    self.handler.call(event);
                    self.delivered = Ghost(self.delivered@.push(event));
                    assert(self.delivered() =~= logged + seq![event]);
                },
                None => {},
            }
            assert(self.delivered() =~= old(self).delivered() + events_after(pending, entries, source, filter));
            let ghost prefix = words_of(words@).subrange(0, i + 1);
            assert(prefix.drop_last() =~= words_of(words@).subrange(0, i as int));
            assert(prefix.last() == word);
            i = i + 1;
        }
        assert(words_of(words@).subrange(0, words@.len() as int) =~= words_of(words@));
        assert(words@.subrange(0, words@.len() as int) =~= words@);
        assert(self.connected_ids() =~= old(self).connected_ids());
        assert(old(self).connected_ids()[k as int] == source);
        assert forall|id: SourceId| id != source implies #[trigger] self.pending_of(id) == old(self).pending_of(id) by {
            if exists|j: int| 0 <= j < start.len() && (#[trigger] start[j]).source == id {
                let b = choose|j: int| 0 <= j < start.len() && (#[trigger] start[j]).source == id;
                assert(self.connected@[b].source == id);
                let a = choose|j: int| 0 <= j < self.connected@.len() && (#[trigger] self.connected@[j]).source == id;
                assert(start[a].source == self.connected@[a].source);
                assert(a == b);
                assert(self.connected@[a] == start[a]);
            } else {
                assert forall|j: int| 0 <= j < self.connected@.len() implies (#[trigger] self.connected@[j]).source != id by {
                    assert(self.connected@[j].source == start[j].source);
                }
            }
        }
        proof {
            let c = choose|j: int| 0 <= j < self.connected@.len() && (#[trigger] self.connected@[j]).source == source;
            assert(c == k);
            let d = choose|j: int| 0 <= j < start.len() && (#[trigger] start[j]).source == source;
            assert(d == k);
        }
    }

    /// The position of the connection of this source.
    fn connection_index(&self, id: SourceId) -> (r: Option<usize>)
        ensures
            r is None ==> !self.connected_ids().contains(id),
            r is Some ==> r->Some_0 < self.connected@.len() && self.connected@[r->Some_0 as int].source == id,
    {
        let mut i: usize = 0;
        while i < self.connected.len()
            invariant
                i <= self.connected@.len(),
                forall|k: int| 0 <= k < i ==> (#[trigger] self.connected@[k]).source != id,
            decreases self.connected@.len() - i,
        {
            if self.connected[i].source == id {
                return Some(i);
            }
            i = i + 1;
        }
        assert forall|k: int| 0 <= k < self.connected_ids().len() implies #[trigger] self.connected_ids()[k] != id by {
            assert(self.connected_ids()[k] == self.connected@[k].source);
        }
        None
    }

    /// The sources the input is wired to.
    fn connected_source_ids(&self) -> (r: Vec<SourceId>)
        ensures
            r@ == self.connected_ids(),
    {
        let mut r: Vec<SourceId> = Vec::new();
        let mut i: usize = 0;
        while i < self.connected.len()
            invariant
                i <= self.connected@.len(),
                r@ == self.connected_ids().subrange(0, i as int),
            decreases self.connected@.len() - i,
        {
            r.push(self.connected[i].source);
            i = i + 1;
            assert(r@ =~= self.connected_ids().subrange(0, i as int));
        }
        assert(r@ =~= self.connected_ids());
        r
    }

    /// Whether the input is wired to this source.
    fn is_connected(&self, id: SourceId) -> (r: bool)
        ensures
            r == self.connected_ids().contains(id),
    {
        let mut i: usize = 0;
        while i < self.connected.len()
            invariant
                i <= self.connected@.len(),
                forall|k: int| 0 <= k < i ==> (#[trigger] self.connected@[k]).source != id,
            decreases self.connected@.len() - i,
        {
            if self.connected[i].source == id {
                assert(self.connected_ids()[i as int] == id);
                return true;
            }
            i = i + 1;
        }
        assert forall|k: int| 0 <= k < self.connected_ids().len() implies #[trigger] self.connected_ids()[k] != id by {
            assert(self.connected_ids()[k] == self.connected@[k].source);
        }
        false
    }

    /// Offers a newly connected source to the input. Where the input is not
    /// wired to it and its rules take it, the filter map is copied, given the
    /// source's filter, and republished; then the source is wired to the
    /// port through the host, and counts as connected where that succeeds.
    fn offer<B: Backend<Port = P>>(
        &mut self,
        backend: &mut B,
        id: SourceId,
        name: &str,
        source: Option<&B::Source>,
    ) -> (answer: Option<bool>)
        requires
            old(self).wf(),
        ensures
            final(self).wf(),
            offered(*old(self), *final(self), id, name@),
            answer is Some == (!old(self).connected_ids().contains(id) && first_match(old(self).rules(), id, name@) is Some
                && source is Some),
            answer is Some ==> final(self).connected_ids().contains(id) == answer->Some_0,
    {
        if self.is_connected(id) {
            return None;
        }
        match self.sources.match_filter(id, name) {
            Some(filter) => {
                let current = self.filters.load();
                let mut filters: HashMap<SourceId, Filter> = (*current).clone();
                filters.insert(id, filter);
                self.filters.store(filters);
                let answer = match source {
                    Some(source) => {
                        let wired_now = backend.connect(source, &self.port);
                        if wired_now {
                            let ghost before = self.connected@;
                            self.connected.push(Connection { source: id, decoder: DecoderProtocol1::new() });
                            assert(self.connected_ids() =~= old(self).connected_ids().push(id));
                            assert forall|a: int, b: int|
                                0 <= a < b < self.connected@.len() implies (#[trigger] self.connected@[a]).source
                                    != (#[trigger] self.connected@[b]).source by {
                                if b == before.len() {
                                    assert(old(self).connected_ids()[a] == before[a].source);
                                }
                            }
                            assert(self.connected_ids()[self.connected_ids().len() - 1] == id);
                        }
                        Some(wired_now)
                    },
                    None => None,
                };
                assert(self.connected_ids() == old(self).connected_ids() || self.connected_ids()
                    =~= old(self).connected_ids().push(id));
                answer
            },
            None => None,
        }
    }

    /// Drops a source that went away from the input: from its connections,
    /// unwiring it through the host, and from its filter map, which is
    /// republished without it.
    fn prune<B: Backend<Port = P>>(&mut self, backend: &mut B, id: SourceId, source: &B::Source) -> (unwired: bool)
        requires
            old(self).wf(),
        ensures
            final(self).wf(),
            pruned(*old(self), *final(self), id),
            unwired == old(self).connected_ids().contains(id),
    {
        let ghost before = self.connected@;
        let unwired = match take_connection(&mut self.connected, id) {
            Some(_) => {
                let _ = backend.disconnect(source, &self.port);
                true
            },
            None => false,
        };
        proof {
            if unwired {
                let a = choose|a: int| 0 <= a < before.len() && (#[trigger] before[a]).source == id;
                assert(old(self).connected_ids()[a] == id);
            }
            if old(self).connected_ids().contains(id) {
                let a = choose|a: int| 0 <= a < old(self).connected_ids().len() && old(self).connected_ids()[a] == id;
                assert(before[a].source == id);
                assert(connection_ids(before).contains(id));
            }
        }
        let ghost after = self.connected@;
        let current = self.filters.load();
        let mut filters: HashMap<SourceId, Filter> = (*current).clone();
        filters.remove(&id);
        self.filters.store(filters);
        assert forall|a: int| 0 <= a < after.len() implies self.filter_map().contains_key(
            (#[trigger] after[a]).source,
        ) by {
            assert(connection_ids(after).contains(after[a].source));
            let b = choose|b: int| 0 <= b < before.len() && (#[trigger] before[b]).source == after[a].source;
        }
        assert forall|x: SourceId| #[trigger] self.connected_ids().contains(x) == (x != id
            && old(self).connected_ids().contains(x)) by {
            if self.connected_ids().contains(x) {
                let a = choose|a: int| 0 <= a < after.len() && #[trigger] self.connected_ids()[a] == x;
                assert(after[a].source == x);
                assert(connection_ids(after).contains(x));
                let b = choose|b: int| 0 <= b < before.len() && (#[trigger] before[b]).source == x;
                assert(old(self).connected_ids()[b] == x);
            }
            if x != id && old(self).connected_ids().contains(x) {
                let b = choose|b: int| 0 <= b < before.len() && #[trigger] old(self).connected_ids()[b] == x;
                assert(before[b].source == x);
                assert(connection_ids(before).contains(x));
                assert(connection_ids(before).remove(id).contains(x));
                assert(connection_ids(after).contains(x));
                let a = choose|a: int| 0 <= a < after.len() && (#[trigger] after[a]).source == x;
                assert(self.connected_ids()[a] == x);
            }
        }
        unwired
    }
}

/// How offering a newly connected source changes an input: not at all where
/// the input is wired to it already or its rules do not take it; otherwise
/// its filter map gains the source's filter, and the source is connected
/// where the host wired it.
pub open spec fn offered<P, H>(before: Input<P, H>, after: Input<P, H>, id: SourceId, name: Seq<char>) -> bool {
    &&& after.name_view() == before.name_view()
    &&& after.rules() == before.rules()
    &&& if before.connected_ids().contains(id) || first_match(before.rules(), id, name) is None {
        after.connected_ids() == before.connected_ids() && after.filter_map() == before.filter_map()
    } else {
        &&& after.filter_map() == before.filter_map().insert(id, first_match(before.rules(), id, name)->Some_0)
        &&& after.connected_ids() == before.connected_ids() || after.connected_ids()
            == before.connected_ids().push(id)
    }
}

/// How dropping a source that went away changes an input: it is neither
/// connected nor in the filter map any more, and nothing else changes.
pub open spec fn pruned<P, H>(before: Input<P, H>, after: Input<P, H>, id: SourceId) -> bool {
    &&& after.name_view() == before.name_view()
    &&& after.rules() == before.rules()
    &&& after.filter_map() == before.filter_map().remove(id)
    &&& forall|x: SourceId| #[trigger] after.connected_ids().contains(x) == (x != id
        && before.connected_ids().contains(x))
}

/// The names of the inputs, in order, that are wired to this source.
pub open spec fn inputs_fed_by<P, H>(inputs: Seq<Input<P, H>>, id: SourceId) -> Seq<Seq<char>>
    decreases inputs.len(),
{
    if inputs.len() == 0 {
        Seq::empty()
    } else {
        let rest = inputs_fed_by(inputs.drop_last(), id);
        if inputs.last().connected_ids().contains(id) {
            rest.push(inputs.last().name_view())
        } else {
            rest
        }
    }
}

/// The characters of each string.
pub open spec fn string_views(v: Seq<String>) -> Seq<Seq<char>> {
    v.map_values(|s: String| s@)
}

/// The words a decoder holds after it took `words` in order, starting from
/// `pending`.
pub open spec fn pending_after_words(pending: Seq<u32>, words: Seq<u32>) -> Seq<u32>
    decreases words.len(),
{
    if words.len() == 0 {
        pending
    } else {
        pending_after(pending_after_words(pending, words.drop_last()), words.last())
    }
}

/// The words of timed entries.
pub open spec fn words_of(entries: Seq<(u32, u64)>) -> Seq<u32> {
    entries.map_values(|e: (u32, u64)| e.0)
}

/// The events that a source's timed words, entered in order into a MIDI 1.0
/// decoder holding `pending` under `filter`, hand to the handler: one for
/// each word that completes a packet whose message passes.
pub open spec fn events_after(pending: Seq<u32>, entries: Seq<(u32, u64)>, source: SourceId, filter: Filter) -> Seq<Event>
    decreases entries.len(),
{
    if entries.len() == 0 {
        Seq::empty()
    } else {
        let init = entries.drop_last();
        let held = pending_after_words(pending, words_of(init)).push(entries.last().0);
        let last = if is_packet(held) {
            match protocol1_message(held, filter) {
                Some(message) => seq![Event { timestamp: entries.last().1, endpoint: source, message }],
                None => Seq::empty(),
            }
        } else {
            Seq::empty()
        };
        events_after(pending, init, source, filter) + last
    }
}

/// The word that carries raw MIDI 1.0 bytes (a status byte and up to two
/// data bytes) as a MIDI 1.0 channel voice packet on group 0.
pub open spec fn midi1_word_spec(bytes: Seq<u8>) -> Option<u32> {
    if bytes.len() == 1 {
        Some((0x20u32 << 24u32) | ((bytes[0] as u32) << 16u32))
    } else if bytes.len() == 2 {
        Some((0x20u32 << 24u32) | ((bytes[0] as u32) << 16u32) | ((bytes[1] as u32) << 8u32))
    } else if bytes.len() == 3 {
        Some((0x20u32 << 24u32) | ((bytes[0] as u32) << 16u32) | ((bytes[1] as u32) << 8u32) | (bytes[2] as u32))
    } else {
        None
    }
}

/// Packs raw MIDI 1.0 bytes as the host delivers them into a packet word;
/// `None` for an empty message or one of more than three bytes.
pub fn midi1_word(bytes: &[u8]) -> (r: Option<u32>)
    ensures
        r == midi1_word_spec(bytes@),
{
    if bytes.len() == 1 {
        Some((0x20u32 << 24u32) | ((bytes[0] as u32) << 16u32))
    } else if bytes.len() == 2 {
        Some((0x20u32 << 24u32) | ((bytes[0] as u32) << 16u32) | ((bytes[1] as u32) << 8u32))
    } else if bytes.len() == 3 {
        Some((0x20u32 << 24u32) | ((bytes[0] as u32) << 16u32) | ((bytes[1] as u32) << 8u32) | (bytes[2] as u32))
    } else {
        None
    }
}

/// Feeds one word to a decoder; a message that comes out becomes an event
/// from `source` stamped with `time`.
pub fn decode_event<D: DecoderProtocol>(decoder: &mut D, filter: &Filter, source: SourceId, word: u32, time: u64) -> (r: Option<Event>)
    requires
        old(decoder).wf(),
    ensures
        final(decoder).wf(),
        final(decoder).pending() == pending_after(old(decoder).pending(), word),
        r == (if is_packet(old(decoder).pending().push(word)) {
            match D::message_of(old(decoder).pending().push(word), *filter) {
                Some(message) => Some(Event { timestamp: time, endpoint: source, message }),
                None => None,
            }
        } else {
            None
        }),
{
    match decoder.next(word, filter) {
        Ok(Some(message)) => Some(Event { timestamp: time, endpoint: source, message }),
        _ => None,
    }
}

/// How running a cycle's words of one source through an input changes it:
/// only the decoder of that source, which takes the words in order.
pub open spec fn processed<P, H>(before: Input<P, H>, after: Input<P, H>, source: SourceId, entries: Seq<(u32, u64)>) -> bool {
    &&& after.name_view() == before.name_view()
    &&& after.rules() == before.rules()
    &&& after.filter_map() == before.filter_map()
    &&& after.connected_ids() == before.connected_ids()
    &&& forall|id: SourceId| id != source ==> #[trigger] after.pending_of(id) == before.pending_of(id)
    &&& after.pending_of(source) == if before.connected_ids().contains(source) {
        pending_after_words(before.pending_of(source), words_of(entries))
    } else {
        Seq::<u32>::empty()
    }
    &&& after.delivered() == before.delivered() + if before.connected_ids().contains(source) {
        events_after(before.pending_of(source), entries, source, before.filter_map()[source])
    } else {
        Seq::<Event>::empty()
    }
}

/// The events that one cycle's words on an input's port hand to its
/// handler when they go through the decoder of each source in `ids`, in
/// that order.
pub open spec fn port_events<P, H>(input: Input<P, H>, ids: Seq<SourceId>, entries: Seq<(u32, u64)>) -> Seq<Event>
    decreases ids.len(),
{
    if ids.len() == 0 {
        Seq::empty()
    } else {
        port_events(input, ids.drop_last(), entries) + events_after(
            input.pending_of(ids.last()),
            entries,
            ids.last(),
            input.filter_map()[ids.last()],
        )
    }
}

/// The connect calls that offering source `id`, named `name`, to the inputs
/// makes: one for each input, in order, that is not wired to it and whose
/// rules take it, answered by whether the host wired it (`after` being the
/// inputs once offered).
pub open spec fn offer_calls<P, H>(
    before: Seq<Input<P, H>>,
    after: Seq<Input<P, H>>,
    id: SourceId,
    name: Seq<char>,
) -> Seq<HostCall>
    decreases before.len(),
{
    if before.len() == 0 {
        Seq::empty()
    } else {
        let rest = offer_calls(before.drop_last(), after, id, name);
        let b = before.last();
        if !b.connected_ids().contains(id) && first_match(b.rules(), id, name) is Some {
            rest.push(HostCall::Connect(id, after[before.len() - 1].connected_ids().contains(id)))
        } else {
            rest
        }
    }
}

/// The connect calls for the first inputs depend only on those inputs.
proof fn lemma_offer_calls_prefix<P, H>(
    before: Seq<Input<P, H>>,
    after: Seq<Input<P, H>>,
    changed: Seq<Input<P, H>>,
    id: SourceId,
    name: Seq<char>,
)
    requires
        before.len() <= after.len(),
        after.len() == changed.len(),
        forall|j: int| 0 <= j < before.len() ==> after[j] == changed[j],
    ensures
        offer_calls(before, after, id, name) == offer_calls(before, changed, id, name),
    decreases before.len(),
{
    if before.len() > 0 {
        lemma_offer_calls_prefix(before.drop_last(), after, changed, id, name);
    }
}

/// The disconnect calls that dropping source `id` from the inputs makes: one
/// for each input, in order, that was wired to it.
pub open spec fn prune_calls<P, H>(before: Seq<Input<P, H>>, id: SourceId) -> Seq<HostCall>
    decreases before.len(),
{
    if before.len() == 0 {
        Seq::empty()
    } else {
        let rest = prune_calls(before.drop_last(), id);
        if before.last().connected_ids().contains(id) {
            rest.push(HostCall::Disconnect(id))
        } else {
            rest
        }
    }
}

/// Whether some input has this name.
pub open spec fn has_input<P, H>(inputs: Seq<Input<P, H>>, name: Seq<char>) -> bool {
    exists|i: int| 0 <= i < inputs.len() && (#[trigger] inputs[i]).name_view() == name
}

/// The driver's state: the host's endpoints and the inputs on them.
pub struct Driver<S, D, P, H> {
    endpoints: Endpoints<S, D>,
    inputs: Vec<Input<P, H>>,
    host_calls: Ghost<Seq<HostCall>>,
}

impl<S: PartialEq, D: PartialEq, P, H: EventSink> Driver<S, D, P, H> {
    pub closed spec fn endpoints_view(&self) -> Endpoints<S, D> {
        self.endpoints
    }

    /// Every call the driver made on the host, in order, with the answers
    /// it acted on.
    pub closed spec fn host_log(&self) -> Seq<HostCall> {
        self.host_calls@
    }

    pub closed spec fn inputs_view(&self) -> Seq<Input<P, H>> {
        self.inputs@
    }

    pub closed spec fn wf(&self) -> bool {
        &&& self.endpoints.wf()
        &&& forall|i: int, j: int|
            0 <= i < j < self.inputs@.len() ==> (#[trigger] self.inputs@[i]).name@
                != (#[trigger] self.inputs@[j]).name@
        &&& forall|i: int| 0 <= i < self.inputs@.len() ==> (#[trigger] self.inputs@[i]).wf()
    }

    /// In a consistent driver the registry is consistent (its listings are
    /// in name order), input names are unique, and every source an
    /// input is wired to has an entry in that input's published filter map.
    pub proof fn lemma_routing_invariant(&self)
        requires
            self.wf(),
        ensures
            self.endpoints_view().wf(),
            forall|i: int, j: int|
                0 <= i < j < self.inputs_view().len() ==> (#[trigger] self.inputs_view()[i]).name_view()
                    != (#[trigger] self.inputs_view()[j]).name_view(),
            forall|j: int, id: SourceId|
                0 <= j < self.inputs_view().len() && #[trigger] self.inputs_view()[j].connected_ids().contains(id)
                    ==> self.inputs_view()[j].filter_map().contains_key(id),
    {
        assert forall|j: int, id: SourceId|
            0 <= j < self.inputs_view().len() && #[trigger] self.inputs_view()[j].connected_ids().contains(id)
                implies self.inputs_view()[j].filter_map().contains_key(id) by {
            let input = self.inputs@[j];
            let k = choose|k: int| 0 <= k < input.connected_ids().len() && input.connected_ids()[k] == id;
            assert(input.connected@[k].source == id);
        }
    }

    /// A driver with no endpoints and no inputs.
    pub fn new() -> (r: Driver<S, D, P, H>)
        ensures
            r.wf(),
            r.endpoints_view().sources().len() == 0,
            r.endpoints_view().destinations().len() == 0,
            r.inputs_view().len() == 0,
            r.host_log().len() == 0,
    {
        Driver { endpoints: Endpoints::new(), inputs: Vec::new(), host_calls: Ghost(Seq::empty()) }
    }

    /// Creates an input. A name that an input has already is refused, with
    /// nothing changed. Otherwise the host registers the input's port, the
    /// rules are applied to the connected sources, and their filter map is
    /// published; the sources taken are wired to the port, and those the host
    /// wired count as connected.
    pub fn create_input<C: Backend<Source = S, Port = P>>(&mut self, backend: &mut C, config: InputConfig, handler: H) -> (r: Result<String, Error>)
        requires
            old(self).wf(),
        ensures
            final(self).wf(),
            final(self).endpoints_view() == old(self).endpoints_view(),
            has_input(old(self).inputs_view(), config.name@) ==> r == Err::<String, Error>(
                Error::JackMidi(JackMidiError::InputAlreadyExists(config)),
            ) && final(self).inputs_view() == old(self).inputs_view(),
            !has_input(old(self).inputs_view(), config.name@) ==> match r {
                Ok(name) => {
                    &&& name@ == config.name@
                    &&& final(self).inputs_view() == old(self).inputs_view().push(
                        final(self).inputs_view().last(),
                    )
                    &&& final(self).inputs_view().last().name_view() == config.name@
                    &&& final(self).inputs_view().last().rules() == config.sources.rules()
                    &&& final(self).inputs_view().last().filter_map() == matched_filters(
                        config.sources.rules(),
                        old(self).endpoints_view().sources(),
                    )
                    &&& forall|id: SourceId|
                        #[trigger] final(self).inputs_view().last().connected_ids().contains(id) ==> to_wire(
                            config.sources.rules(),
                            old(self).endpoints_view().sources(),
                            Seq::<SourceId>::empty(),
                        ).contains(id)
                },
                Err(e) => e == Error::JackMidi(JackMidiError::PortCreate) && final(self).inputs_view()
                    == old(self).inputs_view(),
            },
            has_input(old(self).inputs_view(), config.name@) ==> final(self).host_log() == old(self).host_log()
                && *final(backend) == *old(backend),
            !has_input(old(self).inputs_view(), config.name@) ==> {
                let calls = calls_since(old(self).host_log(), final(self).host_log());
                &&& extends(old(self).host_log(), final(self).host_log())
                &&& calls.len() >= 1
                &&& calls[0] is RegisterPort
                &&& (calls[0]->RegisterPort_0 <==> r is Ok)
                &&& !calls[0]->RegisterPort_0 ==> calls.len() == 1 && r == Err::<String, Error>(
                    Error::JackMidi(JackMidiError::PortCreate),
                )
                &&& calls[0]->RegisterPort_0 ==> {
                    &&& connects_to(
                        calls.drop_first(),
                        to_wire(config.sources.rules(), old(self).endpoints_view().sources(), Seq::<SourceId>::empty()),
                    )
                    &&& final(self).inputs_view().last().connected_ids() == wired(calls.drop_first())
                    &&& final(self).inputs_view().last().delivered() == Seq::<Event>::empty()
                }
            },
    {
        if self.find_input(config.name.as_str()).is_some() {
            return Err(Error::JackMidi(JackMidiError::InputAlreadyExists(config)));
        }
        let InputConfig { name, sources } = config;
        let registered = backend.register_input_port(name.as_str());
        self.host_calls = Ghost(self.host_calls@.push(HostCall::RegisterPort(registered is Some)));
        proof {
            assert(self.host_log().subrange(0, old(self).host_log().len() as int) =~= old(self).host_log());
            assert(calls_since(old(self).host_log(), self.host_log()) =~= seq![HostCall::RegisterPort(registered is Some)]);
        }
        let port = match registered {
            Some(port) => port,
            None => return Err(Error::JackMidi(JackMidiError::PortCreate)),
        };
        let none: Vec<Connection> = Vec::new();
        assert(source_ids(none@) =~= Seq::<SourceId>::empty());
        assert(connection_ids(none@) =~= Set::<SourceId>::empty());
        let (filters, connected, _, calls) = self.rewire(backend, &sources, &port, none);
        let ghost logged = self.host_calls@;
        self.host_calls = Ghost(self.host_calls@ + calls@);
        proof {
            lemma_still_wired_none(sources.rules(), self.endpoints.sources());
            assert(self.host_log().subrange(0, old(self).host_log().len() as int) =~= old(self).host_log());
            assert(calls_since(old(self).host_log(), self.host_log()).drop_first() =~= calls@);
            assert(source_ids(connected@) =~= wired(calls@));
        }
        let input = Input {
            name: name.clone(),
            sources,
            connected,
            filters: FilterTable::new(filters),
            port,
            handler,
            delivered: Ghost(Seq::empty()),
        };
        let ghost before = self.inputs@;
        self.inputs.push(input);
        assert(self.inputs@ == before.push(input));
        assert forall|i: int, j: int|
            0 <= i < j < self.inputs@.len() implies (#[trigger] self.inputs@[i]).name@
                != (#[trigger] self.inputs@[j]).name@ by {
            if j == before.len() {
                assert(self.inputs@[i] == before[i]);
                assert(before[i].name_view() != name@);
            } else {
                assert(self.inputs@[i] == before[i] && self.inputs@[j] == before[j]);
            }
        }
        assert forall|i: int| 0 <= i < self.inputs@.len() implies (#[trigger] self.inputs@[i]).wf() by {
            if i < before.len() {
                assert(self.inputs@[i] == before[i]);
            }
        }
        assert forall|id: SourceId| #[trigger] input.connected_ids().contains(id) implies to_wire(
            input.sources.rules(),
            self.endpoints.sources(),
            Seq::<SourceId>::empty(),
        ).contains(id) by {
            let a = choose|a: int| 0 <= a < input.connected_ids().len() && input.connected_ids()[a] == id;
            assert(input.connected@[a].source == id);
            assert(connection_ids(input.connected@).contains(id));
        }
        Ok(name)
    }

    /// Replaces the rules of the named input. The new rules are applied to
    /// the connected sources: sources they take that were wired stay wired,
    /// with their decoders; newly taken ones are wired through the host;
    /// those no longer taken are unwired. The new filter map is then
    /// published in one swap. An unknown name is refused, with nothing
    /// changed.
    pub fn set_input_sources<C: Backend<Source = S, Port = P>>(&mut self, backend: &mut C, name: &str, sources: SourceMatches) -> (r: Result<(), Error>)
        requires
            old(self).wf(),
        ensures
            final(self).wf(),
            final(self).endpoints_view() == old(self).endpoints_view(),
            !has_input(old(self).inputs_view(), name@) ==> final(self).inputs_view() == old(self).inputs_view(),
            !has_input(old(self).inputs_view(), name@) ==> (r matches Err(
                Error::JackMidi(JackMidiError::InputNotFound(n)),
            ) && n@ == name@),
            has_input(old(self).inputs_view(), name@) ==> r is Ok && final(self).inputs_view().len()
                == old(self).inputs_view().len() && exists|k: int|
                0 <= k < old(self).inputs_view().len() && (#[trigger] old(self).inputs_view()[k]).name_view() == name@
                    && (forall|j: int|
                    0 <= j < old(self).inputs_view().len() && j != k ==> #[trigger] final(self).inputs_view()[j]
                        == old(self).inputs_view()[j]) && final(self).inputs_view()[k].name_view() == name@
                    && final(self).inputs_view()[k].rules() == sources.rules()
                    && final(self).inputs_view()[k].filter_map() == matched_filters(
                    sources.rules(),
                    old(self).endpoints_view().sources(),
                ) && (forall|id: SourceId|
                    old(self).inputs_view()[k].connected_ids().contains(id)
                        && final(self).inputs_view()[k].filter_map().contains_key(id)
                        ==> final(self).inputs_view()[k].connected_ids().contains(id)) && (forall|id: SourceId|
                    #[trigger] final(self).inputs_view()[k].connected_ids().contains(id)
                        && !old(self).inputs_view()[k].connected_ids().contains(id) ==> to_wire(
                        sources.rules(),
                        old(self).endpoints_view().sources(),
                        old(self).inputs_view()[k].connected_ids(),
                    ).contains(id)) && rewired(
                    old(self).inputs_view()[k],
                    final(self).inputs_view()[k],
                    sources.rules(),
                    old(self).endpoints_view().sources(),
                    calls_since(old(self).host_log(), final(self).host_log()),
                ),
            has_input(old(self).inputs_view(), name@) ==> extends(old(self).host_log(), final(self).host_log()),
            !has_input(old(self).inputs_view(), name@) ==> final(self).host_log() == old(self).host_log()
                && *final(backend) == *old(backend),
    {
        let k = match self.find_input(name) {
            Some(k) => k,
            None => return Err(Error::JackMidi(JackMidiError::InputNotFound(name.to_owned()))),
        };
        let ghost before = self.inputs@;
        let Input { name: input_name, sources: _, connected, filters: mut table, port, handler, delivered } = self.inputs.remove(k);
        let ghost old_connected = connected@;
        let (filters, kept, gone, calls) = self.rewire(backend, &sources, &port, connected);
        let ghost srcs = self.endpoints.sources();
        let ghost mut discs: Seq<HostCall> = Seq::empty();
        let mut i: usize = 0;
        assert(disconnect_ids(discs) =~= Set::new(
            |id: SourceId| exists|g: int| 0 <= g < 0 && (#[trigger] gone@[g]).source == id && has_source_id(srcs, id),
        ));
        while i < gone.len()
            invariant
                srcs == self.endpoints.sources(),
                connections_wf(gone@),
                i <= gone@.len(),
                forall|m: int| 0 <= m < discs.len() ==> (#[trigger] discs[m]) is Disconnect,
                forall|a: int, b: int|
                    0 <= a < b < discs.len() ==> (#[trigger] discs[a])->Disconnect_0 != (#[trigger] discs[b])->Disconnect_0,
                disconnect_ids(discs) == Set::new(
                    |id: SourceId| exists|g: int| 0 <= g < i && (#[trigger] gone@[g]).source == id && has_source_id(srcs, id),
                ),
            decreases gone@.len() - i,
        {
            let id = gone[i].source;
            let ghost discs_before = discs;
            match self.endpoints.get_source(id) {
                Some(source) => {
                    let _ = backend.disconnect(source, &port);
                    proof {
                        discs = discs.push(HostCall::Disconnect(id));
                        assert forall|a: int, b: int|
                            0 <= a < b < discs.len() implies (#[trigger] discs[a])->Disconnect_0
                                != (#[trigger] discs[b])->Disconnect_0 by {
                            if b == discs.len() - 1 {
                                assert(discs[a] == discs_before[a]);
                                let x = discs_before[a]->Disconnect_0;
                                assert(disconnect_ids(discs_before).contains(x));
                                let g = choose|g: int| 0 <= g < i && (#[trigger] gone@[g]).source == x && has_source_id(srcs, x);
                                assert(gone@[g].source != gone@[i as int].source);
                            } else {
                                assert(discs[a] == discs_before[a] && discs[b] == discs_before[b]);
                            }
                        }
                    }
                },
                None => {},
            }
            proof {
                assert forall|m: int| 0 <= m < discs.len() implies (#[trigger] discs[m]) is Disconnect by {
                    if m < discs_before.len() {
                        assert(discs[m] == discs_before[m]);
                    }
                }
                let target = Set::new(
                    |x: SourceId| exists|g: int| 0 <= g < i + 1 && (#[trigger] gone@[g]).source == x && has_source_id(srcs, x),
                );
                assert forall|x: SourceId| disconnect_ids(discs).contains(x) <==> target.contains(x) by {
                    if disconnect_ids(discs).contains(x) {
                        let m = choose|m: int| 0 <= m < discs.len() && (#[trigger] discs[m])->Disconnect_0 == x;
                        if m < discs_before.len() {
                            assert(discs[m] == discs_before[m]);
                            assert(disconnect_ids(discs_before).contains(x));
                            let g = choose|g: int| 0 <= g < i && (#[trigger] gone@[g]).source == x && has_source_id(srcs, x);
                            assert(target.contains(x));
                        } else {
                            assert(gone@[i as int].source == x);
                            assert(target.contains(x));
                        }
                    }
                    if target.contains(x) {
                        let g = choose|g: int| 0 <= g < i + 1 && (#[trigger] gone@[g]).source == x && has_source_id(srcs, x);
                        if g < i {
                            assert(disconnect_ids(discs_before).contains(x));
                            let m = choose|m: int| 0 <= m < discs_before.len() && (#[trigger] discs_before[m])->Disconnect_0 == x;
                            assert(discs[m] == discs_before[m]);
                        } else {
                            assert(discs[discs.len() - 1]->Disconnect_0 == x);
                        }
                    }
                }
                assert(disconnect_ids(discs) =~= target);
            }
            i = i + 1;
        }
        self.host_calls = Ghost(self.host_calls@ + calls@ + discs);
        table.store(filters);
        let input = Input { name: input_name, sources, connected: kept, filters: table, port, handler, delivered };
        self.inputs.insert(k, input);
        assert(self.inputs@ == before.update(k as int, input));
        assert forall|id: SourceId|
            before[k as int].connected_ids().contains(id) && input.filter_map().contains_key(id)
                implies input.connected_ids().contains(id) by {
            let ids = before[k as int].connected_ids();
            let a = choose|a: int| 0 <= a < ids.len() && #[trigger] ids[a] == id;
            assert(old_connected[a].source == id);
            assert(connection_ids(old_connected).contains(id));
            assert(connection_ids(kept@).contains(id));
            let b = choose|b: int| 0 <= b < kept@.len() && (#[trigger] kept@[b]).source == id;
            assert(input.connected_ids()[b] == id);
        }
        assert forall|i: int, j: int|
            0 <= i < j < self.inputs@.len() implies (#[trigger] self.inputs@[i]).name@
                != (#[trigger] self.inputs@[j]).name@ by {
            assert(self.inputs@[i].name == before[i].name && self.inputs@[j].name == before[j].name);
        }
        assert forall|i: int| 0 <= i < self.inputs@.len() implies (#[trigger] self.inputs@[i]).wf() by {
            if i != k {
                assert(self.inputs@[i] == before[i]);
            } else {
                assert forall|a: int| 0 <= a < input.connected@.len() implies input.filter_map().contains_key(
                    (#[trigger] input.connected@[a]).source,
                ) by {
                    assert(connection_ids(kept@).contains(kept@[a].source));
                }
            }
        }
        assert(source_ids(old_connected) =~= before[k as int].connected_ids());
        proof {
            let all = calls_since(old(self).host_log(), self.host_log());
            assert(self.host_log().subrange(0, old(self).host_log().len() as int) =~= old(self).host_log());
            assert(all =~= calls@ + discs);
            let wire_len = calls@.len() as int;
            assert(all.subrange(0, wire_len) =~= calls@);
            assert(all.subrange(wire_len, all.len() as int) =~= discs);
            assert(input.connected_ids() =~= source_ids(kept@));
            let target = Set::new(
                |x: SourceId| before[k as int].connected_ids().contains(x) && !input.filter_map().contains_key(x)
                    && has_source_id(srcs, x),
            );
            let reached = Set::new(
                |x: SourceId| exists|g: int| 0 <= g < gone@.len() && (#[trigger] gone@[g]).source == x && has_source_id(srcs, x),
            );
            assert forall|x: SourceId| reached.contains(x) <==> target.contains(x) by {
                if reached.contains(x) {
                    let g = choose|g: int| 0 <= g < gone@.len() && (#[trigger] gone@[g]).source == x && has_source_id(srcs, x);
                    assert(connection_ids(gone@).contains(x));
                    assert(connection_ids(old_connected).contains(x));
                    let a = choose|a: int| 0 <= a < old_connected.len() && (#[trigger] old_connected[a]).source == x;
                    assert(before[k as int].connected_ids()[a] == x);
                }
                if target.contains(x) {
                    let ids = before[k as int].connected_ids();
                    let a = choose|a: int| 0 <= a < ids.len() && #[trigger] ids[a] == x;
                    assert(old_connected[a].source == x);
                    assert(connection_ids(old_connected).contains(x));
                    assert(connection_ids(gone@).contains(x));
                    let g = choose|g: int| 0 <= g < gone@.len() && (#[trigger] gone@[g]).source == x;
                    assert(reached.contains(x));
                }
            }
            assert(gone@.len() == i);
            assert(disconnect_ids(discs) =~= reached);
            assert(disconnect_ids(all.subrange(wire_len, all.len() as int)) =~= target);
        }
        assert forall|id: SourceId|
            #[trigger] input.connected_ids().contains(id) && !before[k as int].connected_ids().contains(id)
                implies to_wire(sources.rules(), self.endpoints.sources(), before[k as int].connected_ids()).contains(id) by {
            let a = choose|a: int| 0 <= a < input.connected_ids().len() && input.connected_ids()[a] == id;
            assert(input.connected@[a].source == id);
            assert(connection_ids(kept@).contains(id));
            if connection_ids(old_connected).contains(id) {
                let b = choose|b: int| 0 <= b < old_connected.len() && (#[trigger] old_connected[b]).source == id;
                assert(before[k as int].connected_ids()[b] == id);
            }
        }
        Ok(())
    }

    /// Handles the host's report that a source is connected: registers it
    /// (a known id keeps its first record) and offers it to every input.
    pub fn source_connected<C: Backend<Source = S, Port = P>>(&mut self, backend: &mut C, id: SourceId, name: String, source: S)
        requires
            old(self).wf(),
        ensures
            final(self).wf(),
            has_source_id(final(self).endpoints_view().sources(), id),
            has_source_id(old(self).endpoints_view().sources(), id) ==> final(self).endpoints_view().sources()
                == old(self).endpoints_view().sources(),
            !has_source_id(old(self).endpoints_view().sources(), id) ==> exists|p: int|
                0 <= p <= old(self).endpoints_view().sources().len() && final(self).endpoints_view().sources()
                    == old(self).endpoints_view().sources().insert(p, ConnectedSource { id, name, source }),
            final(self).endpoints_view().destinations() == old(self).endpoints_view().destinations(),
            final(self).inputs_view().len() == old(self).inputs_view().len(),
            forall|j: int|
                0 <= j < old(self).inputs_view().len() ==> offered(
                    old(self).inputs_view()[j],
                    #[trigger] final(self).inputs_view()[j],
                    id,
                    name@,
                ),
            final(self).host_log() == old(self).host_log() + offer_calls(
                old(self).inputs_view(),
                final(self).inputs_view(),
                id,
                name@,
            ),
    {
        let label = name.clone();
        self.endpoints.add_source(id, name, source);
        let ghost before = self.inputs@;
        let ghost registry = self.endpoints;
        let mut i: usize = 0;
        while i < self.inputs.len()
            invariant
                self.endpoints == registry,
                self.endpoints.wf(),
                label@ == name@,
                self.inputs@.len() == before.len(),
                i <= before.len(),
                forall|j: int, k: int|
                    0 <= j < k < before.len() ==> (#[trigger] before[j]).name@ != (#[trigger] before[k]).name@,
                forall|j: int| 0 <= j < before.len() ==> (#[trigger] self.inputs@[j]).wf(),
                forall|j: int| 0 <= j < before.len() ==> (#[trigger] self.inputs@[j]).name@ == before[j].name@,
                forall|j: int| 0 <= j < i ==> offered(before[j], #[trigger] self.inputs@[j], id, name@),
                forall|j: int| i <= j < before.len() ==> #[trigger] self.inputs@[j] == before[j],
                has_source_id(self.endpoints.sources(), id),
                self.host_calls@ == old(self).host_log() + offer_calls(before.subrange(0, i as int), self.inputs@, id, name@),
            decreases before.len() - i,
        {
            let handle = self.endpoints.get_source(id);
            let ghost inputs_before = self.inputs@;
            let input = &mut self.inputs[i];
            let answer = input.offer(backend, id, label.as_str(), handle);
            proof {
                let prefix = before.subrange(0, i + 1);
                assert(prefix.drop_last() =~= before.subrange(0, i as int));
                assert(prefix.last() == before[i as int]);
                lemma_offer_calls_prefix(before.subrange(0, i as int), inputs_before, self.inputs@, id, name@);
            }
            match answer {
                Some(wired_now) => {
                    self.host_calls = Ghost(self.host_calls@.push(HostCall::Connect(id, wired_now)));
                },
                None => {},
            }
            proof {
                let prefix = before.subrange(0, i + 1);
                assert(self.host_calls@ =~= old(self).host_log() + offer_calls(prefix, self.inputs@, id, name@));
            }
            i = i + 1;
        }
        assert(before.subrange(0, before.len() as int) =~= before);
        assert forall|j: int, k: int|
            0 <= j < k < self.inputs@.len() implies (#[trigger] self.inputs@[j]).name@
                != (#[trigger] self.inputs@[k]).name@ by {
            assert(self.inputs@[j].name@ == before[j].name@ && self.inputs@[k].name@ == before[k].name@);
        }
    }

    /// Handles the host's report that a source went away: moves its record
    /// to the disconnected ones, and drops it from every input, unwiring it
    /// and taking it out of the filter maps. Gives the id of the source; the
    /// handle of no connected source equals `source` where it gives `None`,
    /// and then nothing changes.
    pub fn source_disconnected<C: Backend<Source = S, Port = P>>(&mut self, backend: &mut C, source: S) -> (r: Option<SourceId>)
        requires
            old(self).wf(),
        ensures
            final(self).wf(),
            r is None ==> final(self).endpoints_view().sources() == old(self).endpoints_view().sources()
                && final(self).inputs_view() == old(self).inputs_view(),
            r is None && S::obeys_eq_spec() ==> forall|i: int|
                0 <= i < old(self).endpoints_view().sources().len()
                    ==> !(#[trigger] old(self).endpoints_view().sources()[i]).source.eq_spec(&source),
            r is Some && S::obeys_eq_spec() ==> exists|i: int|
                0 <= i < old(self).endpoints_view().sources().len()
                    && (#[trigger] old(self).endpoints_view().sources()[i]).id == r->Some_0
                    && old(self).endpoints_view().sources()[i].source.eq_spec(&source),
            final(self).endpoints_view().destinations() == old(self).endpoints_view().destinations(),
            r is Some ==> has_source_id(old(self).endpoints_view().sources(), r->Some_0)
                && !has_source_id(final(self).endpoints_view().sources(), r->Some_0)
                && final(self).endpoints_view().sources().len() + 1 == old(self).endpoints_view().sources().len()
                && final(self).inputs_view().len() == old(self).inputs_view().len() && forall|j: int|
                0 <= j < old(self).inputs_view().len() ==> pruned(
                    old(self).inputs_view()[j],
                    #[trigger] final(self).inputs_view()[j],
                    r->Some_0,
                ),
            r is None ==> final(self).host_log() == old(self).host_log() && *final(backend) == *old(backend),
            r is Some ==> final(self).host_log() == old(self).host_log() + prune_calls(old(self).inputs_view(), r->Some_0),
    {
        let removed = match self.endpoints.remove_source(source) {
            Some(removed) => removed,
            None => return None,
        };
        let id = removed.id;
        proof {
            let ghost old_sources = old(self).endpoints.sources();
            let k = choose|k: int|
                0 <= k < old_sources.len() && removed == #[trigger] old_sources[k]
                    && self.endpoints.sources() == old_sources.remove(k)
                    && (S::obeys_eq_spec() ==> old_sources[k].source.eq_spec(&source)
                        && forall|j: int| 0 <= j < k ==> !(#[trigger] old_sources[j]).source.eq_spec(&source));
            assert(old_sources[k].id == id);
            assert(has_source_id(old_sources, id)) by {
                assert(old_sources[k].id == id);
            }
            assert forall|a: int| 0 <= a < self.endpoints.sources().len() implies (#[trigger] self.endpoints.sources()[a]).id != id by {
                let a0 = if a < k { a } else { a + 1 };
                assert(self.endpoints.sources()[a] == old_sources[a0]);
            }
        }
        let ghost before = self.inputs@;
        let ghost registry = self.endpoints;
        let mut i: usize = 0;
        while i < self.inputs.len()
            invariant
                self.endpoints == registry,
                self.inputs@.len() == before.len(),
                i <= before.len(),
                forall|j: int, k: int|
                    0 <= j < k < before.len() ==> (#[trigger] before[j]).name@ != (#[trigger] before[k]).name@,
                forall|j: int| 0 <= j < before.len() ==> (#[trigger] self.inputs@[j]).wf(),
                forall|j: int| 0 <= j < before.len() ==> (#[trigger] self.inputs@[j]).name@ == before[j].name@,
                forall|j: int| 0 <= j < i ==> pruned(before[j], #[trigger] self.inputs@[j], id),
                forall|j: int| i <= j < before.len() ==> #[trigger] self.inputs@[j] == before[j],
                self.host_calls@ == old(self).host_log() + prune_calls(before.subrange(0, i as int), id),
            decreases before.len() - i,
        {
            let input = &mut self.inputs[i];
            let unwired = input.prune(backend, id, &removed.source);
            if unwired {
                self.host_calls = Ghost(self.host_calls@.push(HostCall::Disconnect(id)));
            }
            proof {
                let prefix = before.subrange(0, i + 1);
                assert(prefix.drop_last() =~= before.subrange(0, i as int));
                assert(prefix.last() == before[i as int]);
                assert(self.host_calls@ =~= old(self).host_log() + prune_calls(prefix, id));
            }
            i = i + 1;
        }
        assert forall|j: int, k: int|
            0 <= j < k < self.inputs@.len() implies (#[trigger] self.inputs@[j]).name@
                != (#[trigger] self.inputs@[k]).name@ by {
            assert(self.inputs@[j].name@ == before[j].name@ && self.inputs@[k].name@ == before[k].name@);
        }
        proof {
            if S::obeys_eq_spec() {
                let old_sources = old(self).endpoints_view().sources();
                let k = choose|k: int|
                    0 <= k < old_sources.len() && removed == #[trigger] old_sources[k]
                        && (S::obeys_eq_spec() ==> old_sources[k].source.eq_spec(&source));
                assert(old(self).endpoints_view().sources()[k].id == id);
            }
        }
        assert(before.subrange(0, before.len() as int) =~= before);
        Some(id)
    }

    /// The connected sources in name order, each with the names of the
    /// inputs it is wired to.
    pub fn sources(&self) -> (r: Vec<SourceInfo>)
        requires
            self.wf(),
        ensures
            r@.len() == self.endpoints_view().sources().len(),
            forall|i: int|
                0 <= i < r@.len() ==> {
                    &&& (#[trigger] r@[i]).id == self.endpoints_view().sources()[i].id
                    &&& r@[i].name@ == self.endpoints_view().sources()[i].name@
                    &&& string_views(r@[i].connected_inputs@) == inputs_fed_by(
                        self.inputs_view(),
                        r@[i].id,
                    )
                },
            forall|i: int, j: int|
                0 <= i < j < r@.len() ==> name_le((#[trigger] r@[i]).name@, (#[trigger] r@[j]).name@),
    {
        let list = self.endpoints.connected_sources();
        let mut r: Vec<SourceInfo> = Vec::new();
        let mut i: usize = 0;
        while i < list.len()
            invariant
                list@.len() == self.endpoints.sources().len(),
                forall|k: int| 0 <= k < list@.len() ==> *(#[trigger] list@[k]) == self.endpoints.sources()[k],
                forall|a: int, b: int|
                    0 <= a < b < list@.len() ==> name_le((#[trigger] list@[a]).name@, (#[trigger] list@[b]).name@),
                i <= list@.len(),
                r@.len() == i,
                forall|k: int|
                    0 <= k < i ==> {
                        &&& (#[trigger] r@[k]).id == self.endpoints.sources()[k].id
                        &&& r@[k].name@ == self.endpoints.sources()[k].name@
                        &&& string_views(r@[k].connected_inputs@) == inputs_fed_by(self.inputs@, r@[k].id)
                    },
            decreases list@.len() - i,
        {
            let source = list[i];
            let names = self.input_names_fed_by(source.id);
            r.push(SourceInfo::new(source.id, source.name.clone(), names));
            i = i + 1;
        }
        assert forall|a: int, b: int| 0 <= a < b < r@.len() implies name_le(
            (#[trigger] r@[a]).name@,
            (#[trigger] r@[b]).name@,
        ) by {
            assert(list@[a].name@ == r@[a].name@ && list@[b].name@ == r@[b].name@);
        }
        r
    }

    /// The names of the inputs, in order, that are wired to this source.
    fn input_names_fed_by(&self, id: SourceId) -> (r: Vec<String>)
        ensures
            string_views(r@) == inputs_fed_by(self.inputs@, id),
    {
        let mut r: Vec<String> = Vec::new();
        let mut i: usize = 0;
        assert(self.inputs@.subrange(0, 0) =~= Seq::<Input<P, H>>::empty());
        assert(string_views(r@) =~= Seq::<Seq<char>>::empty());
        while i < self.inputs.len()
            invariant
                i <= self.inputs@.len(),
                string_views(r@) == inputs_fed_by(self.inputs@.subrange(0, i as int), id),
            decreases self.inputs@.len() - i,
        {
            let ghost prefix = self.inputs@.subrange(0, i + 1);
            assert(prefix.drop_last() =~= self.inputs@.subrange(0, i as int));
            assert(prefix.last() == self.inputs@[i as int]);
            if self.inputs[i].is_connected(id) {
                let ghost before = r@;
                r.push(self.inputs[i].name.clone());
                assert(string_views(r@) =~= string_views(before).push(self.inputs@[i as int].name_view()));
            }
            i = i + 1;
        }
        assert(self.inputs@.subrange(0, self.inputs@.len() as int) =~= self.inputs@);
        r
    }

    /// The connected destinations in name order.
    pub fn destinations(&self) -> (r: Vec<DestinationInfo>)
        requires
            self.wf(),
        ensures
            r@.len() == self.endpoints_view().destinations().len(),
            forall|i: int|
                0 <= i < r@.len() ==> (#[trigger] r@[i]).id == self.endpoints_view().destinations()[i].id
                    && r@[i].name@ == self.endpoints_view().destinations()[i].name@,
            forall|i: int, j: int|
                0 <= i < j < r@.len() ==> name_le((#[trigger] r@[i]).name@, (#[trigger] r@[j]).name@),
    {
        let list = self.endpoints.connected_destinations();
        let mut r: Vec<DestinationInfo> = Vec::new();
        let mut i: usize = 0;
        while i < list.len()
            invariant
                list@.len() == self.endpoints.destinations().len(),
                forall|k: int| 0 <= k < list@.len() ==> *(#[trigger] list@[k]) == self.endpoints.destinations()[k],
                forall|a: int, b: int|
                    0 <= a < b < list@.len() ==> name_le((#[trigger] list@[a]).name@, (#[trigger] list@[b]).name@),
                i <= list@.len(),
                r@.len() == i,
                forall|k: int|
                    0 <= k < i ==> (#[trigger] r@[k]).id == self.endpoints.destinations()[k].id
                        && r@[k].name@ == self.endpoints.destinations()[k].name@,
            decreases list@.len() - i,
        {
            let destination = list[i];
            r.push(DestinationInfo::new(destination.id, destination.name.clone()));
            i = i + 1;
        }
        assert forall|a: int, b: int| 0 <= a < b < r@.len() implies name_le(
            (#[trigger] r@[a]).name@,
            (#[trigger] r@[b]).name@,
        ) by {
            assert(list@[a].name@ == r@[a].name@ && list@[b].name@ == r@[b].name@);
        }
        r
    }

    /// Each input's name, rules and connected sources, in creation order.
    pub fn inputs(&self) -> (r: Vec<InputInfo>)
        ensures
            r@.len() == self.inputs_view().len(),
            forall|i: int|
                0 <= i < r@.len() ==> {
                    &&& (#[trigger] r@[i]).name@ == self.inputs_view()[i].name_view()
                    &&& r@[i].sources.rules() == self.inputs_view()[i].rules()
                    &&& r@[i].connected_sources@ == self.inputs_view()[i].connected_ids()
                },
    {
        let mut r: Vec<InputInfo> = Vec::new();
        let mut i: usize = 0;
        while i < self.inputs.len()
            invariant
                i <= self.inputs@.len(),
                r@.len() == i,
                forall|k: int|
                    0 <= k < i ==> {
                        &&& (#[trigger] r@[k]).name@ == self.inputs@[k].name_view()
                        &&& r@[k].sources.rules() == self.inputs@[k].rules()
                        &&& r@[k].connected_sources@ == self.inputs@[k].connected_ids()
                    },
            decreases self.inputs@.len() - i,
        {
            let input = &self.inputs[i];
            r.push(
                InputInfo {
                    name: input.name.clone(),
                    sources: input.sources.copied(),
                    connected_sources: input.connected_source_ids(),
                },
            );
            i = i + 1;
        }
        r
    }

    /// The configuration of the named input.
    pub fn get_input_config(&self, name: &str) -> (r: Option<InputConfig>)
        ensures
            r is Some <==> has_input(self.inputs_view(), name@),
            r is Some ==> r->Some_0.name@ == name@ && exists|k: int|
                0 <= k < self.inputs_view().len() && (#[trigger] self.inputs_view()[k]).name_view() == name@
                    && r->Some_0.sources.rules() == self.inputs_view()[k].rules(),
    {
        match self.find_input(name) {
            Some(k) => {
                let input = &self.inputs[k];
                Some(InputConfig { name: input.name.clone(), sources: input.sources.copied() })
            },
            None => None,
        }
    }

    /// The sources that `rules` would have wired next: the ids of the
    /// connected sources, in registry order, that the rules take and that
    /// are not in `connected`.
    pub fn sources_to_wire(&self, rules: &SourceMatches, connected: &[SourceId]) -> (r: Vec<SourceId>)
        requires
            self.wf(),
        ensures
            r@ == to_wire(rules.rules(), self.endpoints_view().sources(), connected@),
    {
        wire_list(&self.endpoints, rules, connected)
    }

    /// How many inputs there are.
    pub fn input_count(&self) -> (r: usize)
        ensures
            r == self.inputs_view().len(),
    {
        self.inputs.len()
    }

    /// The port of the input at `index`.
    pub fn input_port(&self, index: usize) -> (r: &P)
        requires
            index < self.inputs_view().len(),
        ensures
            *r == self.inputs_view()[index as int].port_view(),
    {
        &self.inputs[index].port
    }

    /// The handler of the input at `index`.
    pub fn handler(&self, index: usize) -> (r: &H)
        requires
            index < self.inputs_view().len(),
        ensures
            *r == self.inputs_view()[index as int].handler_view(),
    {
        &self.inputs[index].handler
    }

    /// A shared handle to the filter map published for the named input.
    pub fn input_filters(&self, name: &str) -> (r: Option<Arc<HashMap<SourceId, Filter>>>)
        ensures
            r is Some <==> has_input(self.inputs_view(), name@),
            r is Some ==> exists|k: int|
                0 <= k < self.inputs_view().len() && (#[trigger] self.inputs_view()[k]).name_view() == name@
                    && (*r->Some_0)@ == self.inputs_view()[k].filter_map(),
    {
        match self.find_input(name) {
            Some(k) => Some(self.inputs[k].filters.load()),
            None => None,
        }
    }

    /// Runs one cycle's words of a source through the input at `index`:
    /// through that source's decoder under its published filter, each
    /// message that comes out going to the input's handler. Only that
    /// decoder changes; words of a source the input is not wired to are
    /// dropped.
    pub fn process(&mut self, index: usize, source: SourceId, words: &[(u32, u64)])
        requires
            old(self).wf(),
            index < old(self).inputs_view().len(),
        ensures
            final(self).host_log() == old(self).host_log(),
            final(self).wf(),
            final(self).endpoints_view() == old(self).endpoints_view(),
            final(self).inputs_view().len() == old(self).inputs_view().len(),
            forall|j: int|
                0 <= j < old(self).inputs_view().len() && j != index ==> #[trigger] final(self).inputs_view()[j]
                    == old(self).inputs_view()[j],
            processed(old(self).inputs_view()[index as int], final(self).inputs_view()[index as int], source, words@),
    {
        let ghost before = self.inputs@;
        let input = &mut self.inputs[index];
        input.process(source, words);
        assert forall|j: int, k: int|
            0 <= j < k < self.inputs@.len() implies (#[trigger] self.inputs@[j]).name@
                != (#[trigger] self.inputs@[k]).name@ by {
            assert(self.inputs@[j].name@ == before[j].name@ && self.inputs@[k].name@ == before[k].name@);
        }
        assert forall|j: int| 0 <= j < self.inputs@.len() implies (#[trigger] self.inputs@[j]).wf() by {
            if j != index {
                assert(self.inputs@[j] == before[j]);
            }
        }
    }

    /// Runs one cycle's words arriving on the port of the input at `index`
    /// through the decoder of each source the input is wired to, as
    /// `process` does for one source.
    pub fn process_port(&mut self, index: usize, words: &[(u32, u64)])
        requires
            old(self).wf(),
            index < old(self).inputs_view().len(),
        ensures
            final(self).host_log() == old(self).host_log(),
            final(self).wf(),
            final(self).endpoints_view() == old(self).endpoints_view(),
            final(self).inputs_view().len() == old(self).inputs_view().len(),
            forall|j: int|
                0 <= j < old(self).inputs_view().len() && j != index ==> #[trigger] final(self).inputs_view()[j]
                    == old(self).inputs_view()[j],
            final(self).inputs_view()[index as int].connected_ids() == old(self).inputs_view()[index as int].connected_ids(),
            final(self).inputs_view()[index as int].filter_map() == old(self).inputs_view()[index as int].filter_map(),
            forall|id: SourceId| #[trigger] old(self).inputs_view()[index as int].connected_ids().contains(id)
                ==> final(self).inputs_view()[index as int].pending_of(id) == pending_after_words(
                    old(self).inputs_view()[index as int].pending_of(id),
                    words_of(words@),
                ),
            final(self).inputs_view()[index as int].delivered() == old(self).inputs_view()[index as int].delivered()
                + port_events(
                old(self).inputs_view()[index as int],
                old(self).inputs_view()[index as int].connected_ids(),
                words@,
            ),
    {
        let ghost first = self.inputs@[index as int];
        let ghost ids = first.connected_ids();
        let mut k: usize = 0;
        assert(ids.subrange(0, 0) =~= Seq::<SourceId>::empty());
        assert(first.delivered() =~= first.delivered() + Seq::<Event>::empty());
        while k < self.inputs[index].connected.len()
            invariant
                self.wf(),
                index < self.inputs@.len(),
                self.endpoints == old(self).endpoints,
                self.host_calls == old(self).host_calls,
                self.inputs@.len() == old(self).inputs@.len(),
                forall|j: int|
                    0 <= j < old(self).inputs@.len() && j != index ==> #[trigger] self.inputs@[j] == old(self).inputs@[j],
                first == old(self).inputs@[index as int],
                self.inputs@[index as int].connected_ids() == ids,
                self.inputs@[index as int].filter_map() == first.filter_map(),
                self.inputs@[index as int].name_view() == first.name_view(),
                self.inputs@[index as int].rules() == first.rules(),
                ids.len() == self.inputs@[index as int].connected@.len(),
                k <= ids.len(),
                forall|j: int| 0 <= j < k ==> #[trigger] self.inputs@[index as int].pending_of(ids[j])
                    == pending_after_words(first.pending_of(ids[j]), words_of(words@)),
                forall|j: int| k <= j < ids.len() ==> #[trigger] self.inputs@[index as int].pending_of(ids[j])
                    == first.pending_of(ids[j]),
                self.inputs@[index as int].delivered() == first.delivered() + port_events(
                    first,
                    ids.subrange(0, k as int),
                    words@,
                ),
            decreases ids.len() - k,
        {
            let source = self.inputs[index].connected[k].source;
            assert(ids[k as int] == source);
            let ghost mid = self.inputs@[index as int];
            self.process(index, source, words);
            proof {
                let prefix = ids.subrange(0, k + 1);
                assert(prefix.drop_last() =~= ids.subrange(0, k as int));
                assert(prefix.last() == source);
                assert(mid.pending_of(source) == first.pending_of(ids[k as int]));
                assert(self.inputs@[index as int].delivered() =~= first.delivered() + port_events(first, prefix, words@));
                assert(mid.connected_ids().contains(source));
                assert forall|j: int| 0 <= j < ids.len() && j != k implies ids[j] != source by {
                    assert(ids[j] == mid.connected@[j].source);
                    assert(ids[k as int] == mid.connected@[k as int].source);
                }
            }
            k = k + 1;
        }
        proof {
            assert(ids.subrange(0, ids.len() as int) =~= ids);
            assert forall|id: SourceId| #[trigger] first.connected_ids().contains(id) implies self.inputs@[index as int].pending_of(id)
                == pending_after_words(first.pending_of(id), words_of(words@)) by {
                let j = choose|j: int| 0 <= j < ids.len() && ids[j] == id;
                assert(self.inputs@[index as int].pending_of(ids[j]) == pending_after_words(first.pending_of(ids[j]), words_of(words@)));
            }
        }
    }

    /// Applies `rules` to the connected sources. Gives the filter map they
    /// yield, the input's connections after it, and what is left of
    /// `previous`: the connections whose source the rules no longer take. A
    /// source wired already keeps its connection and decoder. Then each
    /// source of `to_wire` (those taken and not wired yet) is handed to the
    /// host, and kept where the host wired it.
    fn rewire<C: Backend<Source = S, Port = P>>(
        &self,
        backend: &mut C,
        rules: &SourceMatches,
        port: &P,
        previous: Vec<Connection>,
    ) -> (r: (HashMap<SourceId, Filter>, Vec<Connection>, Vec<Connection>, Ghost<Seq<HostCall>>))
        requires
            self.endpoints.wf(),
            connections_wf(previous@),
        ensures
            r.0@ == matched_filters(rules.rules(), self.endpoints.sources()),
            connections_wf(r.1@),
            connections_wf(r.2@),
            connection_ids(r.1@).subset_of(r.0@.dom()),
            connection_ids(previous@).intersect(r.0@.dom()).subset_of(connection_ids(r.1@)),
            connection_ids(r.2@) == connection_ids(previous@).difference(r.0@.dom()),
            forall|id: SourceId|
                #[trigger] connection_ids(r.1@).contains(id) && !connection_ids(previous@).contains(id)
                    ==> to_wire(rules.rules(), self.endpoints.sources(), source_ids(previous@)).contains(id),
            connects_to(r.3@, to_wire(rules.rules(), self.endpoints.sources(), source_ids(previous@))),
            source_ids(r.1@) == still_wired(rules.rules(), self.endpoints.sources(), source_ids(previous@)) + wired(r.3@),
    {
        let ghost srcs = self.endpoints.sources();
        let previous_ids = ids_of(&previous);
        let list = self.endpoints.connected_sources();
        let mut filters: HashMap<SourceId, Filter> = HashMap::new();
        let mut kept: Vec<Connection> = Vec::new();
        let mut rest = previous;
        let mut i: usize = 0;
        assert(srcs.subrange(0, 0) =~= Seq::<ConnectedSource<S>>::empty());
        assert(connection_ids(kept@) =~= Set::<SourceId>::empty());
        assert(connection_ids(previous@).difference(filters@.dom()) =~= connection_ids(previous@));
        assert(source_ids(kept@) =~= Seq::<SourceId>::empty());
        while i < list.len()
            invariant
                previous_ids@ == source_ids(previous@),
                source_ids(kept@) == still_wired(rules.rules(), srcs.subrange(0, i as int), previous_ids@),
                srcs == self.endpoints.sources(),
                self.endpoints.wf(),
                list@.len() == srcs.len(),
                forall|k: int| 0 <= k < list@.len() ==> *(#[trigger] list@[k]) == srcs[k],
                i <= srcs.len(),
                filters@ == matched_filters(rules.rules(), srcs.subrange(0, i as int)),
                forall|id: SourceId| #[trigger] filters@.contains_key(id) ==> exists|k: int|
                    0 <= k < i && (#[trigger] srcs[k]).id == id,
                connections_wf(kept@),
                connections_wf(rest@),
                connection_ids(kept@).subset_of(filters@.dom()),
                connection_ids(kept@).subset_of(connection_ids(previous@)),
                connection_ids(previous@).intersect(filters@.dom()).subset_of(connection_ids(kept@)),
                connection_ids(rest@) == connection_ids(previous@).difference(filters@.dom()),
            decreases srcs.len() - i,
        {
            let source = list[i];
            let ghost before = filters@;
            assert(srcs.subrange(0, i + 1).drop_last() =~= srcs.subrange(0, i as int));
            assert(srcs.subrange(0, i + 1).last() == srcs[i as int]);
            assert(!before.contains_key(source.id)) by {
                if before.contains_key(source.id) {
                    let k = choose|k: int| 0 <= k < i && (#[trigger] srcs[k]).id == source.id;
                    assert(srcs[k].id != srcs[i as int].id);
                }
            }
            match rules.match_filter(source.id, source.name.as_str()) {
                Some(filter) => {
                    filters.insert(source.id, filter);
                    let ghost kept_before = kept@;
                    proof {
                        if previous_ids@.contains(source.id) {
                            let a = choose|a: int| 0 <= a < previous_ids@.len() && previous_ids@[a] == source.id;
                            assert(previous@[a].source == source.id);
                            assert(connection_ids(previous@).contains(source.id));
                        }
                        if connection_ids(previous@).contains(source.id) {
                            let a = choose|a: int| 0 <= a < previous@.len() && (#[trigger] previous@[a]).source == source.id;
                            assert(previous_ids@[a] == source.id);
                        }
                    }
                    match take_connection(&mut rest, source.id) {
                        Some(connection) => {
                            kept.push(connection);
                            assert(source_ids(kept@) =~= source_ids(kept_before).push(source.id));
                        },
                        None => {},
                    }
                    assert forall|a: int, b: int| 0 <= a < b < kept@.len() implies (#[trigger] kept@[a]).source
                        != (#[trigger] kept@[b]).source by {
                        if b == kept@.len() - 1 && kept@.len() > kept_before.len() {
                            assert(kept@[a] == kept_before[a]);
                            assert(connection_ids(kept_before).contains(kept_before[a].source));
                        } else {
                            assert(kept@[a] == kept_before[a] && kept@[b] == kept_before[b]);
                        }
                    }
                    assert forall|a: int| 0 <= a < kept@.len() implies (#[trigger] kept@[a]).decoder.wf() by {
                        if a < kept_before.len() {
                            assert(kept@[a] == kept_before[a]);
                        }
                    }
                    assert(connection_ids(kept@).subset_of(connection_ids(previous@))) by {
                        assert forall|x: SourceId| connection_ids(kept@).contains(x) implies connection_ids(previous@).contains(x) by {
                            let k = choose|k: int| 0 <= k < kept@.len() && (#[trigger] kept@[k]).source == x;
                            if k < kept_before.len() {
                                assert(kept@[k] == kept_before[k]);
                                assert(connection_ids(kept_before).contains(x));
                            }
                        }
                    }
                    assert(connection_ids(kept@).subset_of(filters@.dom())) by {
                        assert forall|x: SourceId| connection_ids(kept@).contains(x) implies filters@.contains_key(x) by {
                            let k = choose|k: int| 0 <= k < kept@.len() && (#[trigger] kept@[k]).source == x;
                            if k < kept_before.len() {
                                assert(kept@[k] == kept_before[k]);
                                assert(connection_ids(kept_before).contains(x));
                            }
                        }
                    }
                    assert(connection_ids(previous@).intersect(filters@.dom()).subset_of(connection_ids(kept@))) by {
                        assert forall|x: SourceId| connection_ids(previous@).intersect(filters@.dom()).contains(x)
                            implies connection_ids(kept@).contains(x) by {
                            if x == source.id {
                                assert(kept@[kept@.len() - 1].source == x);
                            } else {
                                assert(connection_ids(kept_before).contains(x));
                                let k = choose|k: int| 0 <= k < kept_before.len() && (#[trigger] kept_before[k]).source == x;
                                assert(kept@[k] == kept_before[k]);
                            }
                        }
                    }
                    assert(connection_ids(rest@) =~= connection_ids(previous@).difference(filters@.dom()));
                    assert forall|id: SourceId| #[trigger] filters@.contains_key(id) implies exists|k: int|
                        0 <= k < i + 1 && (#[trigger] srcs[k]).id == id by {
                        if id != source.id {
                            let k = choose|k: int| 0 <= k < i && (#[trigger] srcs[k]).id == id;
                        } else {
                            assert(srcs[i as int].id == id);
                        }
                    }
                },
                None => {},
            }
            i = i + 1;
        }
        assert(srcs.subrange(0, srcs.len() as int) =~= srcs);
        let ghost still = source_ids(kept@);
        let wire = wire_list(&self.endpoints, rules, previous_ids.as_slice());
        let ghost kept_matched = kept@;
        proof {
            lemma_to_wire_members(rules.rules(), srcs, previous_ids@);
            lemma_to_wire_distinct(rules.rules(), srcs, previous_ids@);
            assert forall|k: int| 0 <= k < wire@.len() implies has_source_id(srcs, #[trigger] wire@[k]) by {
                let i = choose|i: int|
                    0 <= i < srcs.len() && (#[trigger] srcs[i]).id == wire@[k]
                        && first_match(rules.rules(), srcs[i].id, srcs[i].name@) is Some
                        && !previous_ids@.contains(wire@[k]);
            }
            assert forall|k: int| 0 <= k < wire@.len() implies filters@.contains_key(#[trigger] wire@[k])
                && !connection_ids(previous@).contains(wire@[k]) by {
                let i = choose|i: int|
                    0 <= i < srcs.len() && (#[trigger] srcs[i]).id == wire@[k]
                        && first_match(rules.rules(), srcs[i].id, srcs[i].name@) is Some
                        && !previous_ids@.contains(wire@[k]);
                lemma_matched_contains(rules.rules(), srcs, i);
                if connection_ids(previous@).contains(wire@[k]) {
                    let a = choose|a: int| 0 <= a < previous@.len() && (#[trigger] previous@[a]).source == wire@[k];
                    assert(previous_ids@[a] == wire@[k]);
                }
            }
        }
        let mut j: usize = 0;
        let ghost mut calls: Seq<HostCall> = Seq::empty();
        assert(still + wired(calls) =~= still);
        assert(wire@.subrange(0, 0) =~= Seq::<SourceId>::empty());
        while j < wire.len()
            invariant
                srcs == self.endpoints.sources(),
                forall|k: int| 0 <= k < wire@.len() ==> has_source_id(srcs, #[trigger] wire@[k]),
                connects_to(calls, wire@.subrange(0, j as int)),
                source_ids(kept@) == still + wired(calls),
                self.endpoints.wf(),
                j <= wire@.len(),
                forall|k: int| 0 <= k < wire@.len() ==> filters@.contains_key(#[trigger] wire@[k])
                    && !connection_ids(previous@).contains(wire@[k]),
                forall|a: int, b: int| 0 <= a < b < wire@.len() ==> (#[trigger] wire@[a]) != (#[trigger] wire@[b]),
                connections_wf(kept@),
                connection_ids(kept_matched).subset_of(connection_ids(kept@)),
                connection_ids(kept@).subset_of(filters@.dom()),
                forall|id: SourceId|
                    #[trigger] connection_ids(kept@).contains(id) ==> connection_ids(previous@).contains(id)
                        || exists|k: int| 0 <= k < j && wire@[k] == id,
            decreases wire@.len() - j,
        {
            let id = wire[j];
            let ghost kept_before = kept@;
            let ghost calls_before = calls;
            assert(has_source_id(srcs, wire@[j as int]));
            match self.endpoints.get_source(id) {
                Some(source) => {
                    let wired_now = backend.connect(source, port);
                    if wired_now {
                        kept.push(Connection { source: id, decoder: DecoderProtocol1::new() });
                    }
                    proof {
                        calls = calls.push(HostCall::Connect(id, wired_now));
                        assert(calls.drop_last() == calls_before);
                        assert(wire@.subrange(0, j + 1).drop_last() =~= wire@.subrange(0, j as int));
                        assert forall|k: int| 0 <= k < calls.len() implies (#[trigger] calls[k]) is Connect
                            && calls[k]->Connect_0 == wire@.subrange(0, j + 1)[k] by {
                            if k < calls_before.len() {
                                assert(calls[k] == calls_before[k]);
                            }
                        }
                        if wired_now {
                            assert(source_ids(kept@) =~= source_ids(kept_before).push(id));
                            assert(source_ids(kept@) =~= still + wired(calls));
                        } else {
                            assert(source_ids(kept@) =~= still + wired(calls));
                        }
                    }
                },
                None => {},
            }
            proof {
                assert forall|a: int, b: int| 0 <= a < b < kept@.len() implies (#[trigger] kept@[a]).source
                    != (#[trigger] kept@[b]).source by {
                    assert(kept@[a] == kept_before[a]);
                    if b == kept_before.len() {
                        assert(connection_ids(kept_before).contains(kept_before[a].source));
                        if kept_before[a].source == id {
                            if !connection_ids(previous@).contains(id) {
                                let k = choose|k: int| 0 <= k < j && wire@[k] == id;
                                assert(wire@[k] != wire@[j as int]);
                            }
                        }
                    } else {
                        assert(kept@[b] == kept_before[b]);
                    }
                }
                assert forall|a: int| 0 <= a < kept@.len() implies (#[trigger] kept@[a]).decoder.wf() by {
                    if a < kept_before.len() {
                        assert(kept@[a] == kept_before[a]);
                    }
                }
                assert forall|x: SourceId| #[trigger] connection_ids(kept@).contains(x) implies connection_ids(previous@).contains(x)
                    || exists|k: int| 0 <= k < j + 1 && wire@[k] == x by {
                    let a = choose|a: int| 0 <= a < kept@.len() && (#[trigger] kept@[a]).source == x;
                    if a < kept_before.len() {
                        assert(kept@[a] == kept_before[a]);
                        assert(connection_ids(kept_before).contains(x));
                    } else {
                        assert(wire@[j as int] == x);
                    }
                }
                assert forall|x: SourceId| connection_ids(kept_matched).contains(x) implies connection_ids(kept@).contains(x) by {
                    assert(connection_ids(kept_before).contains(x));
                    let a = choose|a: int| 0 <= a < kept_before.len() && (#[trigger] kept_before[a]).source == x;
                    assert(kept@[a] == kept_before[a]);
                }
                assert forall|x: SourceId| connection_ids(kept@).contains(x) implies filters@.contains_key(x) by {
                    let a = choose|a: int| 0 <= a < kept@.len() && (#[trigger] kept@[a]).source == x;
                    if a < kept_before.len() {
                        assert(kept@[a] == kept_before[a]);
                        assert(connection_ids(kept_before).contains(x));
                    }
                }
            }
            j = j + 1;
        }
        proof {
            assert(wire@.subrange(0, wire@.len() as int) =~= wire@);
            assert(connection_ids(previous@).intersect(filters@.dom()).subset_of(connection_ids(kept@)));
            assert forall|id: SourceId|
                #[trigger] connection_ids(kept@).contains(id) && !connection_ids(previous@).contains(id)
                    implies to_wire(rules.rules(), srcs, source_ids(previous@)).contains(id) by {
                let k = choose|k: int| 0 <= k < j && wire@[k] == id;
                assert(wire@[k] == id);
            }
        }
        (filters, kept, rest, Ghost(calls))
    }

    /// The position of the input with this name.
    fn find_input(&self, name: &str) -> (r: Option<usize>)
        ensures
            r is Some <==> has_input(self.inputs_view(), name@),
            r is Some ==> r->Some_0 < self.inputs_view().len() && self.inputs_view()[r->Some_0 as int].name_view()
                == name@,
    {
        let mut i: usize = 0;
        while i < self.inputs.len()
            invariant
                i <= self.inputs@.len(),
                forall|k: int| 0 <= k < i ==> (#[trigger] self.inputs@[k]).name_view() != name@,
            decreases self.inputs@.len() - i,
        {
            if str_eq(self.inputs[i].name.as_str(), name) {
                return Some(i);
            }
            i = i + 1;
        }
        None
    }
}

} // verus!
