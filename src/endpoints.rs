//! The registry of connected and disconnected sources and destinations.
//!
//! Connected endpoints are kept ordered by name, so listings come out sorted
//! whatever order the host reported them in.

use std::collections::HashMap;
use vstd::prelude::*;
use vstd::std_specs::cmp::PartialEqSpec;

verus! {

broadcast use vstd::std_specs::hash::group_hash_axioms;

pub type EndpointId = u64;

pub type SourceId = EndpointId;

pub type DestinationId = EndpointId;

/// Whether name `a` sorts before or equal to name `b`, comparing characters
/// by code point.
pub open spec fn name_le(a: Seq<char>, b: Seq<char>) -> bool
    decreases a.len(),
{
    if a.len() == 0 {
        true
    } else if b.len() == 0 {
        false
    } else if (a[0] as u32) != (b[0] as u32) {
        (a[0] as u32) < (b[0] as u32)
    } else {
        name_le(a.drop_first(), b.drop_first())
    }
}

proof fn lemma_name_le_total(a: Seq<char>, b: Seq<char>)
    ensures
        name_le(a, b) || name_le(b, a),
    decreases a.len(),
{
    if a.len() > 0 && b.len() > 0 && (a[0] as u32) == (b[0] as u32) {
        lemma_name_le_total(a.drop_first(), b.drop_first());
    }
}

proof fn lemma_name_le_transitive(a: Seq<char>, b: Seq<char>, c: Seq<char>)
    requires
        name_le(a, b),
        name_le(b, c),
    ensures
        name_le(a, c),
    decreases a.len(),
{
    if a.len() > 0 && b.len() > 0 && c.len() > 0 && (a[0] as u32) == (b[0] as u32) && (b[0] as u32) == (c[0] as u32) {
        lemma_name_le_transitive(a.drop_first(), b.drop_first(), c.drop_first());
    }
}

/// Whether name `a` sorts before or equal to name `b`.
pub fn names_in_order(a: &str, b: &str) -> (r: bool)
    ensures
        r == name_le(a@, b@),
{
    let n = a.unicode_len();
    let m = b.unicode_len();
    let mut i: usize = 0;
    assert(a@.subrange(0, n as int) =~= a@);
    assert(b@.subrange(0, m as int) =~= b@);
    while i < n && i < m
        invariant
            n == a@.len(),
            m == b@.len(),
            i <= n,
            i <= m,
            name_le(a@, b@) == name_le(a@.subrange(i as int, n as int), b@.subrange(i as int, m as int)),
        decreases n - i,
    {
        let ghost sa = a@.subrange(i as int, n as int);
        let ghost sb = b@.subrange(i as int, m as int);
        assert(sa.drop_first() =~= a@.subrange(i + 1, n as int));
        assert(sb.drop_first() =~= b@.subrange(i + 1, m as int));
        let ca = a.get_char(i);
        let cb = b.get_char(i);
        assert(sa[0] == ca && sb[0] == cb);
        if (ca as u32) != (cb as u32) {
            return (ca as u32) < (cb as u32);
        }
        i = i + 1;
    }
    i == n
}

/// Whether each entry's name sorts before or equal to the next one's.
pub open spec fn sorted_by_name(names: Seq<Seq<char>>) -> bool {
    forall|i: int| 0 <= i < names.len() - 1 ==> name_le(#[trigger] names[i], names[i + 1])
}

/// In a listing sorted by name, any entry sorts before or equal to any
/// later one.
pub proof fn lemma_sorted_pairwise(names: Seq<Seq<char>>)
    requires
        sorted_by_name(names),
    ensures
        forall|i: int, j: int| 0 <= i < j < names.len() ==> name_le(#[trigger] names[i], #[trigger] names[j]),
{
    assert forall|i: int, j: int| 0 <= i < j < names.len() implies name_le(#[trigger] names[i], #[trigger] names[j]) by {
        lemma_sorted_span(names, i, j);
    }
}

proof fn lemma_sorted_span(names: Seq<Seq<char>>, i: int, j: int)
    requires
        sorted_by_name(names),
        0 <= i < j < names.len(),
    ensures
        name_le(names[i], names[j]),
    decreases j - i,
{
    if j > i + 1 {
        lemma_sorted_span(names, i, j - 1);
        lemma_name_le_transitive(names[i], names[j - 1], names[j]);
    }
}

/// A listing entry for a connected source, with the inputs it feeds.
#[derive(Debug, Clone)]
pub struct SourceInfo {
    pub id: SourceId,
    pub name: String,
    pub connected_inputs: Vec<String>,
}

impl SourceInfo {
    pub fn new(id: SourceId, name: String, connected_inputs: Vec<String>) -> (r: SourceInfo)
        ensures
            r.id == id,
            r.name == name,
            r.connected_inputs == connected_inputs,
    {
        SourceInfo { id, name, connected_inputs }
    }
}

/// A listing entry for a connected destination.
#[derive(Debug, Clone)]
pub struct DestinationInfo {
    pub id: DestinationId,
    pub name: String,
}

impl DestinationInfo {
    pub fn new(id: DestinationId, name: String) -> (r: DestinationInfo)
        ensures
            r.id == id,
            r.name == name,
    {
        DestinationInfo { id, name }
    }
}

/// A source that is connected now, with the host's handle for it.
#[derive(Debug)]
pub struct ConnectedSource<T> {
    pub id: SourceId,
    pub name: String,
    pub source: T,
}

/// A destination that is connected now, with the host's handle for it.
#[derive(Debug)]
pub struct ConnectedDestination<T> {
    pub id: DestinationId,
    pub name: String,
    pub destination: T,
}

/// A source that was connected once and is gone now.
#[derive(Debug)]
pub struct DisconnectedSource {
    pub id: SourceId,
    pub name: String,
}

/// A destination that was connected once and is gone now.
#[derive(Debug)]
pub struct DisconnectedDestination {
    pub id: DestinationId,
    pub name: String,
}

pub open spec fn source_names<T>(s: Seq<ConnectedSource<T>>) -> Seq<Seq<char>> {
    s.map_values(|c: ConnectedSource<T>| c.name@)
}

pub open spec fn destination_names<T>(s: Seq<ConnectedDestination<T>>) -> Seq<Seq<char>> {
    s.map_values(|c: ConnectedDestination<T>| c.name@)
}

/// Whether some entry has this id.
pub open spec fn has_source_id<T>(s: Seq<ConnectedSource<T>>, id: SourceId) -> bool {
    exists|i: int| 0 <= i < s.len() && (#[trigger] s[i]).id == id
}

pub open spec fn has_destination_id<T>(s: Seq<ConnectedDestination<T>>, id: DestinationId) -> bool {
    exists|i: int| 0 <= i < s.len() && (#[trigger] s[i]).id == id
}

/// The registry: connected endpoints in name order, one entry per id, and
/// the records of those that went away.
pub struct Endpoints<MidiIn, MidiOut> {
    connected_sources: Vec<ConnectedSource<MidiIn>>,
    connected_destinations: Vec<ConnectedDestination<MidiOut>>,
    disconnected_sources: HashMap<SourceId, DisconnectedSource>,
    disconnected_destinations: HashMap<DestinationId, DisconnectedDestination>,
}

impl<MidiIn: PartialEq, MidiOut: PartialEq> Endpoints<MidiIn, MidiOut> {
    /// The connected sources, in name order.
    pub closed spec fn sources(&self) -> Seq<ConnectedSource<MidiIn>> {
        self.connected_sources@
    }

    /// The connected destinations, in name order.
    pub closed spec fn destinations(&self) -> Seq<ConnectedDestination<MidiOut>> {
        self.connected_destinations@
    }

    /// The records of sources that went away, by id.
    pub closed spec fn gone_sources(&self) -> Map<SourceId, DisconnectedSource> {
        self.disconnected_sources@
    }

    /// The records of destinations that went away, by id.
    pub closed spec fn gone_destinations(&self) -> Map<DestinationId, DisconnectedDestination> {
        self.disconnected_destinations@
    }

    /// Whether `after` holds the same destinations and destination records.
    pub open spec fn unchanged_destinations(self, after: Self) -> bool {
        after.destinations() == self.destinations() && after.gone_destinations() == self.gone_destinations()
    }

    /// Whether `after` is this registry with the destination at `i` moved to
    /// the records of destinations that went away.
    pub open spec fn moved_destination(self, after: Self, i: int) -> bool {
        &&& after.destinations() == self.destinations().remove(i)
        &&& after.gone_destinations() == self.gone_destinations().insert(
            self.destinations()[i].id,
            DisconnectedDestination { id: self.destinations()[i].id, name: self.destinations()[i].name },
        )
    }

    /// Whether the destination at `i` is the first whose handle equals
    /// `destination`.
    pub open spec fn first_destination_with(self, i: int, destination: &MidiOut) -> bool
        where MidiOut: PartialEqSpec,
    {
        &&& self.destinations()[i].destination.eq_spec(destination)
        &&& forall|j: int| 0 <= j < i ==> !(#[trigger] self.destinations()[j]).destination.eq_spec(destination)
    }

    pub open spec fn wf(&self) -> bool {
        &&& sorted_by_name(source_names(self.sources()))
        &&& sorted_by_name(destination_names(self.destinations()))
        &&& forall|i: int, j: int|
            0 <= i < j < self.sources().len() ==> (#[trigger] self.sources()[i]).id
                != (#[trigger] self.sources()[j]).id
        &&& forall|i: int, j: int|
            0 <= i < j < self.destinations().len() ==> (#[trigger] self.destinations()[i]).id
                != (#[trigger] self.destinations()[j]).id
        &&& forall|i: int|
            0 <= i < self.sources().len() ==> !self.gone_sources().contains_key(
                (#[trigger] self.sources()[i]).id,
            )
        &&& forall|i: int|
            0 <= i < self.destinations().len() ==> !self.gone_destinations().contains_key(
                (#[trigger] self.destinations()[i]).id,
            )
    }

    /// An empty registry.
    pub fn new() -> (r: Endpoints<MidiIn, MidiOut>)
        ensures
            r.wf(),
            r.sources() == Seq::<ConnectedSource<MidiIn>>::empty(),
            r.destinations() == Seq::<ConnectedDestination<MidiOut>>::empty(),
            r.gone_sources() == Map::<SourceId, DisconnectedSource>::empty(),
            r.gone_destinations() == Map::<DestinationId, DisconnectedDestination>::empty(),
    {
        Endpoints {
            connected_sources: Vec::new(),
            connected_destinations: Vec::new(),
            disconnected_sources: HashMap::new(),
            disconnected_destinations: HashMap::new(),
        }
    }

    /// The connected sources, sorted by name.
    pub fn connected_sources(&self) -> (r: Vec<&ConnectedSource<MidiIn>>)
        requires
            self.wf(),
        ensures
            r@.len() == self.sources().len(),
            forall|i: int| 0 <= i < r@.len() ==> *(#[trigger] r@[i]) == self.sources()[i],
            forall|i: int| 0 <= i < r@.len() - 1 ==> name_le((#[trigger] r@[i]).name@, r@[i + 1].name@),
            forall|i: int, j: int|
                0 <= i < j < r@.len() ==> name_le((#[trigger] r@[i]).name@, (#[trigger] r@[j]).name@),
    {
        let mut r: Vec<&ConnectedSource<MidiIn>> = Vec::new();
        let mut i: usize = 0;
        while i < self.connected_sources.len()
            invariant
                i <= self.sources().len(),
                r@.len() == i,
                forall|k: int| 0 <= k < i ==> *(#[trigger] r@[k]) == self.sources()[k],
            decreases self.sources().len() - i,
        {
            r.push(&self.connected_sources[i]);
            i = i + 1;
        }
        assert forall|k: int| 0 <= k < r@.len() - 1 implies name_le((#[trigger] r@[k]).name@, r@[k + 1].name@) by {
            assert(source_names(self.sources())[k] == self.sources()[k].name@);
            assert(source_names(self.sources())[k + 1] == self.sources()[k + 1].name@);
        }
        proof {
            lemma_sorted_pairwise(source_names(self.sources()));
            assert forall|i: int, j: int| 0 <= i < j < r@.len() implies name_le(
                (#[trigger] r@[i]).name@,
                (#[trigger] r@[j]).name@,
            ) by {
                assert(source_names(self.sources())[i] == self.sources()[i].name@);
                assert(source_names(self.sources())[j] == self.sources()[j].name@);
            }
        }
        r
    }

    /// The position of the connected source with this id, if any.
    fn source_position(&self, id: SourceId) -> (r: Option<usize>)
        ensures
            r is Some <==> has_source_id(self.sources(), id),
            r is Some ==> r->Some_0 < self.sources().len() && self.sources()[r->Some_0 as int].id == id,
    {
        let mut i: usize = 0;
        while i < self.connected_sources.len()
            invariant
                i <= self.sources().len(),
                forall|k: int| 0 <= k < i ==> (#[trigger] self.sources()[k]).id != id,
            decreases self.sources().len() - i,
        {
            if self.connected_sources[i].id == id {
                return Some(i);
            }
            i = i + 1;
        }
        None
    }

    /// Moves the first connected source whose handle equals `source` to the
    /// records of sources that went away, and returns it; `None`, with
    /// nothing changed, where no handle equals it.
    pub fn remove_source(&mut self, source: MidiIn) -> (r: Option<ConnectedSource<MidiIn>>)
        requires
            old(self).wf(),
        ensures
            final(self).wf(),
            final(self).destinations() == old(self).destinations(),
            final(self).gone_destinations() == old(self).gone_destinations(),
            r is None ==> final(self).sources() == old(self).sources() && final(self).gone_sources()
                == old(self).gone_sources(),
            r is None && MidiIn::obeys_eq_spec() ==> forall|i: int|
                0 <= i < old(self).sources().len() ==> !(#[trigger] old(self).sources()[i]).source.eq_spec(&source),
            r is Some ==> exists|i: int|
                0 <= i < old(self).sources().len() && r->Some_0 == #[trigger] old(self).sources()[i]
                    && final(self).sources() == old(self).sources().remove(i)
                    && (MidiIn::obeys_eq_spec() ==> old(self).sources()[i].source.eq_spec(&source)
                        && forall|j: int| 0 <= j < i ==> !(#[trigger] old(self).sources()[j]).source.eq_spec(&source)),
            r is Some ==> final(self).gone_sources() == old(self).gone_sources().insert(
                r->Some_0.id,
                DisconnectedSource { id: r->Some_0.id, name: r->Some_0.name },
            ),
    {
        let ghost before = self.connected_sources@;
        let i = match self.find_source(&source) {
            Some(i) => i,
            None => return None,
        };
        let removed = self.connected_sources.remove(i);
        let ghost after = self.connected_sources@;
        assert(after == before.remove(i as int));
        assert forall|k: int| 0 <= k < after.len() - 1 implies name_le(
            #[trigger] source_names(after)[k],
            source_names(after)[k + 1],
        ) by {
            assert(source_names(after)[k] == after[k].name@);
            assert(source_names(after)[k + 1] == after[k + 1].name@);
            if k + 1 < i {
                assert(source_names(before)[k] == before[k].name@);
                assert(source_names(before)[k + 1] == before[k + 1].name@);
            } else if k + 1 == i {
                assert(source_names(before)[k] == before[k].name@);
                assert(source_names(before)[k + 1] == before[k + 1].name@);
                assert(source_names(before)[k + 2] == before[k + 2].name@);
                lemma_name_le_transitive(before[k].name@, before[k + 1].name@, before[k + 2].name@);
            } else {
                assert(source_names(before)[k + 1] == before[k + 1].name@);
                assert(source_names(before)[k + 2] == before[k + 2].name@);
            }
        }
        assert forall|a: int, b: int| 0 <= a < b < after.len() implies (#[trigger] after[a]).id
            != (#[trigger] after[b]).id by {
            let a0 = if a < i { a } else { a + 1 };
            let b0 = if b < i { b } else { b + 1 };
            assert(after[a] == before[a0] && after[b] == before[b0]);
        }
        assert forall|k: int| 0 <= k < after.len() implies (#[trigger] after[k]).id != removed.id by {
            let k0 = if k < i { k } else { k + 1 };
            assert(after[k] == before[k0]);
        }
        let name = removed.name.clone();
        self.disconnected_sources.insert(removed.id, DisconnectedSource { id: removed.id, name });
        Some(removed)
    }

    /// The position of the first connected source whose handle equals
    /// `source`.
    fn find_source(&self, source: &MidiIn) -> (r: Option<usize>)
        ensures
            r is Some ==> r->Some_0 < self.sources().len(),
            r is Some && MidiIn::obeys_eq_spec() ==> self.sources()[r->Some_0 as int].source.eq_spec(source)
                && forall|j: int| 0 <= j < r->Some_0 ==> !(#[trigger] self.sources()[j]).source.eq_spec(source),
            r is None && MidiIn::obeys_eq_spec() ==> forall|j: int|
                0 <= j < self.sources().len() ==> !(#[trigger] self.sources()[j]).source.eq_spec(source),
    {
        let mut i: usize = 0;
        while i < self.connected_sources.len()
            invariant
                i <= self.sources().len(),
                MidiIn::obeys_eq_spec() ==> forall|j: int| 0 <= j < i ==> !(#[trigger] self.sources()[j]).source.eq_spec(source),
            decreases self.sources().len() - i,
        {
            if self.connected_sources[i].source == *source {
                return Some(i);
            }
            i = i + 1;
        }
        None
    }

    /// The handle of the connected source with this id.
    pub fn get_source(&self, source_id: SourceId) -> (r: Option<&MidiIn>)
        ensures
            r is Some <==> has_source_id(self.sources(), source_id),
            r is Some ==> exists|i: int|
                0 <= i < self.sources().len() && (#[trigger] self.sources()[i]).id == source_id
                    && *r->Some_0 == self.sources()[i].source,
    {
        match self.source_position(source_id) {
            Some(i) => Some(&self.connected_sources[i].source),
            None => None,
        }
    }

    /// Registers a connected source. An id that is connected already keeps
    /// its first name and handle; otherwise the source takes its place in
    /// name order and any record of it having gone away is dropped.
    pub fn add_source(&mut self, id: SourceId, name: String, source: MidiIn)
        requires
            old(self).wf(),
        ensures
            final(self).wf(),
            final(self).destinations() == old(self).destinations(),
            final(self).gone_destinations() == old(self).gone_destinations(),
            has_source_id(final(self).sources(), id),
            has_source_id(old(self).sources(), id) ==> final(self).sources() == old(self).sources()
                && final(self).gone_sources() == old(self).gone_sources(),
            !has_source_id(old(self).sources(), id) ==> final(self).gone_sources()
                == old(self).gone_sources().remove(id) && exists|p: int|
                0 <= p <= old(self).sources().len() && final(self).sources()
                    == old(self).sources().insert(p, ConnectedSource { id, name, source }),
    {
        if self.source_position(id).is_some() {
            return;
        }
        let ghost before = self.connected_sources@;
        let mut p: usize = 0;
        while p < self.connected_sources.len() && names_in_order(
            self.connected_sources[p].name.as_str(),
            name.as_str(),
        )
            invariant
                self.connected_sources@ == before,
                p <= before.len(),
                forall|k: int| 0 <= k < p ==> name_le((#[trigger] before[k]).name@, name@),
            decreases before.len() - p,
        {
            p = p + 1;
        }
        let ghost entry = ConnectedSource { id, name, source };
        proof {
            if p < before.len() {
                lemma_name_le_total(before[p as int].name@, name@);
            }
        }
        self.disconnected_sources.remove(&id);
        self.connected_sources.insert(p, ConnectedSource { id, name, source });
        let ghost after = self.connected_sources@;
        assert(after == before.insert(p as int, entry));
        assert(after[p as int].id == id);
        assert forall|k: int| 0 <= k < after.len() - 1 implies name_le(
            #[trigger] source_names(after)[k],
            source_names(after)[k + 1],
        ) by {
            assert(source_names(after)[k] == after[k].name@);
            assert(source_names(after)[k + 1] == after[k + 1].name@);
            if k + 1 < p {
                assert(source_names(before)[k] == before[k].name@);
                assert(source_names(before)[k + 1] == before[k + 1].name@);
            } else if k + 1 == p {
            } else if k == p {
            } else {
                assert(source_names(before)[k - 1] == before[k - 1].name@);
                assert(source_names(before)[k] == before[k].name@);
            }
        }
    }

    /// The connected destinations, sorted by name.
    pub fn connected_destinations(&self) -> (r: Vec<&ConnectedDestination<MidiOut>>)
        requires
            self.wf(),
        ensures
            r@.len() == self.destinations().len(),
            forall|i: int| 0 <= i < r@.len() ==> *(#[trigger] r@[i]) == self.destinations()[i],
            forall|i: int| 0 <= i < r@.len() - 1 ==> name_le((#[trigger] r@[i]).name@, r@[i + 1].name@),
            forall|i: int, j: int|
                0 <= i < j < r@.len() ==> name_le((#[trigger] r@[i]).name@, (#[trigger] r@[j]).name@),
    {
        let mut r: Vec<&ConnectedDestination<MidiOut>> = Vec::new();
        let mut i: usize = 0;
        while i < self.connected_destinations.len()
            invariant
                i <= self.destinations().len(),
                r@.len() == i,
                forall|k: int| 0 <= k < i ==> *(#[trigger] r@[k]) == self.destinations()[k],
            decreases self.destinations().len() - i,
        {
            r.push(&self.connected_destinations[i]);
            i = i + 1;
        }
        assert forall|k: int| 0 <= k < r@.len() - 1 implies name_le((#[trigger] r@[k]).name@, r@[k + 1].name@) by {
            assert(destination_names(self.destinations())[k] == self.destinations()[k].name@);
            assert(destination_names(self.destinations())[k + 1] == self.destinations()[k + 1].name@);
        }
        proof {
            lemma_sorted_pairwise(destination_names(self.destinations()));
            assert forall|i: int, j: int| 0 <= i < j < r@.len() implies name_le(
                (#[trigger] r@[i]).name@,
                (#[trigger] r@[j]).name@,
            ) by {
                assert(destination_names(self.destinations())[i] == self.destinations()[i].name@);
                assert(destination_names(self.destinations())[j] == self.destinations()[j].name@);
            }
        }
        r
    }

    /// The position of the connected destination with this id, if any.
    fn destination_position(&self, id: DestinationId) -> (r: Option<usize>)
        ensures
            r is Some <==> has_destination_id(self.destinations(), id),
            r is Some ==> r->Some_0 < self.destinations().len() && self.destinations()[r->Some_0 as int].id == id,
    {
        let mut i: usize = 0;
        while i < self.connected_destinations.len()
            invariant
                i <= self.destinations().len(),
                forall|k: int| 0 <= k < i ==> (#[trigger] self.destinations()[k]).id != id,
            decreases self.destinations().len() - i,
        {
            if self.connected_destinations[i].id == id {
                return Some(i);
            }
            i = i + 1;
        }
        None
    }

    /// Moves the first connected destination whose handle equals
    /// `destination` to the records of destinations that went away, and
    /// returns it; `None`, with nothing changed, where no handle equals it.
    fn take_destination(&mut self, destination: MidiOut) -> (r: Option<ConnectedDestination<MidiOut>>)
        requires
            old(self).wf(),
        ensures
            final(self).wf(),
            final(self).sources() == old(self).sources(),
            final(self).gone_sources() == old(self).gone_sources(),
            r is None ==> final(self).destinations() == old(self).destinations() && final(self).gone_destinations()
                == old(self).gone_destinations(),
            r is None && MidiOut::obeys_eq_spec() ==> forall|i: int|
                0 <= i < old(self).destinations().len() ==> !(#[trigger] old(self).destinations()[i]).destination.eq_spec(&destination),
            r is Some ==> exists|i: int|
                0 <= i < old(self).destinations().len() && r->Some_0 == #[trigger] old(self).destinations()[i]
                    && final(self).destinations() == old(self).destinations().remove(i)
                    && (MidiOut::obeys_eq_spec() ==> old(self).destinations()[i].destination.eq_spec(&destination)
                        && forall|j: int| 0 <= j < i ==> !(#[trigger] old(self).destinations()[j]).destination.eq_spec(&destination)),
            r is Some ==> final(self).gone_destinations() == old(self).gone_destinations().insert(
                r->Some_0.id,
                DisconnectedDestination { id: r->Some_0.id, name: r->Some_0.name },
            ),
    {
        let ghost before = self.connected_destinations@;
        let i = match self.find_destination(&destination) {
            Some(i) => i,
            None => return None,
        };
        let removed = self.connected_destinations.remove(i);
        let ghost after = self.connected_destinations@;
        assert(after == before.remove(i as int));
        assert forall|k: int| 0 <= k < after.len() - 1 implies name_le(
            #[trigger] destination_names(after)[k],
            destination_names(after)[k + 1],
        ) by {
            assert(destination_names(after)[k] == after[k].name@);
            assert(destination_names(after)[k + 1] == after[k + 1].name@);
            if k + 1 < i {
                assert(destination_names(before)[k] == before[k].name@);
                assert(destination_names(before)[k + 1] == before[k + 1].name@);
            } else if k + 1 == i {
                assert(destination_names(before)[k] == before[k].name@);
                assert(destination_names(before)[k + 1] == before[k + 1].name@);
                assert(destination_names(before)[k + 2] == before[k + 2].name@);
                lemma_name_le_transitive(before[k].name@, before[k + 1].name@, before[k + 2].name@);
            } else {
                assert(destination_names(before)[k + 1] == before[k + 1].name@);
                assert(destination_names(before)[k + 2] == before[k + 2].name@);
            }
        }
        assert forall|a: int, b: int| 0 <= a < b < after.len() implies (#[trigger] after[a]).id
            != (#[trigger] after[b]).id by {
            let a0 = if a < i { a } else { a + 1 };
            let b0 = if b < i { b } else { b + 1 };
            assert(after[a] == before[a0] && after[b] == before[b0]);
        }
        assert forall|k: int| 0 <= k < after.len() implies (#[trigger] after[k]).id != removed.id by {
            let k0 = if k < i { k } else { k + 1 };
            assert(after[k] == before[k0]);
        }
        let name = removed.name.clone();
        self.disconnected_destinations.insert(removed.id, DisconnectedDestination { id: removed.id, name });
        Some(removed)
    }

    /// Moves the first connected destination whose handle equals
    /// `destination` to the records of destinations that went away; changes
    /// nothing where no handle equals it.
    pub fn remove_destination(&mut self, destination: MidiOut)
        requires
            old(self).wf(),
        ensures
            final(self).wf(),
            final(self).sources() == old(self).sources(),
            final(self).gone_sources() == old(self).gone_sources(),
            old(self).unchanged_destinations(*final(self)) || exists|i: int|
                0 <= i < old(self).destinations().len() && #[trigger] old(self).moved_destination(*final(self), i)
                    && (MidiOut::obeys_eq_spec() ==> old(self).first_destination_with(i, &destination)),
            MidiOut::obeys_eq_spec() && (exists|i: int|
                0 <= i < old(self).destinations().len() && (#[trigger] old(self).destinations()[i]).destination.eq_spec(
                    &destination,
                )) ==> exists|i: int|
                0 <= i < old(self).destinations().len() && #[trigger] old(self).moved_destination(*final(self), i)
                    && old(self).first_destination_with(i, &destination),
            MidiOut::obeys_eq_spec() && (forall|j: int|
                0 <= j < old(self).destinations().len() ==> !(#[trigger] old(self).destinations()[j]).destination.eq_spec(
                    &destination,
                )) ==> old(self).unchanged_destinations(*final(self)),
    {
        let r = self.take_destination(destination);
        proof {
            match r {
                Some(c) => {
                    let i = choose|i: int|
                        0 <= i < old(self).destinations().len() && c == #[trigger] old(self).destinations()[i]
                            && self.destinations() == old(self).destinations().remove(i)
                            && (MidiOut::obeys_eq_spec() ==> old(self).destinations()[i].destination.eq_spec(&destination)
                                && forall|j: int| 0 <= j < i ==> !(#[trigger] old(self).destinations()[j]).destination.eq_spec(&destination));
                    assert(old(self).moved_destination(*self, i));
                    if MidiOut::obeys_eq_spec() {
                        assert(old(self).first_destination_with(i, &destination));
                    }
                    assert(0 <= i < old(self).destinations().len() && old(self).moved_destination(*self, i)
                        && (MidiOut::obeys_eq_spec() ==> old(self).first_destination_with(i, &destination)));
                },
                None => {
                    assert(old(self).unchanged_destinations(*self));
                },
            }
        }
    }

    /// The position of the first connected destination whose handle equals
    /// `destination`.
    fn find_destination(&self, destination: &MidiOut) -> (r: Option<usize>)
        ensures
            r is Some ==> r->Some_0 < self.destinations().len(),
            r is Some && MidiOut::obeys_eq_spec() ==> self.destinations()[r->Some_0 as int].destination.eq_spec(destination)
                && forall|j: int| 0 <= j < r->Some_0 ==> !(#[trigger] self.destinations()[j]).destination.eq_spec(destination),
            r is None && MidiOut::obeys_eq_spec() ==> forall|j: int|
                0 <= j < self.destinations().len() ==> !(#[trigger] self.destinations()[j]).destination.eq_spec(destination),
    {
        let mut i: usize = 0;
        while i < self.connected_destinations.len()
            invariant
                i <= self.destinations().len(),
                MidiOut::obeys_eq_spec() ==> forall|j: int| 0 <= j < i ==> !(#[trigger] self.destinations()[j]).destination.eq_spec(destination),
            decreases self.destinations().len() - i,
        {
            if self.connected_destinations[i].destination == *destination {
                return Some(i);
            }
            i = i + 1;
        }
        None
    }

    /// Registers a connected destination. An id that is connected already keeps
    /// its first name and handle; otherwise the destination takes its place in
    /// name order and any record of it having gone away is dropped.
    pub fn add_destination(&mut self, id: DestinationId, name: String, destination: MidiOut)
        requires
            old(self).wf(),
        ensures
            final(self).wf(),
            final(self).sources() == old(self).sources(),
            final(self).gone_sources() == old(self).gone_sources(),
            has_destination_id(old(self).destinations(), id) ==> final(self).destinations() == old(self).destinations()
                && final(self).gone_destinations() == old(self).gone_destinations(),
            !has_destination_id(old(self).destinations(), id) ==> final(self).gone_destinations()
                == old(self).gone_destinations().remove(id) && exists|p: int|
                0 <= p <= old(self).destinations().len() && final(self).destinations()
                    == old(self).destinations().insert(p, ConnectedDestination { id, name, destination }),
    {
        if self.destination_position(id).is_some() {
            return;
        }
        let ghost before = self.connected_destinations@;
        let mut p: usize = 0;
        while p < self.connected_destinations.len() && names_in_order(
            self.connected_destinations[p].name.as_str(),
            name.as_str(),
        )
            invariant
                self.connected_destinations@ == before,
                p <= before.len(),
                forall|k: int| 0 <= k < p ==> name_le((#[trigger] before[k]).name@, name@),
            decreases before.len() - p,
        {
            p = p + 1;
        }
        let ghost entry = ConnectedDestination { id, name, destination };
        proof {
            if p < before.len() {
                lemma_name_le_total(before[p as int].name@, name@);
            }
        }
        self.disconnected_destinations.remove(&id);
        self.connected_destinations.insert(p, ConnectedDestination { id, name, destination });
        let ghost after = self.connected_destinations@;
        assert(after == before.insert(p as int, entry));
        assert forall|k: int| 0 <= k < after.len() - 1 implies name_le(
            #[trigger] destination_names(after)[k],
            destination_names(after)[k + 1],
        ) by {
            assert(destination_names(after)[k] == after[k].name@);
            assert(destination_names(after)[k + 1] == after[k + 1].name@);
            if k + 1 < p {
                assert(destination_names(before)[k] == before[k].name@);
                assert(destination_names(before)[k + 1] == before[k + 1].name@);
            } else if k + 1 == p {
            } else if k == p {
            } else {
                assert(destination_names(before)[k - 1] == before[k - 1].name@);
                assert(destination_names(before)[k] == before[k].name@);
            }
        }
    }
}

} // verus!
