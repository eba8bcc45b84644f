use vstd::prelude::*;
use vstd::string::*;
use crate::calendar::{absolute_nanos, nanos_since_epoch, CivilTime};
use crate::error::StatemapError;
use crate::json::{datum_record, datum_text, header_record, header_text, json_quoted, json_string, optional_json};

verus! {

/// A state of the registry: its display color (always absent here: the
/// rendering tool picks one) and its numeric code.
#[derive(Debug)]
pub struct StatemapState {
    pub color: Option<String>,
    pub value: usize,
}

/// One state change: `time` is nanoseconds since the Unix epoch while the
/// timeline is built, and an offset from its start once emitted.
#[derive(Debug)]
pub struct StatemapDatum {
    pub time: u64,
    pub entity: String,
    pub state: u32,
    pub tag: Option<String>,
}

/// A description of an entity, as the statemap format carries it.
#[derive(Debug)]
pub struct StatemapDescription {
    pub entity: String,
    pub description: String,
}

/// The header of a timeline. `start` holds seconds and nanoseconds of the
/// earliest state change once emission has begun, and is empty before.
/// `states` holds the registry in the order of the codes.
#[derive(Debug)]
pub struct StatemapMetadata {
    pub start: Vec<u64>,
    pub title: String,
    pub host: Option<String>,
    pub entity_kind: Option<String>,
    pub states: Vec<(String, StatemapState)>,
}

/// An event of the statemap format, between entities.
#[derive(Debug)]
pub struct StatemapEvent {
    pub time: String,
    pub entity: String,
    pub event: String,
    pub target: Option<String>,
}

/// A tag that the statemap format attaches to a state.
#[derive(Debug)]
pub struct StatemapTag {
    pub state: u32,
    pub tag: String,
}

/// The time at which a timeline starts: its watermark, or 0 while it has no
/// state change.
pub open spec fn start_time(w: Option<u64>) -> u64 {
    match w {
        Some(t) => t,
        None => 0,
    }
}

/// The data record of a state change in a timeline that starts at `w`.
pub open spec fn record_of(c: Change, w: u64) -> Seq<char> {
    datum_text((c.time - w) as nat, c.entity, c.state as nat, c.tag)
}

/// The data records of the timelines from position `p` of entity `e` on:
/// each entity's changes in order, one entity after another.
pub open spec fn records_from(tls: Seq<Seq<Change>>, w: u64, e: int, p: int) -> Seq<Seq<char>>
    decreases tls.len() - e,
{
    if e < 0 || e >= tls.len() {
        Seq::empty()
    } else {
        tls[e].subrange(p, tls[e].len() as int).map_values(|c: Change| record_of(c, w))
            + records_from(tls, w, e + 1, 0)
    }
}

/// The number of state changes of the entities before position `i`.
pub open spec fn events_before(tls: Seq<Seq<Change>>, i: int) -> nat
    decreases i,
{
    if i <= 0 {
        0
    } else {
        events_before(tls, i - 1) + tls[i - 1].len()
    }
}

proof fn lemma_events_before_monotonic(tls: Seq<Seq<Change>>, a: int, b: int)
    requires
        a <= b,
    ensures
        events_before(tls, a) <= events_before(tls, b),
    decreases b - a,
{
    if a < b {
        lemma_events_before_monotonic(tls, a, b - 1);
    }
}

proof fn lemma_record_at(tls: Seq<Seq<Change>>, w: u64, e: int, i: int, j: int)
    requires
        0 <= e <= i < tls.len(),
        0 <= j < tls[i].len(),
    ensures
        events_before(tls, i) - events_before(tls, e) + j < records_from(tls, w, e, 0).len(),
        records_from(tls, w, e, 0)[events_before(tls, i) - events_before(tls, e) + j]
            == record_of(tls[i][j], w),
    decreases i - e,
{
    let head = tls[e].subrange(0, tls[e].len() as int).map_values(|c: Change| record_of(c, w));
    let rest = records_from(tls, w, e + 1, 0);
    assert(records_from(tls, w, e, 0) == head + rest);
    assert(head.len() == tls[e].len());
    if e < i {
        lemma_record_at(tls, w, e + 1, i, j);
        assert(events_before(tls, e + 1) == events_before(tls, e) + tls[e].len());
        let k = events_before(tls, i) - events_before(tls, e + 1) + j;
        lemma_events_before_monotonic(tls, e + 1, i);
        assert((head + rest)[head.len() + k] == rest[k]);
    } else {
        assert(head[j] == record_of(tls[e][j], w));
        assert((head + rest)[j] == head[j]);
    }
}

/// The header record of a timeline that starts at `w`.
pub open spec fn header_of(
    w: u64,
    title: Seq<char>,
    host: Option<Seq<char>>,
    kind: Option<Seq<char>>,
    names: Seq<Seq<char>>,
) -> Seq<char> {
    header_text((w / 1_000_000_000) as nat, (w % 1_000_000_000) as nat, title, host, kind, names)
}

/// What a state change holds, as the contracts see it.
pub struct Change {
    pub time: u64,
    pub entity: Seq<char>,
    pub state: u32,
    pub tag: Option<Seq<char>>,
}

pub open spec fn optional_view(o: Option<String>) -> Option<Seq<char>> {
    match o {
        Some(s) => Some(s@),
        None => None,
    }
}

pub open spec fn change_of(d: StatemapDatum) -> Change {
    Change { time: d.time, entity: d.entity@, state: d.state, tag: optional_view(d.tag) }
}

pub open spec fn changes_of(v: Seq<StatemapDatum>) -> Seq<Change> {
    v.map_values(|d: StatemapDatum| change_of(d))
}

/// The names of a list of named things, in order.
pub open spec fn names_of<T>(v: Seq<(String, T)>) -> Seq<Seq<char>> {
    v.map_values(|p: (String, T)| p.0@)
}

pub open spec fn all_distinct(s: Seq<Seq<char>>) -> bool {
    forall|i: int, j: int| 0 <= i < s.len() && 0 <= j < s.len() && i != j ==> s[i] != s[j]
}

/// The position of `n` in a sequence that holds it once.
pub open spec fn position_of(s: Seq<Seq<char>>, n: Seq<char>) -> int {
    choose|i: int| 0 <= i < s.len() && s[i] == n
}

/// The effect of registering state `state` of `entity` at time `t`, with
/// `tag`, on timeline `m0`, giving `m1`. A state name seen for the first time
/// gets the next code; the watermark becomes the earlier of itself and `t`;
/// the change goes to the end of the entity's timeline, which is added at
/// the end for an entity seen for the first time.
pub open spec fn registered(
    m0: Statemap,
    m1: Statemap,
    entity: Seq<char>,
    state: Seq<char>,
    tag: Option<Seq<char>>,
    t: u64,
) -> bool {
    let names = m1.state_names();
    let change = Change { time: t, entity: entity, state: position_of(names, state) as u32, tag: tag };
    &&& m1.title() == m0.title()
    &&& m1.host() == m0.host()
    &&& m1.entity_kind() == m0.entity_kind()
    &&& names == if m0.state_names().contains(state) {
        m0.state_names()
    } else {
        m0.state_names().push(state)
    }
    &&& names[position_of(names, state)] == state
    &&& m1.watermark() == Some(
        match m0.watermark() {
            Some(w) => if t < w { t } else { w },
            None => t,
        },
    )
    &&& if m0.entities().contains(entity) {
        let k = position_of(m0.entities(), entity);
        &&& m1.entities() == m0.entities()
        &&& m1.timelines() == m0.timelines().update(k, m0.timelines()[k].push(change))
    } else {
        &&& m1.entities() == m0.entities().push(entity)
        &&& m1.timelines() == m0.timelines().push(seq![change])
    }
}

/// One call of `set_state`, as the laws over call sequences see it.
pub struct Registration {
    pub entity: Seq<char>,
    pub state: Seq<char>,
    pub tag: Option<Seq<char>>,
    pub time: u64,
}

/// The distinct names of `s`, in the order of their first occurrence.
pub open spec fn first_seen(s: Seq<Seq<char>>) -> Seq<Seq<char>>
    decreases s.len(),
{
    if s.len() == 0 {
        Seq::empty()
    } else {
        let p = first_seen(s.drop_last());
        if p.contains(s.last()) { p } else { p.push(s.last()) }
    }
}

/// Whether `ms` is the run of timelines that the registrations `regs` make
/// from a fresh one: `ms[k + 1]` is `ms[k]` after `regs[k]`.
pub open spec fn is_history(ms: Seq<Statemap>, regs: Seq<Registration>) -> bool {
    &&& ms.len() == regs.len() + 1
    &&& ms[0].wf()
    &&& ms[0].state_names().len() == 0
    &&& ms[0].timelines().len() == 0
    &&& forall|k: int| 0 <= k < regs.len() ==> #[trigger] registered(
        ms[k],
        ms[k + 1],
        regs[k].entity,
        regs[k].state,
        regs[k].tag,
        regs[k].time,
    )
}

/// An order of `n` entities: each position `0..n` once.
pub open spec fn is_rearrangement(order: Seq<int>, n: int) -> bool {
    &&& order.len() == n
    &&& forall|k: int| 0 <= k < n ==> 0 <= #[trigger] order[k] < n
    &&& forall|k1: int, k2: int| 0 <= k1 < n && 0 <= k2 < n && k1 != k2 ==> order[k1] != order[k2]
    &&& forall|i: int| 0 <= i < n ==> #[trigger] placed(order, i)
}

/// Whether position `i` occurs in `order`.
pub open spec fn placed(order: Seq<int>, i: int) -> bool {
    exists|k: int| 0 <= k < order.len() && #[trigger] order[k] == i
}

/// The timelines taken in the order `order`.
pub open spec fn reordered(tls: Seq<Seq<Change>>, order: Seq<int>) -> Seq<Seq<Change>> {
    Seq::new(order.len(), |k: int| tls[order[k]])
}

/// A timeline being built: the state registry, each entity's state changes
/// in the order they were registered, and the earliest time seen so far.
pub struct Statemap {
    metadata: StatemapMetadata,
    state_data: Vec<(String, Vec<StatemapDatum>)>,
    first_state: Option<u64>,
}

impl Statemap {
    pub closed spec fn title(&self) -> Seq<char> {
        self.metadata.title@
    }

    pub closed spec fn host(&self) -> Option<Seq<char>> {
        optional_view(self.metadata.host)
    }

    pub closed spec fn entity_kind(&self) -> Option<Seq<char>> {
        optional_view(self.metadata.entity_kind)
    }

    /// The state names, each at the position of its code.
    pub closed spec fn state_names(&self) -> Seq<Seq<char>> {
        names_of(self.metadata.states@)
    }

    /// The entities, in the order of their first state change.
    pub closed spec fn entities(&self) -> Seq<Seq<char>> {
        names_of(self.state_data@)
    }

    /// The state changes of each entity, at the entity's position.
    pub closed spec fn timelines(&self) -> Seq<Seq<Change>> {
        self.state_data@.map_values(|p: (String, Vec<StatemapDatum>)| changes_of(p.1@))
    }

    /// The earliest time of all state changes; `None` while there is none.
    pub closed spec fn watermark(&self) -> Option<u64> {
        self.first_state
    }

    /// The `start` field of the header, empty until emission.
    pub closed spec fn header_start(&self) -> Seq<u64> {
        self.metadata.start@
    }

    pub open spec fn is_event(&self, i: int, j: int) -> bool {
        0 <= i < self.timelines().len() && 0 <= j < self.timelines()[i].len()
    }

    pub closed spec fn wf(&self) -> bool {
        &&& self.metadata.start@.len() == 0
        &&& all_distinct(self.state_names())
        &&& forall|i: int| 0 <= i < self.metadata.states@.len() ==> {
            &&& (#[trigger] self.metadata.states@[i]).1.value == i
            &&& self.metadata.states@[i].1.color is None
        }
        &&& self.state_names().len() <= u32::MAX
        &&& all_distinct(self.entities())
        &&& self.timelines().len() == self.entities().len()
        &&& forall|i: int| 0 <= i < self.timelines().len() ==> self.timelines()[i].len() > 0
        &&& forall|i: int, j: int| #[trigger] self.is_event(i, j) ==> {
            &&& self.timelines()[i][j].entity == self.entities()[i]
            &&& self.timelines()[i][j].state < self.state_names().len()
        }
        &&& self.first_state is None <==> self.timelines().len() == 0
        &&& self.first_state matches Some(w) ==> {
            &&& forall|i: int, j: int| #[trigger] self.is_event(i, j) ==> w <= self.timelines()[i][j].time
            &&& exists|i: int, j: int| #[trigger] self.is_event(i, j) && self.timelines()[i][j].time == w
        }
    }
    /// An empty timeline with the given header fields.
    pub fn new(title: &str, host: Option<String>, entity_kind: Option<String>) -> (r: Statemap)
        ensures
            r.wf(),
            r.title() == title@,
            r.host() == optional_view(host),
            r.entity_kind() == optional_view(entity_kind),
            r.state_names().len() == 0,
            r.entities().len() == 0,
            r.timelines().len() == 0,
            r.watermark() is None,
    {
        let r = Statemap {
            metadata: StatemapMetadata {
                start: Vec::new(),
                title: title.to_owned(),
                host,
                entity_kind,
                states: Vec::new(),
            },
            state_data: Vec::new(),
            first_state: None,
        };
        assert(r.state_names() =~= Seq::empty());
        assert(r.entities() =~= Seq::empty());
        assert(r.timelines() =~= Seq::empty());
        r
    }

    /// The number of registered state names.
    pub fn state_count(&self) -> (r: usize)
        ensures
            r == self.state_names().len(),
    {
        self.metadata.states.len()
    }

    /// The code of a registered state name.
    fn find_state(&self, name: &String) -> (r: Option<usize>)
        ensures
            r matches Some(i) ==> i < self.state_names().len() && self.state_names()[i as int] == name@,
            r is None ==> !self.state_names().contains(name@),
    {
        let mut i: usize = 0;
        while i < self.metadata.states.len()
            invariant
                i <= self.metadata.states@.len(),
                forall|k: int| 0 <= k < i ==> self.state_names()[k] != name@,
            decreases self.metadata.states@.len() - i,
        {
            if self.metadata.states[i].0 == *name {
                return Some(i);
            }
            i = i + 1;
        }
        None
    }

    /// The position of an entity that has state changes.
    fn find_entity(&self, name: &String) -> (r: Option<usize>)
        ensures
            r matches Some(i) ==> i < self.entities().len() && self.entities()[i as int] == name@,
            r is None ==> !self.entities().contains(name@),
    {
        let mut i: usize = 0;
        while i < self.state_data.len()
            invariant
                i <= self.state_data@.len(),
                forall|k: int| 0 <= k < i ==> self.entities()[k] != name@,
            decreases self.state_data@.len() - i,
        {
            if self.state_data[i].0 == *name {
                return Some(i);
            }
            i = i + 1;
        }
        None
    }

    /// Puts `entity_name` into state `state_name` at the moment `datetime`.
    ///
    /// A state name seen for the first time gets the next code, the number of
    /// names seen before it. The watermark becomes the earlier of itself and
    /// the new time. The change goes to the end of the entity's timeline; an
    /// entity seen for the first time gets a timeline at the end.
    pub fn set_state(
        &mut self,
        entity_name: &str,
        state_name: &str,
        tag: Option<&str>,
        datetime: CivilTime,
    ) -> (r: Result<(), StatemapError>)
        requires
            old(self).wf(),
            old(self).state_names().len() < u32::MAX,
        ensures
            final(self).wf(),
            r is Ok <==> absolute_nanos(datetime) is Some,
            r is Err ==> r == Err::<(), StatemapError>(StatemapError::InvalidTimestamp)
                && *final(self) == *old(self),
            r is Ok ==> registered(
                *old(self),
                *final(self),
                entity_name@,
                state_name@,
                match tag {
                    Some(s) => Some(s@),
                    None => None,
                },
                absolute_nanos(datetime)->0,
            ),
    {
        let ts = match nanos_since_epoch(&datetime) {
            Some(ts) => ts,
            None => return Err(StatemapError::InvalidTimestamp),
        };
        let ename = entity_name.to_owned();
        let sname = state_name.to_owned();
        let t: Option<String> = match tag {
            Some(s) => Some(s.to_owned()),
            None => None,
        };
        let ghost old_names = self.state_names();
        let code = match self.find_state(&sname) {
            Some(i) => i,
            None => {
                let len = self.metadata.states.len();
                self.metadata.states.push((sname, StatemapState { color: None, value: len }));
                assert(self.state_names() =~= old_names.push(state_name@));
                assert forall|i: int| 0 <= i < self.metadata.states@.len() implies {
                    &&& (#[trigger] self.metadata.states@[i]).1.value == i
                    &&& self.metadata.states@[i].1.color is None
                } by {
                    if i < len {
                        assert(old(self).metadata.states@[i] == self.metadata.states@[i]);
                    }
                }
                len
            },
        };
        let names = Ghost(self.state_names());
        assert(names@[code as int] == state_name@);
        assert(position_of(names@, state_name@) == code) by {
            let p = position_of(names@, state_name@);
            assert(0 <= p < names@.len() && names@[p] == state_name@);
        }
        let new_first = match self.first_state {
            Some(w) => if ts < w { ts } else { w },
            None => ts,
        };
        self.first_state = Some(new_first);
        let datum = StatemapDatum { time: ts, entity: ename.clone(), state: code as u32, tag: t };
        let ghost old_entities = self.entities();
        let ghost old_timelines = self.timelines();
        match self.find_entity(&ename) {
            Some(k) => {
                assert(position_of(old_entities, entity_name@) == k) by {
                    let p = position_of(old_entities, entity_name@);
                    assert(0 <= p < old_entities.len() && old_entities[p] == entity_name@);
                }
                let mut entry = (String::new(), Vec::new());
                std::mem::swap(&mut entry, &mut self.state_data[k]);
                entry.1.push(datum);
                std::mem::swap(&mut entry, &mut self.state_data[k]);
                assert(self.entities() =~= old_entities);
                assert(changes_of(self.state_data@[k as int].1@) =~= old_timelines[k as int].push(change_of(datum)));
                assert(self.timelines() =~= old_timelines.update(k as int, old_timelines[k as int].push(change_of(datum))));
                assert(self.is_event(k as int, old_timelines[k as int].len() as int));
                proof {
                    assert forall|i: int, j: int| #[trigger] self.is_event(i, j) implies {
                        &&& self.timelines()[i][j].entity == self.entities()[i]
                        &&& self.timelines()[i][j].state < self.state_names().len()
                        &&& new_first <= self.timelines()[i][j].time
                    } by {
                        if !(i == k as int && j == old_timelines[k as int].len() as int) {
                            assert(old(self).is_event(i, j));
                        }
                    };
                    assert forall|i: int| 0 <= i < self.timelines().len() implies self.timelines()[i].len() > 0 by {
                        if i != k as int {
                            assert(old(self).is_event(i, 0));
                        }
                    };
                    if new_first != ts {
                        let w = old(self).first_state->0;
                        let (i, j) = choose|i: int, j: int|
                            #[trigger] old(self).is_event(i, j) && old(self).timelines()[i][j].time == w;
                        assert(self.is_event(i, j));
                    }
                }
            },
            None => {
                let mut list = Vec::new();
                list.push(datum);
                self.state_data.push((ename, list));
                assert(self.entities() =~= old_entities.push(entity_name@));
                assert(changes_of(list@) =~= seq![change_of(datum)]);
                assert(self.timelines() =~= old_timelines.push(seq![change_of(datum)]));
                assert(self.is_event(old_timelines.len() as int, 0));
                proof {
                    assert forall|i: int, j: int| #[trigger] self.is_event(i, j) implies {
                        &&& self.timelines()[i][j].entity == self.entities()[i]
                        &&& self.timelines()[i][j].state < self.state_names().len()
                        &&& new_first <= self.timelines()[i][j].time
                    } by {
                        if !(i == old_timelines.len() as int && j == 0) {
                            assert(old(self).is_event(i, j));
                        }
                    };
                    assert forall|i: int| 0 <= i < self.timelines().len() implies self.timelines()[i].len() > 0 by {
                        if i != old_timelines.len() as int {
                            assert(old(self).is_event(i, 0));
                        }
                    };
                    if new_first != ts {
                        let w = old(self).first_state->0;
                        let (i, j) = choose|i: int, j: int|
                            #[trigger] old(self).is_event(i, j) && old(self).timelines()[i][j].time == w;
                        assert(self.is_event(i, j));
                    }
                }
            },
        }
        Ok(())
    }
    /// The header record that emission starts with.
    pub open spec fn header(&self) -> Seq<char> {
        header_of(
            start_time(self.watermark()),
            self.title(),
            self.host(),
            self.entity_kind(),
            self.state_names(),
        )
    }

    /// What emission yields when the entities come in the order `order`:
    /// the header, then each entity's state changes as data records, its
    /// time an offset from the watermark.
    pub open spec fn emission_in(&self, order: Seq<int>) -> Seq<Seq<char>> {
        seq![self.header()] + records_from(
            reordered(self.timelines(), order),
            start_time(self.watermark()),
            0,
            0,
        )
    }

    /// Ends the building of the timeline and hands it to a cursor that emits
    /// it, header first, then the entities in an order left open.
    pub fn into_iter(self) -> (r: IterHelper)
        requires
            self.wf(),
        ensures
            r.wf(),
            r.header_start().len() == 0,
            exists|order: Seq<int>| is_rearrangement(order, self.timelines().len() as int)
                && r.pending() == self.emission_in(order),
    {
        let r = IterHelper {
            header: self.metadata,
            first_state: self.first_state,
            entity_data: self.state_data,
            started: false,
            entity: 0,
            position: 0,
        };
        assert(r.timelines() == self.timelines());
        assert forall|i: int, j: int| 0 <= i < r.timelines().len() && 0 <= j < r.timelines()[i].len()
            implies r.start() <= #[trigger] r.timelines()[i][j].time by {
            assert(self.is_event(i, j));
        }
        let ghost n = self.timelines().len() as int;
        let ghost id = Seq::new(n as nat, |k: int| k);
        proof {
            assert(reordered(self.timelines(), id) =~= self.timelines());
            assert forall|i: int| 0 <= i < n implies #[trigger] placed(id, i) by {
                assert(id[i] == i);
            }
            assert(is_rearrangement(id, n));
            assert(r.pending() == self.emission_in(id));
        }
        r
    }
}

/// A cursor over the records of a timeline: the header first, then the state
/// changes of one entity after another, each entity's in the order they were
/// registered.
pub struct IterHelper {
    header: StatemapMetadata,
    first_state: Option<u64>,
    entity_data: Vec<(String, Vec<StatemapDatum>)>,
    started: bool,
    entity: usize,
    position: usize,
}

impl IterHelper {
    pub closed spec fn timelines(&self) -> Seq<Seq<Change>> {
        self.entity_data@.map_values(|p: (String, Vec<StatemapDatum>)| changes_of(p.1@))
    }

    pub closed spec fn start(&self) -> u64 {
        start_time(self.first_state)
    }

    pub closed spec fn header_text(&self) -> Seq<char> {
        header_of(
            self.start(),
            self.header.title@,
            optional_view(self.header.host),
            optional_view(self.header.entity_kind),
            names_of(self.header.states@),
        )
    }

    /// The records that the following pulls yield, in order.
    pub closed spec fn pending(&self) -> Seq<Seq<char>> {
        if !self.started {
            seq![self.header_text()] + records_from(self.timelines(), self.start(), 0, 0)
        } else {
            records_from(self.timelines(), self.start(), self.entity as int, self.position as int)
        }
    }

    pub closed spec fn wf(&self) -> bool {
        &&& self.entity <= self.timelines().len()
        &&& self.entity < self.timelines().len() ==> self.position <= self.timelines()[self.entity as int].len()
        &&& !self.started ==> self.entity == 0 && self.position == 0
        &&& forall|i: int, j: int| 0 <= i < self.timelines().len() && 0 <= j < self.timelines()[i].len()
            ==> self.start() <= #[trigger] self.timelines()[i][j].time
    }

    /// The `start` field of the header: empty before the first pull.
    pub closed spec fn header_start(&self) -> Seq<u64> {
        self.header.start@
    }

    /// Whether `self` and `other` differ at most in the header's `start`.
    pub closed spec fn same_but_start(&self, other: &IterHelper) -> bool {
        &&& self.header.title == other.header.title
        &&& self.header.host == other.header.host
        &&& self.header.entity_kind == other.header.entity_kind
        &&& self.header.states == other.header.states
        &&& self.first_state == other.first_state
        &&& self.entity_data == other.entity_data
        &&& self.started == other.started
        &&& self.entity == other.entity
        &&& self.position == other.position
    }

    /// Writes the start time into the header: seconds and nanoseconds of the
    /// watermark. Nothing else changes, and so neither do the records still
    /// to come.
    pub fn update_header(&mut self)
        requires
            old(self).wf(),
        ensures
            final(self).header_start() == seq![old(self).start() / 1_000_000_000, old(self).start() % 1_000_000_000],
            final(self).same_but_start(old(self)),
            final(self).wf(),
            final(self).pending() == old(self).pending(),
    {
        let w = match self.first_state {
            Some(t) => t,
            None => 0,
        };
        let sec = w / 1_000_000_000;
        let ns = w % 1_000_000_000;
        self.header.start = vec![sec, ns];
    }

    /// The header record, from the start time written in the header.
    fn header_json(&self) -> (r: Result<String, StatemapError>)
        requires
            self.header.start@.len() == 2,
        ensures
            r matches Ok(s) ==> s@ == header_text(
                self.header.start@[0] as nat,
                self.header.start@[1] as nat,
                self.header.title@,
                optional_view(self.header.host),
                optional_view(self.header.entity_kind),
                names_of(self.header.states@),
            ),
            r is Ok,
    {
        let title = json_string(self.header.title.as_str())?;
        let host = optional_json(&self.header.host)?;
        let kind = optional_json(&self.header.entity_kind)?;
        let ghost names = names_of(self.header.states@);
        let mut quoted: Vec<String> = Vec::new();
        let mut i: usize = 0;
        while i < self.header.states.len()
            invariant
                i <= self.header.states@.len(),
                names == names_of(self.header.states@),
                quoted@.map_values(|n: String| n@) =~= names.take(i as int).map_values(|n: Seq<char>| json_quoted(n)),
            decreases self.header.states@.len() - i,
        {
            let q = json_string(self.header.states[i].0.as_str())?;
            let ghost before = quoted@;
            quoted.push(q);
            i = i + 1;
            assert(names.take(i as int) =~= names.take(i - 1).push(names[i - 1]));
            assert(quoted@.map_values(|n: String| n@) =~= before.map_values(|n: String| n@).push(q@));
        }
        assert(names.take(i as int) =~= names);
        let h = header_record(
            self.header.start[0],
            self.header.start[1],
            title.as_str(),
            host.as_str(),
            kind.as_str(),
            &quoted,
        );
        Ok(h)
    }

    /// The data record of a state change, its time an offset from the start.
    fn datum_json(&self, e: usize, p: usize) -> (r: Result<String, StatemapError>)
        requires
            self.wf(),
            e < self.timelines().len(),
            p < self.timelines()[e as int].len(),
        ensures
            r matches Ok(s) ==> s@ == record_of(self.timelines()[e as int][p as int], self.start()),
            r is Ok,
    {
        let d = &self.entity_data[e].1[p];
        let w = match self.first_state {
            Some(t) => t,
            None => 0,
        };
        assert(change_of(*d) == self.timelines()[e as int][p as int]);
        assert(self.start() <= self.timelines()[e as int][p as int].time);
        let entity = json_string(d.entity.as_str())?;
        let tag = optional_json(&d.tag)?;
        Ok(datum_record(d.time - w, entity.as_str(), d.state, tag.as_str()))
    }

    /// Yields the next record: the header on the first pull, then the data
    /// records; `None` once all are out, for good.
    pub fn next(&mut self) -> (r: Result<Option<String>, StatemapError>)
        requires
            old(self).wf(),
        ensures
            final(self).wf(),
            old(self).pending().len() == 0 ==> r == Ok::<Option<String>, StatemapError>(None)
                && final(self).pending() == old(self).pending(),
            old(self).pending().len() > 0 ==> {
                &&& final(self).pending() == old(self).pending().drop_first()
                &&& r matches Ok(Some(s)) && s@ == old(self).pending()[0]
            },
    {
        if !self.started {
            self.update_header();
            self.started = true;
            let h = self.header_json();
            assert(self.pending() =~= old(self).pending().drop_first());
            return match h {
                Ok(s) => Ok(Some(s)),
                Err(x) => Err(x),
            };
        }
        loop
            invariant
                self.wf(),
                self.started,
                self.pending() == old(self).pending(),
                self.header == old(self).header,
                self.first_state == old(self).first_state,
                self.entity_data == old(self).entity_data,
            decreases self.timelines().len() - self.entity,
        {
            if self.entity >= self.entity_data.len() {
                return Ok(None);
            }
            if self.position < self.entity_data[self.entity].1.len() {
                let rec = self.datum_json(self.entity, self.position);
                proof {
                    let tls = self.timelines();
                    let (e, p) = (self.entity as int, self.position as int);
                    assert(tls[e].subrange(p, tls[e].len() as int) =~=
                        seq![tls[e][p]] + tls[e].subrange(p + 1, tls[e].len() as int));
                    assert(records_from(tls, self.start(), e, p) =~=
                        seq![record_of(tls[e][p], self.start())] + records_from(tls, self.start(), e, p + 1));
                }
                self.position = self.position + 1;
                return match rec {
                    Ok(s) => Ok(Some(s)),
                    Err(x) => Err(x),
                };
            }
            proof {
                let tls = self.timelines();
                let e = self.entity as int;
                assert(tls[e].subrange(self.position as int, tls[e].len() as int) =~= Seq::empty());
                assert(records_from(tls, self.start(), e, self.position as int) =~= records_from(tls, self.start(), e + 1, 0));
            }
            self.entity = self.entity + 1;
            self.position = 0;
        }
    }
}

/// The watermark is the earliest time among all registered state changes,
/// whatever the order of registration; there is none before the first.
pub proof fn lemma_watermark_is_minimum(m: &Statemap)
    requires
        m.wf(),
    ensures
        m.watermark() is None <==> m.timelines().len() == 0,
        m.watermark() matches Some(w) ==> {
            &&& forall|i: int, j: int| #[trigger] m.is_event(i, j) ==> w <= m.timelines()[i][j].time
            &&& exists|i: int, j: int| #[trigger] m.is_event(i, j) && m.timelines()[i][j].time == w
        },
{
}

/// What every well-formed timeline holds: as many timelines as entities,
/// none empty; distinct state names and entity names; each change names its
/// entity and a registered state; the header's `start` still empty.
pub proof fn lemma_well_formed(m: &Statemap)
    requires
        m.wf(),
    ensures
        m.timelines().len() == m.entities().len(),
        all_distinct(m.state_names()),
        all_distinct(m.entities()),
        m.state_names().len() <= u32::MAX,
        m.header_start().len() == 0,
        forall|i: int| 0 <= i < m.timelines().len() ==> m.timelines()[i].len() > 0,
        forall|i: int, j: int| #[trigger] m.is_event(i, j) ==> {
            &&& m.timelines()[i][j].entity == m.entities()[i]
            &&& m.timelines()[i][j].state < m.state_names().len()
        },
{
}

proof fn lemma_history_prefix(ms: Seq<Statemap>, regs: Seq<Registration>, n: int)
    requires
        is_history(ms, regs),
        forall|k: int| 0 <= k <= regs.len() ==> (#[trigger] ms[k]).wf(),
        0 <= n <= regs.len(),
    ensures
        ms[n].state_names() == first_seen(regs.take(n).map_values(|r: Registration| r.state)),
        n == 0 ==> ms[n].watermark() is None,
        n > 0 ==> (ms[n].watermark() matches Some(w) && (exists|k: int| 0 <= k < n && #[trigger] regs[k].time == w)
            && forall|k: int| 0 <= k < n ==> w <= #[trigger] regs[k].time),
    decreases n,
{
    let names = regs.take(n).map_values(|r: Registration| r.state);
    if n == 0 {
        assert(names =~= Seq::<Seq<char>>::empty());
        lemma_watermark_is_minimum(&ms[0]);
    } else {
        lemma_history_prefix(ms, regs, n - 1);
        assert(names.drop_last() =~= regs.take(n - 1).map_values(|r: Registration| r.state));
        let p = n - 1;
        assert(registered(ms[p], ms[p + 1], regs[p].entity, regs[p].state, regs[p].tag, regs[p].time));
        assert(ms[p + 1] == ms[n]);
        let t = regs[n - 1].time;
        if n - 1 > 0 {
            let w = ms[n - 1].watermark()->0;
            let k0 = choose|k: int| 0 <= k < n - 1 && #[trigger] regs[k].time == w;
            if t < w {
                assert(regs[n - 1].time == t);
            } else {
                assert(regs[k0].time == w);
            }
        } else {
            assert(regs[0].time == t);
        }
    }
}

/// After any sequence of registrations on a fresh timeline, the state names
/// are those registered, each at the position of its first registration;
/// and the watermark is the least time registered, `None` for none.
pub proof fn lemma_history(ms: Seq<Statemap>, regs: Seq<Registration>)
    requires
        is_history(ms, regs),
        forall|k: int| 0 <= k <= regs.len() ==> (#[trigger] ms[k]).wf(),
    ensures
        ms.last().state_names() == first_seen(regs.map_values(|r: Registration| r.state)),
        regs.len() == 0 ==> ms.last().watermark() is None,
        regs.len() > 0 ==> (ms.last().watermark() matches Some(w)
            && (exists|k: int| 0 <= k < regs.len() && #[trigger] regs[k].time == w)
            && forall|k: int| 0 <= k < regs.len() ==> w <= #[trigger] regs[k].time),
{
    lemma_history_prefix(ms, regs, regs.len() as int);
    assert(regs.take(regs.len() as int) =~= regs);
}

/// Two sequences of registrations with the same times, in whatever order,
/// leave the same watermark.
pub proof fn lemma_watermark_order_free(
    ms1: Seq<Statemap>,
    regs1: Seq<Registration>,
    ms2: Seq<Statemap>,
    regs2: Seq<Registration>,
)
    requires
        is_history(ms1, regs1),
        forall|k: int| 0 <= k <= regs1.len() ==> (#[trigger] ms1[k]).wf(),
        is_history(ms2, regs2),
        forall|k: int| 0 <= k <= regs2.len() ==> (#[trigger] ms2[k]).wf(),
        regs1.map_values(|r: Registration| r.time).to_multiset()
            =~= regs2.map_values(|r: Registration| r.time).to_multiset(),
    ensures
        ms1.last().watermark() == ms2.last().watermark(),
{
    broadcast use vstd::seq_lib::group_to_multiset_ensures;
    lemma_history(ms1, regs1);
    lemma_history(ms2, regs2);
    let t1 = regs1.map_values(|r: Registration| r.time);
    let t2 = regs2.map_values(|r: Registration| r.time);
    assert(t1.len() == t1.to_multiset().len());
    assert(t2.len() == t2.to_multiset().len());
    if regs1.len() > 0 {
        let w1 = ms1.last().watermark()->0;
        let w2 = ms2.last().watermark()->0;
        let k1 = choose|k: int| 0 <= k < regs1.len() && #[trigger] regs1[k].time == w1;
        let k2 = choose|k: int| 0 <= k < regs2.len() && #[trigger] regs2[k].time == w2;
        assert(t1[k1] == w1);
        assert(t1.contains(w1));
        assert(t1.to_multiset().count(w1) > 0);
        assert(t2.to_multiset().count(w1) > 0);
        assert(t2.contains(w1));
        let j2 = choose|j: int| 0 <= j < t2.len() && t2[j] == w1;
        assert(regs2[j2].time == w1);
        assert(t2[k2] == w2);
        assert(t2.contains(w2));
        assert(t2.to_multiset().count(w2) > 0);
        assert(t1.to_multiset().count(w2) > 0);
        assert(t1.contains(w2));
        let j1 = choose|j: int| 0 <= j < t1.len() && t1[j] == w2;
        assert(regs1[j1].time == w2);
    }
}

/// A timeline without state changes emits its header alone, with start
/// time 0.
pub proof fn lemma_empty_emission(m: &Statemap, order: Seq<int>)
    requires
        m.wf(),
        m.timelines().len() == 0,
        is_rearrangement(order, 0),
    ensures
        m.emission_in(order) == seq![header_of(0, m.title(), m.host(), m.entity_kind(), m.state_names())],
{
    assert(m.emission_in(order) =~= seq![m.header()]);
}

/// The header is the first record of every emission.
pub proof fn lemma_header_first(m: &Statemap, order: Seq<int>)
    ensures
        m.emission_in(order).len() >= 1,
        m.emission_in(order)[0] == m.header(),
{
}

/// With the entities in order `order`, the `j`-th state change of the
/// entity at place `k` is emitted at position
/// `1 + events_before(reordered, k) + j`, as a data record whose time is its
/// own time less the watermark. So each entity's changes come out in the
/// order they were registered, whatever the other entities hold.
pub proof fn lemma_emission_position(m: &Statemap, order: Seq<int>, k: int, j: int)
    requires
        m.wf(),
        is_rearrangement(order, m.timelines().len() as int),
        0 <= k < order.len(),
        0 <= j < m.timelines()[order[k]].len(),
    ensures
        1 + events_before(reordered(m.timelines(), order), k) + j < m.emission_in(order).len(),
        m.emission_in(order)[1 + events_before(reordered(m.timelines(), order), k) + j] == datum_text(
            (m.timelines()[order[k]][j].time - start_time(m.watermark())) as nat,
            m.timelines()[order[k]][j].entity,
            m.timelines()[order[k]][j].state as nat,
            m.timelines()[order[k]][j].tag,
        ),
        start_time(m.watermark()) <= m.timelines()[order[k]][j].time,
{
    let tls = reordered(m.timelines(), order);
    lemma_record_at(tls, start_time(m.watermark()), 0, k, j);
    assert(m.is_event(order[k], j));
}

/// Once a state change is registered, some data record has offset 0,
/// whatever the order of the entities.
pub proof fn lemma_offset_zero_reached(m: &Statemap, order: Seq<int>)
    requires
        m.wf(),
        m.timelines().len() > 0,
        is_rearrangement(order, m.timelines().len() as int),
    ensures
        exists|k: int, j: int| 0 <= k < order.len() && 0 <= j < m.timelines()[order[k]].len()
            && #[trigger] m.timelines()[order[k]][j].time == start_time(m.watermark())
            && m.emission_in(order)[1 + events_before(reordered(m.timelines(), order), k) + j] == datum_text(
                0,
                m.timelines()[order[k]][j].entity,
                m.timelines()[order[k]][j].state as nat,
                m.timelines()[order[k]][j].tag,
            ),
{
    let w = m.watermark()->0;
    let (i, j) = choose|i: int, j: int| #[trigger] m.is_event(i, j) && m.timelines()[i][j].time == w;
    assert(placed(order, i));
    let k = choose|k: int| 0 <= k < order.len() && #[trigger] order[k] == i;
    lemma_emission_position(m, order, k, j);
}

} // verus!
