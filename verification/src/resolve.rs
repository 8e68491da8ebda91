//! Turning the records of a pack into objects: whole records as they are,
//! deltas by applying them to their bases.

use vstd::prelude::*;
use crate::delta::{delta_result, resolve_delta};
use crate::frame::{copy_range, frame, same, write_frame, ObjectKind};
use crate::hash::{digest, sha1_digest};
use crate::object::{encode_object, object_kind, object_payload, Object};
use crate::packfile::{record_views, PackRecord, RecordType, RecordTypeView, RecordView};
use crate::varint::PackError;

verus! {

/// What a resolved object says: its kind, its payload, and the
/// fingerprint of its canonical bytes.
pub struct ResolvedView {
    pub kind: ObjectKind,
    pub data: Seq<u8>,
    pub hash: Seq<u8>,
}

/// An object that came out of a pack, or that the store already held.
#[derive(Debug, Clone)]
pub struct ResolvedObject {
    pub kind: ObjectKind,
    pub data: Vec<u8>,
    pub hash: [u8; 20],
}

impl View for ResolvedObject {
    type V = ResolvedView;

    open spec fn view(&self) -> ResolvedView {
        ResolvedView { kind: self.kind, data: self.data@, hash: self.hash@ }
    }
}

/// The views of a run of objects.
pub open spec fn resolved_views(s: Seq<ResolvedObject>) -> Seq<ResolvedView> {
    s.map_values(|o: ResolvedObject| o@)
}

/// The object of the given kind and payload, under the fingerprint of its
/// framed bytes.
pub open spec fn made(kind: ObjectKind, data: Seq<u8>) -> ResolvedView {
    ResolvedView { kind, data, hash: sha1_digest(frame(kind.word(), data)) }
}

/// The index of the first record in `records[from..limit]` that starts at
/// `offset`.
pub open spec fn find_record(records: Seq<RecordView>, from: int, limit: int, offset: int) -> Option<
    int,
>
    decreases limit - from,
{
    if from >= limit {
        None
    } else if records[from].offset == offset {
        Some(from)
    } else {
        find_record(records, from + 1, limit, offset)
    }
}

/// The index of the first object in `objects[from..]` with the given
/// fingerprint.
pub open spec fn find_object(objects: Seq<ResolvedView>, from: int, hash: Seq<u8>) -> Option<int>
    decreases objects.len() - from,
{
    if from >= objects.len() {
        None
    } else if objects[from].hash == hash {
        Some(from)
    } else {
        find_object(objects, from + 1, hash)
    }
}

/// What a delta makes of its base: an object of the base's kind.
pub open spec fn delta_applied(base: ResolvedView, delta: Seq<u8>) -> Result<
    ResolvedView,
    PackError,
> {
    match delta_result(base.data, delta) {
        Some(out) => Ok(made(base.kind, out)),
        None => Err(PackError::BadDelta),
    }
}

/// The index of the first resolved slot in `state[from..]` whose object
/// has the given fingerprint.
pub open spec fn find_done(state: Seq<Option<ResolvedView>>, from: int, hash: Seq<u8>) -> Option<
    int,
>
    decreases state.len() - from,
{
    if from >= state.len() {
        None
    } else if state[from].is_some() && state[from].unwrap().hash == hash {
        Some(from)
    } else {
        find_done(state, from + 1, hash)
    }
}

/// What a delta makes of a base that is at hand.
pub open spec fn based_on(base: ResolvedView, delta: Seq<u8>) -> Result<
    Option<ResolvedView>,
    PackError,
> {
    match delta_applied(base, delta) {
        Ok(object) => Ok(Some(object)),
        Err(e) => Err(e),
    }
}

/// One try at record `i`, given for every record its object as far as it
/// is resolved (`state`) and the objects `known` from elsewhere: the
/// record's object, or `None` while its base is not resolved yet, or the
/// reason why the pack cannot be decoded.
///
/// A whole record is its own object. A delta by distance takes as base
/// the record that starts that far back, wherever it stands in the run; a
/// distance of zero names the record itself, which is a cycle, and a
/// place where no record starts is a missing base. A delta by fingerprint
/// takes as base the object of any resolved record, or else a known
/// object; while there is neither, it waits.
pub open spec fn attempt(
    records: Seq<RecordView>,
    state: Seq<Option<ResolvedView>>,
    known: Seq<ResolvedView>,
    i: int,
) -> Result<Option<ResolvedView>, PackError> {
    let record = records[i];
    match record.kind {
        RecordTypeView::Whole(kind) => Ok(Some(made(kind, record.data))),
        RecordTypeView::OfsDelta(distance) => if distance == 0 {
            Err(PackError::DeltaCycle)
        } else if distance > record.offset {
            Err(PackError::MissingBase)
        } else {
            match find_record(records, 0, records.len() as int, record.offset - distance) {
                Some(j) => match state[j] {
                    Some(base) => based_on(base, record.data),
                    None => Ok(None),
                },
                None => Err(PackError::MissingBase),
            }
        },
        RecordTypeView::RefDelta(hash) => match find_done(state, 0, hash) {
            Some(j) => based_on(state[j].unwrap(), record.data),
            None => match find_object(known, 0, hash) {
                Some(k) => based_on(known[k], record.data),
                None => Ok(None),
            },
        },
    }
}

/// One pass over the first `k` records in the order of the stream: each
/// record that is not resolved yet is tried, and what it resolves to is at
/// hand for the records after it. The first failure ends the pass.
pub open spec fn sweep(
    records: Seq<RecordView>,
    known: Seq<ResolvedView>,
    state: Seq<Option<ResolvedView>>,
    k: nat,
) -> Result<Seq<Option<ResolvedView>>, PackError>
    decreases k,
{
    if k == 0 {
        Ok(state)
    } else {
        match sweep(records, known, state, (k - 1) as nat) {
            Err(e) => Err(e),
            Ok(s) => if s[k - 1].is_some() {
                Ok(s)
            } else {
                match attempt(records, s, known, k - 1) {
                    Err(e) => Err(e),
                    Ok(Some(object)) => Ok(s.update(k - 1, Some(object))),
                    Ok(None) => Ok(s),
                }
            },
        }
    }
}

/// `rounds` passes over all the records, one after the other.
pub open spec fn sweeps(
    records: Seq<RecordView>,
    known: Seq<ResolvedView>,
    state: Seq<Option<ResolvedView>>,
    rounds: nat,
) -> Result<Seq<Option<ResolvedView>>, PackError>
    decreases rounds,
{
    if rounds == 0 {
        Ok(state)
    } else {
        match sweep(records, known, state, records.len()) {
            Err(e) => Err(e),
            Ok(s) => sweeps(records, known, s, (rounds - 1) as nat),
        }
    }
}

/// Nothing resolved yet, for `n` records.
pub open spec fn unresolved(n: nat) -> Seq<Option<ResolvedView>> {
    Seq::new(n, |i: int| None::<ResolvedView>)
}

/// Every record is resolved.
pub open spec fn all_resolved(state: Seq<Option<ResolvedView>>) -> bool {
    forall|i: int| 0 <= i < state.len() ==> (#[trigger] state[i]).is_some()
}

/// The objects of the records, once all are resolved.
pub open spec fn objects_of(state: Seq<Option<ResolvedView>>) -> Seq<ResolvedView> {
    Seq::new(state.len(), |i: int| state[i].unwrap())
}

/// The objects of all the records of a pack, in the order of the stream.
///
/// The records are passed over as many times as there are records. A pass
/// that resolves nothing changes nothing, so that many passes resolve
/// whatever can be resolved, wherever in the stream a base stands. A
/// record that is still waiting for its base then has none: the base is
/// missing.
pub open spec fn resolve_all(records: Seq<RecordView>, known: Seq<ResolvedView>) -> Result<
    Seq<ResolvedView>,
    PackError,
> {
    match sweeps(records, known, unresolved(records.len()), records.len()) {
        Err(e) => Err(e),
        Ok(state) => if all_resolved(state) {
            Ok(objects_of(state))
        } else {
            Err(PackError::MissingBase)
        },
    }
}

/// The fingerprints that the deltas by fingerprint name as their bases.
pub open spec fn wanted(records: Seq<RecordView>) -> Seq<Seq<u8>>
    decreases records.len(),
{
    if records.len() == 0 {
        Seq::empty()
    } else {
        match records.last().kind {
            RecordTypeView::RefDelta(hash) => wanted(records.drop_last()).push(hash),
            _ => wanted(records.drop_last()),
        }
    }
}

/// A pass that has failed stays failed however far it goes on.
pub proof fn lemma_sweep_fails(
    records: Seq<RecordView>,
    known: Seq<ResolvedView>,
    state: Seq<Option<ResolvedView>>,
    k: nat,
    n: nat,
)
    requires
        k <= n,
        sweep(records, known, state, k) is Err,
    ensures
        sweep(records, known, state, n) == sweep(records, known, state, k),
    decreases n - k,
{
    if k < n {
        lemma_sweep_fails(records, known, state, k, (n - 1) as nat);
    }
}

/// A pass over the first `k` records keeps the number of slots and leaves
/// the slots from `k` on as they were.
pub proof fn lemma_sweep_keeps(
    records: Seq<RecordView>,
    known: Seq<ResolvedView>,
    state: Seq<Option<ResolvedView>>,
    k: nat,
)
    requires
        k <= state.len(),
    ensures
        sweep(records, known, state, k) matches Ok(s) ==> s.len() == state.len() && forall|j: int|
            k <= j < state.len() ==> s[j] == state[j],
    decreases k,
{
    if k > 0 {
        lemma_sweep_keeps(records, known, state, (k - 1) as nat);
    }
}

/// Once a pass changes nothing, no number of passes changes anything.
pub proof fn lemma_sweeps_settled(
    records: Seq<RecordView>,
    known: Seq<ResolvedView>,
    state: Seq<Option<ResolvedView>>,
    rounds: nat,
)
    requires
        sweep(records, known, state, records.len()) == Ok::<Seq<Option<ResolvedView>>, PackError>(
            state,
        ),
    ensures
        sweeps(records, known, state, rounds) == Ok::<Seq<Option<ResolvedView>>, PackError>(state),
    decreases rounds,
{
    if rounds > 0 {
        lemma_sweeps_settled(records, known, state, (rounds - 1) as nat);
    }
}

impl ResolvedObject {
    /// The fingerprint is that of the framed payload.
    pub open spec fn wf(&self) -> bool {
        self@ == made(self.kind, self.data@)
    }

    /// The object of the given kind and payload.
    pub fn new(kind: ObjectKind, data: Vec<u8>) -> (object: ResolvedObject)
        ensures
            object@ == made(kind, data@),
            object.wf(),
    {
        let bytes = write_frame(kind, data.as_slice());
        let hash = digest(bytes.as_slice());
        ResolvedObject { kind, data, hash }
    }

    /// An object of the store as the base of a delta: its kind and its
    /// payload.
    pub fn of_object(object: &Object) -> (base: ResolvedObject)
        ensures
            base@ == made(object_kind(object@), object_payload(object@)),
            base@.hash == sha1_digest(encode_object(object@)),
    {
        ResolvedObject::new(object.kind(), object.payload())
    }

    /// The canonical bytes of the object: its payload under the header of
    /// its kind.
    pub fn frame_bytes(&self) -> (bytes: Vec<u8>)
        ensures
            bytes@ == frame(self.kind.word(), self.data@),
    {
        write_frame(self.kind, self.data.as_slice())
    }
}

/// A slot as its view.
pub open spec fn slot_view(slot: Option<ResolvedObject>) -> Option<ResolvedView> {
    match slot {
        Some(object) => Some(object@),
        None => None,
    }
}

/// The views of a run of slots.
pub open spec fn slot_views(s: Seq<Option<ResolvedObject>>) -> Seq<Option<ResolvedView>> {
    s.map_values(|slot: Option<ResolvedObject>| slot_view(slot))
}

/// Finds the first record that starts at `offset`.
fn search_record(records: &Vec<PackRecord>, offset: usize) -> (r: Option<usize>)
    ensures
        match r {
            Some(j) => j < records@.len() && find_record(
                record_views(records@),
                0,
                records@.len() as int,
                offset as int,
            ) == Some(j as int),
            None => find_record(record_views(records@), 0, records@.len() as int, offset as int)
                .is_none(),
        },
{
    let ghost views = record_views(records@);
    let n = records.len();
    let mut j: usize = 0;
    while j < n
        invariant
            j <= n == records@.len(),
            views == record_views(records@),
            find_record(views, 0, n as int, offset as int) == find_record(
                views,
                j as int,
                n as int,
                offset as int,
            ),
        decreases n - j,
    {
        proof {
            assert(views[j as int] == records@[j as int]@);
        }
        if records[j].offset == offset {
            return Some(j);
        }
        j = j + 1;
    }
    None
}

/// Finds the first object with the given fingerprint.
fn search_object(objects: &Vec<ResolvedObject>, hash: &[u8; 20]) -> (r: Option<usize>)
    ensures
        match r {
            Some(j) => j < objects@.len() && find_object(resolved_views(objects@), 0, hash@)
                == Some(j as int),
            None => find_object(resolved_views(objects@), 0, hash@).is_none(),
        },
{
    let ghost views = resolved_views(objects@);
    let mut j: usize = 0;
    while j < objects.len()
        invariant
            j <= objects@.len(),
            views == resolved_views(objects@),
            find_object(views, 0, hash@) == find_object(views, j as int, hash@),
        decreases objects@.len() - j,
    {
        proof {
            assert(views[j as int] == objects@[j as int]@);
        }
        if same(objects[j].hash.as_slice(), hash.as_slice()) {
            return Some(j);
        }
        j = j + 1;
    }
    None
}

/// Finds the first resolved slot whose object has the given fingerprint.
fn search_done(state: &Vec<Option<ResolvedObject>>, hash: &[u8; 20]) -> (r: Option<usize>)
    ensures
        match r {
            Some(j) => j < state@.len() && state@[j as int].is_some() && find_done(
                slot_views(state@),
                0,
                hash@,
            ) == Some(j as int),
            None => find_done(slot_views(state@), 0, hash@).is_none(),
        },
{
    let ghost views = slot_views(state@);
    let mut j: usize = 0;
    while j < state.len()
        invariant
            j <= state@.len(),
            views == slot_views(state@),
            find_done(views, 0, hash@) == find_done(views, j as int, hash@),
        decreases state@.len() - j,
    {
        proof {
            assert(views[j as int] == slot_view(state@[j as int]));
        }
        match &state[j] {
            Some(object) => {
                if same(object.hash.as_slice(), hash.as_slice()) {
                    return Some(j);
                }
            },
            None => {},
        }
        j = j + 1;
    }
    None
}

/// Applies the delta in `delta` to a base object.
fn apply_to(base: &ResolvedObject, delta: &[u8]) -> (r: Result<Option<ResolvedObject>, PackError>)
    ensures
        match based_on(base@, delta@) {
            Ok(Some(object)) => r matches Ok(Some(o)) && o@ == object,
            Ok(None) => r matches Ok(None),
            Err(e) => r matches Err(f) && f == e,
        },
{
    match resolve_delta(base.data.as_slice(), delta) {
        Ok(out) => Ok(Some(ResolvedObject::new(base.kind, out))),
        Err(e) => Err(e),
    }
}

/// Tries record `i`, given what is resolved so far.
fn attempt_record(
    records: &Vec<PackRecord>,
    state: &Vec<Option<ResolvedObject>>,
    known: &Vec<ResolvedObject>,
    i: usize,
) -> (r: Result<Option<ResolvedObject>, PackError>)
    requires
        i < records@.len(),
        state@.len() == records@.len(),
    ensures
        match attempt(
            record_views(records@),
            slot_views(state@),
            resolved_views(known@),
            i as int,
        ) {
            Ok(Some(object)) => r matches Ok(Some(o)) && o@ == object,
            Ok(None) => r matches Ok(None),
            Err(e) => r matches Err(f) && f == e,
        },
{
    let record = &records[i];
    proof {
        assert(record_views(records@)[i as int] == record@);
    }
    match &record.kind {
        RecordType::Whole(kind) => {
            let d = record.data.as_slice();
            assert(d@.subrange(0, d@.len() as int) =~= d@);
            Ok(Some(ResolvedObject::new(*kind, copy_range(d, 0, d.len()))))
        },
        RecordType::OfsDelta(distance) => {
            if *distance == 0 {
                return Err(PackError::DeltaCycle);
            }
            if *distance > record.offset as u64 {
                return Err(PackError::MissingBase);
            }
            let target = record.offset - *distance as usize;
            match search_record(records, target) {
                Some(j) => {
                    proof {
                        assert(slot_views(state@)[j as int] == slot_view(state@[j as int]));
                    }
                    match &state[j] {
                        Some(base) => apply_to(base, record.data.as_slice()),
                        None => Ok(None),
                    }
                },
                None => Err(PackError::MissingBase),
            }
        },
        RecordType::RefDelta(hash) => {
            match search_done(state, hash) {
                Some(j) => {
                    proof {
                        assert(slot_views(state@)[j as int] == slot_view(state@[j as int]));
                    }
                    match &state[j] {
                        Some(base) => apply_to(base, record.data.as_slice()),
                        None => Ok(None),
                    }
                },
                None => match search_object(known, hash) {
                    Some(k) => {
                        proof {
                            assert(resolved_views(known@)[k as int] == known@[k as int]@);
                        }
                        apply_to(&known[k], record.data.as_slice())
                    },
                    None => Ok(None),
                },
            }
        },
    }
}

/// Resolves every record of a pack. `known` holds the objects from
/// outside the pack that deltas may name as bases. The records are passed
/// over until a pass resolves nothing more; a base may stand anywhere in
/// the stream.
pub fn resolve_pack(records: &Vec<PackRecord>, known: &Vec<ResolvedObject>) -> (r: Result<
    Vec<ResolvedObject>,
    PackError,
>)
    ensures
        match resolve_all(record_views(records@), resolved_views(known@)) {
            Ok(objects) => r matches Ok(found) && resolved_views(found@) == objects
                && found@.len() == records@.len(),
            Err(e) => r matches Err(f) && f == e,
        },
{
    let ghost rs = record_views(records@);
    let ghost ks = resolved_views(known@);
    let n = records.len();
    let mut state: Vec<Option<ResolvedObject>> = Vec::new();
    proof {
        assert(slot_views(state@) =~= unresolved(0));
    }
    while state.len() < n
        invariant
            state@.len() <= n,
            slot_views(state@) == unresolved(state@.len()),
        decreases n - state@.len(),
    {
        let ghost before = slot_views(state@);
        state.push(None);
        proof {
            assert(slot_views(state@) =~= before.push(None::<ResolvedView>));
            assert(before.push(None::<ResolvedView>) =~= unresolved(state@.len()));
        }
    }
    let ghost total = sweeps(rs, ks, unresolved(n as nat), n as nat);
    let mut round: usize = 0;
    let mut going = true;
    while going && round < n
        invariant
            round <= n == records@.len(),
            state@.len() == n,
            rs == record_views(records@),
            ks == resolved_views(known@),
            total == sweeps(rs, ks, unresolved(n as nat), n as nat),
            total == if going {
                sweeps(rs, ks, slot_views(state@), (n - round) as nat)
            } else {
                Ok::<Seq<Option<ResolvedView>>, PackError>(slot_views(state@))
            },
        decreases n - round + if going { 1int } else { 0int },
    {
        let ghost start = slot_views(state@);
        let mut progress = false;
        let mut k: usize = 0;
        while k < n
            invariant
                k <= n == records@.len(),
                state@.len() == n,
                start.len() == n,
                rs == record_views(records@),
                ks == resolved_views(known@),
                round < n,
                total == sweeps(rs, ks, unresolved(n as nat), n as nat),
                total == sweeps(rs, ks, start, (n - round) as nat),
                sweep(rs, ks, start, k as nat) == Ok::<Seq<Option<ResolvedView>>, PackError>(
                    slot_views(state@),
                ),
                !progress ==> slot_views(state@) == start,
            decreases n - k,
        {
            let ghost before = slot_views(state@);
            proof {
                assert(before[k as int] == slot_view(state@[k as int]));
            }
            if state[k].is_none() {
                match attempt_record(records, &state, known, k) {
                    Err(e) => {
                        proof {
                            assert(sweep(rs, ks, start, (k + 1) as nat) == Err::<
                                Seq<Option<ResolvedView>>,
                                PackError,
                            >(e));
                            lemma_sweep_fails(rs, ks, start, (k + 1) as nat, n as nat);
                            assert(sweep(rs, ks, start, n as nat) == Err::<
                                Seq<Option<ResolvedView>>,
                                PackError,
                            >(e));
                            assert(sweeps(rs, ks, start, (n - round) as nat) == Err::<
                                Seq<Option<ResolvedView>>,
                                PackError,
                            >(e));
                        }
                        return Err(e);
                    },
                    Ok(Some(object)) => {
                        let ghost view = object@;
                        state.set(k, Some(object));
                        progress = true;
                        proof {
                            assert(slot_views(state@) =~= before.update(k as int, Some(view)));
                        }
                    },
                    Ok(None) => {},
                }
            }
            k = k + 1;
        }
        proof {
            if !progress {
                lemma_sweeps_settled(rs, ks, start, (n - round) as nat);
            }
        }
        if !progress {
            going = false;
        } else {
            round = round + 1;
        }
    }
    let mut found: Vec<ResolvedObject> = Vec::new();
    let mut i: usize = 0;
    while i < n
        invariant
            i <= n == state@.len(),
            n == records@.len(),
            rs == record_views(records@),
            ks == resolved_views(known@),
            total == sweeps(rs, ks, unresolved(n as nat), n as nat),
            total == Ok::<Seq<Option<ResolvedView>>, PackError>(slot_views(state@)),
            found@.len() == i,
            forall|j: int| 0 <= j < i ==> (#[trigger] slot_views(state@)[j]).is_some(),
            forall|j: int|
                0 <= j < i ==> (#[trigger] found@[j])@ == slot_views(state@)[j].unwrap(),
        decreases n - i,
    {
        proof {
            assert(slot_views(state@)[i as int] == slot_view(state@[i as int]));
        }
        match &state[i] {
            Some(object) => {
                let d = object.data.as_slice();
                assert(d@.subrange(0, d@.len() as int) =~= d@);
                found.push(
                    ResolvedObject {
                        kind: object.kind,
                        data: copy_range(d, 0, d.len()),
                        hash: object.hash,
                    },
                );
            },
            None => {
                return Err(PackError::MissingBase);
            },
        }
        i = i + 1;
    }
    proof {
        assert(resolved_views(found@) =~= objects_of(slot_views(state@)));
    }
    Ok(found)
}

/// The fingerprints that the pack's deltas by fingerprint name as bases,
/// in the order of the stream.
pub fn wanted_bases(records: &Vec<PackRecord>) -> (r: Vec<[u8; 20]>)
    ensures
        crate::commit::hash_views(r@) == wanted(record_views(records@)),
{
    let ghost rs = record_views(records@);
    let mut out: Vec<[u8; 20]> = Vec::new();
    let mut i: usize = 0;
    proof {
        assert(rs.subrange(0, 0) =~= Seq::<RecordView>::empty());
        assert(crate::commit::hash_views(out@) =~= Seq::<Seq<u8>>::empty());
    }
    while i < records.len()
        invariant
            i <= records@.len(),
            rs == record_views(records@),
            crate::commit::hash_views(out@) == wanted(rs.subrange(0, i as int)),
        decreases records@.len() - i,
    {
        let ghost prefix = rs.subrange(0, i + 1);
        proof {
            assert(prefix.drop_last() =~= rs.subrange(0, i as int));
            assert(prefix.last() == records@[i as int]@);
        }
        match &records[i].kind {
            RecordType::RefDelta(hash) => {
                let ghost before = crate::commit::hash_views(out@);
                out.push(*hash);
                proof {
                    assert(crate::commit::hash_views(out@) =~= before.push(hash@));
                }
            },
            _ => {},
        }
        i = i + 1;
    }
    proof {
        assert(rs.subrange(0, i as int) =~= rs);
    }
    out
}

/// A delta that names itself as its base makes the whole pack fail with
/// `DeltaCycle`, where the first pass gets as far as that record.
pub proof fn lemma_self_base_is_cycle(records: Seq<RecordView>, known: Seq<ResolvedView>, i: int)
    requires
        0 <= i < records.len(),
        sweep(records, known, unresolved(records.len()), i as nat) is Ok,
        records[i].kind == RecordTypeView::OfsDelta(0),
    ensures
        resolve_all(records, known) == Err::<Seq<ResolvedView>, PackError>(PackError::DeltaCycle),
{
    let start = unresolved(records.len());
    lemma_sweep_keeps(records, known, start, i as nat);
    assert(sweep(records, known, start, (i + 1) as nat) == Err::<
        Seq<Option<ResolvedView>>,
        PackError,
    >(PackError::DeltaCycle));
    lemma_sweep_fails(records, known, start, (i + 1) as nat, records.len());
}

/// Every resolved slot holds an object under the fingerprint of its own
/// framed bytes.
pub open spec fn all_made(state: Seq<Option<ResolvedView>>) -> bool {
    forall|i: int|
        0 <= i < state.len() && (#[trigger] state[i]).is_some() ==> state[i].unwrap() == made(
            state[i].unwrap().kind,
            state[i].unwrap().data,
        )
}

/// A pass keeps every slot's object under the fingerprint of its framed
/// bytes.
pub proof fn lemma_sweep_made(
    records: Seq<RecordView>,
    known: Seq<ResolvedView>,
    state: Seq<Option<ResolvedView>>,
    k: nat,
)
    requires
        k <= state.len(),
        state.len() == records.len(),
        all_made(state),
    ensures
        sweep(records, known, state, k) matches Ok(s) ==> all_made(s) && s.len() == state.len(),
    decreases k,
{
    if k > 0 {
        lemma_sweep_made(records, known, state, (k - 1) as nat);
        match sweep(records, known, state, (k - 1) as nat) {
            Ok(s) => {
                if s[k - 1].is_none() {
                    match attempt(records, s, known, k - 1) {
                        Ok(Some(object)) => {
                            assert(object == made(object.kind, object.data));
                            let t = s.update(k - 1, Some(object));
                            assert forall|i: int|
                                0 <= i < t.len() && (#[trigger] t[i]).is_some() implies t[i].unwrap()
                                == made(t[i].unwrap().kind, t[i].unwrap().data) by {
                                if i != k - 1 {
                                    assert(t[i] == s[i]);
                                }
                            }
                        },
                        _ => {},
                    }
                }
            },
            Err(_) => {},
        }
    }
}

/// Any number of passes keeps every slot's object under the fingerprint of
/// its framed bytes.
pub proof fn lemma_sweeps_made(
    records: Seq<RecordView>,
    known: Seq<ResolvedView>,
    state: Seq<Option<ResolvedView>>,
    rounds: nat,
)
    requires
        state.len() == records.len(),
        all_made(state),
    ensures
        sweeps(records, known, state, rounds) matches Ok(s) ==> all_made(s) && s.len()
            == state.len(),
    decreases rounds,
{
    if rounds > 0 {
        lemma_sweep_made(records, known, state, records.len());
        match sweep(records, known, state, records.len()) {
            Ok(s) => {
                lemma_sweeps_made(records, known, s, (rounds - 1) as nat);
            },
            Err(_) => {},
        }
    }
}

/// Every object of a decoded pack stands under the fingerprint of its own
/// framed bytes: what is stored under a fingerprint hashes to it. There is
/// one object for each record.
pub proof fn lemma_resolved_are_made(records: Seq<RecordView>, known: Seq<ResolvedView>)
    ensures
        resolve_all(records, known) matches Ok(objects) ==> objects.len() == records.len()
            && forall|i: int|
            0 <= i < objects.len() ==> (#[trigger] objects[i]).hash == sha1_digest(
                frame(objects[i].kind.word(), objects[i].data),
            ),
{
    let start = unresolved(records.len());
    lemma_sweeps_made(records, known, start, records.len());
    match resolve_all(records, known) {
        Ok(objects) => {
            let state = sweeps(records, known, start, records.len()).unwrap();
            assert forall|i: int| 0 <= i < objects.len() implies (#[trigger] objects[i]).hash
                == sha1_digest(frame(objects[i].kind.word(), objects[i].data)) by {
                assert(state[i].is_some());
                assert(objects[i] == state[i].unwrap());
            }
        },
        Err(_) => {},
    }
}

/// An object with the given fingerprint is among `objects`.
pub open spec fn has_hash(objects: Seq<ResolvedView>, hash: Seq<u8>) -> bool {
    exists|j: int| 0 <= j < objects.len() && (#[trigger] objects[j]).hash == hash
}

/// An object with the given fingerprint is in a resolved slot.
pub open spec fn slot_has(state: Seq<Option<ResolvedView>>, hash: Seq<u8>) -> bool {
    exists|j: int|
        0 <= j < state.len() && (#[trigger] state[j]).is_some() && state[j].unwrap().hash == hash
}

/// Every resolved delta by fingerprint has its base at hand: in a resolved
/// slot or among the known objects.
pub open spec fn bases_at_hand(
    records: Seq<RecordView>,
    known: Seq<ResolvedView>,
    state: Seq<Option<ResolvedView>>,
) -> bool {
    forall|i: int|
        0 <= i < state.len() && (#[trigger] state[i]).is_some() ==> (records[i].kind matches RecordTypeView::RefDelta(
            hash,
        ) ==> slot_has(state, hash) || has_hash(known, hash))
}

/// Every slot that was resolved is unchanged.
pub open spec fn grown_from(
    before: Seq<Option<ResolvedView>>,
    after: Seq<Option<ResolvedView>>,
) -> bool {
    before.len() == after.len() && forall|j: int|
        0 <= j < before.len() && (#[trigger] before[j]).is_some() ==> after[j] == before[j]
}

/// What `find_done` finds is a resolved slot with the fingerprint.
pub proof fn lemma_find_done(state: Seq<Option<ResolvedView>>, from: int, hash: Seq<u8>)
    requires
        0 <= from,
    ensures
        find_done(state, from, hash) matches Some(j) ==> from <= j < state.len() && state[j].is_some()
            && state[j].unwrap().hash == hash,
    decreases state.len() - from,
{
    if from < state.len() && !(state[from].is_some() && state[from].unwrap().hash == hash) {
        lemma_find_done(state, from + 1, hash);
    }
}

/// What `find_object` finds is an object with the fingerprint.
pub proof fn lemma_find_object(objects: Seq<ResolvedView>, from: int, hash: Seq<u8>)
    requires
        0 <= from,
    ensures
        find_object(objects, from, hash) matches Some(j) ==> from <= j < objects.len()
            && objects[j].hash == hash,
    decreases objects.len() - from,
{
    if from < objects.len() && objects[from].hash != hash {
        lemma_find_object(objects, from + 1, hash);
    }
}

/// A pass only resolves slots, and only deltas whose base is at hand.
pub proof fn lemma_sweep_bases(
    records: Seq<RecordView>,
    known: Seq<ResolvedView>,
    state: Seq<Option<ResolvedView>>,
    k: nat,
)
    requires
        k <= state.len(),
        state.len() == records.len(),
        bases_at_hand(records, known, state),
    ensures
        sweep(records, known, state, k) matches Ok(s) ==> bases_at_hand(records, known, s)
            && grown_from(state, s),
    decreases k,
{
    if k > 0 {
        lemma_sweep_bases(records, known, state, (k - 1) as nat);
        match sweep(records, known, state, (k - 1) as nat) {
            Ok(s) => {
                if s[k - 1].is_none() {
                    match attempt(records, s, known, k - 1) {
                        Ok(Some(object)) => {
                            let t = s.update(k - 1, Some(object));
                            assert forall|i: int|
                                0 <= i < t.len() && (#[trigger] t[i]).is_some() implies (records[i].kind matches RecordTypeView::RefDelta(
                                hash,
                            ) ==> slot_has(t, hash) || has_hash(known, hash)) by {
                                if let RecordTypeView::RefDelta(hash) = records[i].kind {
                                    if i != k - 1 {
                                        assert(t[i] == s[i]);
                                        assert(s[i].is_some());
                                        if slot_has(s, hash) {
                                            let j = choose|j: int|
                                                0 <= j < s.len() && (#[trigger] s[j]).is_some()
                                                    && s[j].unwrap().hash == hash;
                                            assert(t[j] == s[j]);
                                            assert(t[j].is_some() && t[j].unwrap().hash == hash);
                                        }
                                    } else {
                                        lemma_find_done(s, 0, hash);
                                        lemma_find_object(known, 0, hash);
                                        match find_done(s, 0, hash) {
                                            Some(j) => {
                                                assert(t[j] == s[j]);
                                                assert(t[j].is_some() && t[j].unwrap().hash
                                                    == hash);
                                            },
                                            None => {
                                                let kk = find_object(known, 0, hash).unwrap();
                                                assert(known[kk].hash == hash);
                                            },
                                        }
                                    }
                                }
                            }
                            assert forall|j: int|
                                0 <= j < state.len() && (#[trigger] state[j]).is_some() implies t[j]
                                == state[j] by {
                                assert(s[j] == state[j]);
                            }
                        },
                        _ => {},
                    }
                }
            },
            Err(_) => {},
        }
    }
}

/// Any number of passes only resolves slots, and only deltas whose base is
/// at hand.
pub proof fn lemma_sweeps_bases(
    records: Seq<RecordView>,
    known: Seq<ResolvedView>,
    state: Seq<Option<ResolvedView>>,
    rounds: nat,
)
    requires
        state.len() == records.len(),
        bases_at_hand(records, known, state),
    ensures
        sweeps(records, known, state, rounds) matches Ok(s) ==> bases_at_hand(records, known, s)
            && s.len() == state.len(),
    decreases rounds,
{
    if rounds > 0 {
        lemma_sweep_bases(records, known, state, records.len());
        match sweep(records, known, state, records.len()) {
            Ok(s) => {
                lemma_sweeps_bases(records, known, s, (rounds - 1) as nat);
            },
            Err(_) => {},
        }
    }
}

/// Where a pack is decoded, the base of every delta by fingerprint is the
/// object of a record of the pack or a known object. So a pack with a
/// delta whose base is neither cannot be decoded.
pub proof fn lemma_bases_present(records: Seq<RecordView>, known: Seq<ResolvedView>, i: int)
    requires
        0 <= i < records.len(),
        resolve_all(records, known) is Ok,
    ensures
        records[i].kind matches RecordTypeView::RefDelta(hash) ==> has_hash(
            resolve_all(records, known).unwrap(),
            hash,
        ) || has_hash(known, hash),
{
    let start = unresolved(records.len());
    lemma_sweeps_bases(records, known, start, records.len());
    let state = sweeps(records, known, start, records.len()).unwrap();
    let objects = resolve_all(records, known).unwrap();
    if let RecordTypeView::RefDelta(hash) = records[i].kind {
        assert(state[i].is_some());
        if slot_has(state, hash) {
            let j = choose|j: int|
                0 <= j < state.len() && (#[trigger] state[j]).is_some() && state[j].unwrap().hash
                    == hash;
            assert(objects[j] == state[j].unwrap());
        }
    }
}

} // verus!
