//! The resumable chunk store: offset-addressed writes build a partial
//! artifact, and the write that reaches the declared length promotes it to a
//! final, readable one.
use vstd::prelude::*;
use crate::err::Error;

verus! {

/// Below this length an artifact read from its start is returned whole.
pub const SMALL_OBJECT_LIMIT: u64 = 1048576;

/// What the store holds for one key: the bytes committed so far of an upload
/// in progress, and the bytes of the completed artifact. A key that the store
/// does not know has neither.
pub struct Slot {
    pub partial: Option<Seq<u8>>,
    pub done: Option<Seq<u8>>,
}

/// One write of a payload at an offset.
pub struct Chunk {
    pub offset: nat,
    pub payload: Seq<u8>,
}

pub open spec fn empty_slot() -> Slot {
    Slot { partial: None, done: None }
}

/// The slot of a key in a store's view.
pub open spec fn slot_of(m: Map<Seq<char>, Slot>, key: Seq<char>) -> Slot {
    if m.contains_key(key) {
        m[key]
    } else {
        empty_slot()
    }
}

/// The number of bytes committed so far for a slot: the length of its
/// partial, and zero where there is none.
pub open spec fn written_length(slot: Slot) -> int {
    match slot.partial {
        Some(p) => p.len() as int,
        None => 0,
    }
}

/// `base` with `payload` laid over it from `offset` on: positions inside the
/// payload's range hold the payload, all others what `base` held. The result
/// ends where the longer of the two ends.
pub open spec fn write_over(base: Seq<u8>, offset: int, payload: Seq<u8>) -> Seq<u8> {
    Seq::new(
        if base.len() >= offset + payload.len() {
            base.len()
        } else {
            (offset + payload.len()) as nat
        },
        |i: int|
            if offset <= i < offset + payload.len() {
                payload[i - offset]
            } else {
                base[i]
            },
    )
}

/// Whether a write is refused: it would pass the declared length, or it would
/// leave a gap behind the bytes committed so far. A declared length of zero
/// is a deletion and is never refused.
pub open spec fn write_refused(slot: Slot, offset: int, total: int, payload: Seq<u8>) -> bool {
    total != 0 && (offset + payload.len() > total || offset > written_length(slot))
}

/// The slot after a write that was not refused.
pub open spec fn slot_after_write(slot: Slot, offset: int, total: int, payload: Seq<u8>) -> Slot {
    let base = match slot.partial {
        Some(p) => p,
        None => Seq::<u8>::empty(),
    };
    let written = write_over(base, offset, payload);
    if total == 0 {
        empty_slot()
    } else if offset + payload.len() == total {
        Slot { partial: None, done: Some(written) }
    } else {
        Slot { partial: Some(written), done: slot.done }
    }
}

/// The slot after a write, refused or not: a refused write changes nothing.
pub open spec fn put_step(slot: Slot, offset: int, total: int, payload: Seq<u8>) -> Slot {
    if write_refused(slot, offset, total, payload) {
        slot
    } else {
        slot_after_write(slot, offset, total, payload)
    }
}

/// The bytes that a read of `size` bytes at `offset` returns from a final
/// artifact: all of it when the read starts at zero and the artifact is
/// small, else the requested range cut off at the artifact's end.
pub open spec fn read_slice(data: Seq<u8>, offset: int, size: int) -> Seq<u8> {
    if offset == 0 && data.len() < SMALL_OBJECT_LIMIT {
        data
    } else if offset >= data.len() {
        Seq::<u8>::empty()
    } else if size >= data.len() - offset {
        data.subrange(offset, data.len() as int)
    } else {
        data.subrange(offset, offset + size)
    }
}

/// A store's view after a write for `key`: unchanged when the write is
/// refused, without the key when the declared length is zero, and else with
/// the key's slot replaced. No other key is touched.
pub open spec fn store_after_put(
    m: Map<Seq<char>, Slot>,
    key: Seq<char>,
    offset: int,
    total: int,
    payload: Seq<u8>,
) -> Map<Seq<char>, Slot> {
    let slot = slot_of(m, key);
    if write_refused(slot, offset, total, payload) {
        m
    } else if total == 0 {
        m.remove(key)
    } else {
        m.insert(key, slot_after_write(slot, offset, total, payload))
    }
}

/// A write changes the slot of its key as `put_step` says, and no other slot.
pub proof fn lemma_put_touches_one_slot(
    m: Map<Seq<char>, Slot>,
    key: Seq<char>,
    other: Seq<char>,
    offset: int,
    total: int,
    payload: Seq<u8>,
)
    requires
        other != key,
    ensures
        slot_of(store_after_put(m, key, offset, total, payload), key) == put_step(
            slot_of(m, key),
            offset,
            total,
            payload,
        ),
        slot_of(store_after_put(m, key, offset, total, payload), other) == slot_of(m, other),
{
}

/// What a write asks of the storage behind the store.
#[derive(Clone, Copy, Debug, PartialEq, Eq, Structural)]
pub enum WritePlan {
    /// Remove the partial and the final artifact.
    Delete,
    /// Touch nothing and report a bounds error.
    Refuse,
    /// Write the payload at the offset into the partial, creating it if
    /// there is none, and then promote it if `promote` is set.
    Write { promote: bool },
}

/// The bytes committed so far, from the length of the partial if there is one.
pub open spec fn written_of(partial_length: Option<u64>) -> int {
    match partial_length {
        Some(n) => n as int,
        None => 0,
    }
}

/// Decides a write from the length of the key's partial, if it has one, and
/// the request's offset, declared length and payload length.
pub fn plan_write(partial_length: Option<u64>, offset: u64, declared_total_length: u64, payload_length: u64) -> (plan:
    WritePlan)
    ensures
        plan == WritePlan::Delete <==> declared_total_length == 0,
        plan == WritePlan::Refuse <==> declared_total_length != 0 && (offset + payload_length
            > declared_total_length || offset > written_of(partial_length)),
        plan matches WritePlan::Write { promote } ==> promote == (offset + payload_length
            == declared_total_length),
{
    if declared_total_length == 0 {
        return WritePlan::Delete;
    }
    if payload_length > declared_total_length || offset > declared_total_length - payload_length {
        return WritePlan::Refuse;
    }
    let written: u64 = match partial_length {
        Some(n) => n,
        None => 0,
    };
    if offset > written {
        return WritePlan::Refuse;
    }
    WritePlan::Write { promote: offset + payload_length == declared_total_length }
}

/// The range of a final artifact of `total` bytes that a read of `size`
/// bytes at `offset` returns, as its first position and its length.
pub fn read_window(total: u64, offset: u64, size: u64) -> (window: (u64, u64))
    ensures
        window.0 + window.1 <= total,
        forall|data: Seq<u8>|
            data.len() == total ==> #[trigger] read_slice(data, offset as int, size as int)
                == data.subrange(window.0 as int, window.0 + window.1),
{
    let window: (u64, u64) = if offset == 0 && total < SMALL_OBJECT_LIMIT {
        (0, total)
    } else if offset >= total {
        (total, 0)
    } else if size >= total - offset {
        (offset, total - offset)
    } else {
        (offset, size)
    };
    assert forall|data: Seq<u8>| data.len() == total implies #[trigger] read_slice(
        data,
        offset as int,
        size as int,
    ) == data.subrange(window.0 as int, window.0 + window.1) by {
        assert(read_slice(data, offset as int, size as int) =~= data.subrange(
            window.0 as int,
            window.0 + window.1,
        ));
    }
    window
}

/// The bytes that a sequence of writes leaves when each is laid over what
/// the earlier ones left, starting from nothing.
pub open spec fn overlay_all(writes: Seq<Chunk>) -> Seq<u8>
    decreases writes.len(),
{
    if writes.len() == 0 {
        Seq::<u8>::empty()
    } else {
        write_over(overlay_all(writes.drop_last()), writes.last().offset as int, writes.last().payload)
    }
}

/// The slot after a sequence of writes that all declare the same length.
pub open spec fn slot_after_all(slot: Slot, total: int, writes: Seq<Chunk>) -> Slot
    decreases writes.len(),
{
    if writes.len() == 0 {
        slot
    } else {
        put_step(
            slot_after_all(slot, total, writes.drop_last()),
            writes.last().offset as int,
            total,
            writes.last().payload,
        )
    }
}

/// Whether none of the writes is refused when they are applied in order.
pub open spec fn all_accepted(slot: Slot, total: int, writes: Seq<Chunk>) -> bool
    decreases writes.len(),
{
    writes.len() == 0 || (all_accepted(slot, total, writes.drop_last()) && !write_refused(
        slot_after_all(slot, total, writes.drop_last()),
        writes.last().offset as int,
        total,
        writes.last().payload,
    ))
}

proof fn lemma_partial_is_prefix(slot: Slot, total: int, writes: Seq<Chunk>)
    requires
        total > 0,
        slot.partial is None,
        all_accepted(slot, total, writes),
    ensures
        overlay_all(writes).len() <= total,
        written_length(slot_after_all(slot, total, writes)) <= overlay_all(writes).len(),
        slot_after_all(slot, total, writes).partial matches Some(p) ==> p == overlay_all(writes).take(
            p.len() as int,
        ),
    decreases writes.len(),
{
    if writes.len() > 0 {
        let before = writes.drop_last();
        lemma_partial_is_prefix(slot, total, before);
        let held = slot_after_all(slot, total, before);
        let laid = overlay_all(before);
        let last = writes.last();
        let after = slot_after_all(slot, total, writes);
        if let Some(p) = after.partial {
            let base = match held.partial {
                Some(b) => b,
                None => Seq::<u8>::empty(),
            };
            assert(p == write_over(base, last.offset as int, last.payload));
            assert(p =~= overlay_all(writes).take(p.len() as int));
        }
    }
}

/// Writes that start from a key with no upload in progress, that are all
/// accepted, and of which the last ends at the declared length, leave a
/// final artifact of exactly that length: the overlay of all the writes in
/// the order in which they were applied. No partial is left.
pub proof fn lemma_writes_build_artifact(slot: Slot, total: int, writes: Seq<Chunk>)
    requires
        total > 0,
        slot.partial is None,
        writes.len() > 0,
        all_accepted(slot, total, writes),
        writes.last().offset + writes.last().payload.len() == total,
    ensures
        slot_after_all(slot, total, writes) == (Slot { partial: None, done: Some(overlay_all(writes)) }),
        overlay_all(writes).len() == total,
{
    let before = writes.drop_last();
    lemma_partial_is_prefix(slot, total, before);
    let held = slot_after_all(slot, total, before);
    let last = writes.last();
    let base = match held.partial {
        Some(b) => b,
        None => Seq::<u8>::empty(),
    };
    assert(write_over(base, last.offset as int, last.payload) =~= overlay_all(writes));
}

/// A write that would pass a declared length other than zero is refused,
/// whatever the slot holds, and leaves the store as it was.
pub proof fn lemma_over_length_refused(
    m: Map<Seq<char>, Slot>,
    key: Seq<char>,
    offset: int,
    total: int,
    payload: Seq<u8>,
)
    requires
        total != 0,
        offset + payload.len() > total,
    ensures
        write_refused(slot_of(m, key), offset, total, payload),
        store_after_put(m, key, offset, total, payload) == m,
{
}

/// A write that declares a length of zero removes the key, and a second one
/// changes nothing more.
pub proof fn lemma_zero_length_deletes(
    m: Map<Seq<char>, Slot>,
    key: Seq<char>,
    offset: int,
    payload: Seq<u8>,
    offset2: int,
    payload2: Seq<u8>,
)
    ensures
        store_after_put(m, key, offset, 0, payload) == m.remove(key),
        slot_of(store_after_put(m, key, offset, 0, payload), key) == empty_slot(),
        store_after_put(store_after_put(m, key, offset, 0, payload), key, offset2, 0, payload2)
            == store_after_put(m, key, offset, 0, payload),
{
    assert(m.remove(key).remove(key) =~= m.remove(key));
}

/// A read from the start that asks for at least the artifact's length
/// returns all of it.
pub proof fn lemma_read_all(data: Seq<u8>, size: int)
    requires
        size >= data.len(),
    ensures
        read_slice(data, 0, size) == data,
{
    assert(read_slice(data, 0, size) =~= data);
}

/// A read from the start that asks for less than the length of an artifact
/// that is not small returns exactly the first `size` bytes.
pub proof fn lemma_read_head(data: Seq<u8>, size: int)
    requires
        0 <= size < data.len(),
        data.len() >= SMALL_OBJECT_LIMIT,
    ensures
        read_slice(data, 0, size) == data.take(size),
        read_slice(data, 0, size).len() == size,
{
    assert(read_slice(data, 0, size) =~= data.take(size));
}

struct Entry {
    key: String,
    partial: Option<Vec<u8>>,
    done: Option<Vec<u8>>,
}

spec fn bytes_of(v: Option<Vec<u8>>) -> Option<Seq<u8>> {
    match v {
        Some(b) => Some(b@),
        None => None,
    }
}

impl Entry {
    spec fn slot(self) -> Slot {
        Slot { partial: bytes_of(self.partial), done: bytes_of(self.done) }
    }
}

/// Artifacts by key, each partial, final or both while a completed key is
/// uploaded again.
pub struct ChunkStore {
    entries: Vec<Entry>,
}

impl View for ChunkStore {
    type V = Map<Seq<char>, Slot>;

    closed spec fn view(&self) -> Map<Seq<char>, Slot> {
        model(self.entries@)
    }
}

spec fn model(entries: Seq<Entry>) -> Map<Seq<char>, Slot> {
    Map::new(
        |k: Seq<char>| exists|i: int| 0 <= i < entries.len() && entries[i].key@ == k,
        |k: Seq<char>| entries[choose|i: int| 0 <= i < entries.len() && entries[i].key@ == k].slot(),
    )
}

spec fn distinct_keys(entries: Seq<Entry>) -> bool {
    forall|i: int, j: int|
        0 <= i < entries.len() && 0 <= j < entries.len() && entries[i].key@ == entries[j].key@ ==> i == j
}

proof fn lemma_model_at(entries: Seq<Entry>, i: int)
    requires
        distinct_keys(entries),
        0 <= i < entries.len(),
    ensures
        model(entries).contains_key(entries[i].key@),
        model(entries)[entries[i].key@] == entries[i].slot(),
{
}

proof fn lemma_model_remove(entries: Seq<Entry>, i: int)
    requires
        distinct_keys(entries),
        0 <= i < entries.len(),
    ensures
        distinct_keys(entries.remove(i)),
        model(entries.remove(i)) == model(entries).remove(entries[i].key@),
{
    let rest = entries.remove(i);
    assert forall|a: int| 0 <= a < rest.len() implies #[trigger] rest[a] == entries[if a < i { a } else { a + 1 }] by {}
    assert(distinct_keys(rest)) by {
        assert forall|a: int, b: int|
            0 <= a < rest.len() && 0 <= b < rest.len() && rest[a].key@ == rest[b].key@ implies a == b by {
            let a2 = if a < i { a } else { a + 1 };
            let b2 = if b < i { b } else { b + 1 };
            assert(rest[a] == entries[a2]);
            assert(rest[b] == entries[b2]);
        }
    }
    let left = model(rest);
    let right = model(entries).remove(entries[i].key@);
    assert forall|k: Seq<char>| left.contains_key(k) <==> right.contains_key(k) by {
        if left.contains_key(k) {
            let a = choose|a: int| 0 <= a < rest.len() && rest[a].key@ == k;
            let a2 = if a < i { a } else { a + 1 };
            assert(rest[a] == entries[a2]);
            assert(entries[a2].key@ == k);
        }
        if right.contains_key(k) {
            let b = choose|b: int| 0 <= b < entries.len() && entries[b].key@ == k;
            assert(b != i);
            let a = if b < i { b } else { b - 1 };
            assert(rest[a] == entries[b]);
        }
    }
    assert forall|k: Seq<char>| left.contains_key(k) implies left[k] == right[k] by {
        let a = choose|a: int| 0 <= a < rest.len() && rest[a].key@ == k;
        let a2 = if a < i { a } else { a + 1 };
        assert(rest[a] == entries[a2]);
        lemma_model_at(entries, a2);
    }
    assert(left =~= right);
}

proof fn lemma_model_push(entries: Seq<Entry>, e: Entry)
    requires
        distinct_keys(entries),
        !model(entries).contains_key(e.key@),
    ensures
        distinct_keys(entries.push(e)),
        model(entries.push(e)) == model(entries).insert(e.key@, e.slot()),
{
    let more = entries.push(e);
    assert forall|a: int| 0 <= a < entries.len() implies #[trigger] more[a] == entries[a] by {}
    assert(more[entries.len() as int] == e);
    assert(distinct_keys(more)) by {
        assert forall|a: int, b: int|
            0 <= a < more.len() && 0 <= b < more.len() && more[a].key@ == more[b].key@ implies a == b by {
            if a < entries.len() && b == entries.len() {
                assert(entries[a].key@ == e.key@);
            }
            if b < entries.len() && a == entries.len() {
                assert(entries[b].key@ == e.key@);
            }
        }
    }
    let left = model(more);
    let right = model(entries).insert(e.key@, e.slot());
    assert forall|k: Seq<char>| left.contains_key(k) <==> right.contains_key(k) by {
        if left.contains_key(k) {
            let a = choose|a: int| 0 <= a < more.len() && more[a].key@ == k;
            if a < entries.len() {
                assert(entries[a].key@ == k);
            }
        }
        if right.contains_key(k) {
            if k == e.key@ {
                assert(more[entries.len() as int].key@ == k);
            } else {
                let b = choose|b: int| 0 <= b < entries.len() && entries[b].key@ == k;
                assert(more[b].key@ == k);
            }
        }
    }
    assert forall|k: Seq<char>| left.contains_key(k) implies left[k] == right[k] by {
        let a = choose|a: int| 0 <= a < more.len() && more[a].key@ == k;
        lemma_model_at(more, a);
        if a < entries.len() {
            assert(entries[a].key@ == k);
            lemma_model_at(entries, a);
        }
    }
    assert(left =~= right);
}

fn overlay(base: Vec<u8>, offset: usize, payload: &[u8]) -> (out: Vec<u8>)
    requires
        offset <= base.len(),
    ensures
        out@ == write_over(base@, offset as int, payload@),
{
    let mut out = base;
    let ghost start = out@;
    let mut j: usize = 0;
    while j < payload.len()
        invariant
            j <= payload.len(),
            offset <= start.len(),
            out@ == write_over(start, offset as int, payload@.take(j as int)),
        decreases payload.len() - j,
    {
        if offset < out.len() && j < out.len() - offset {
            out.set(offset + j, payload[j]);
        } else {
            out.push(payload[j]);
        }
        j = j + 1;
        assert(out@ =~= write_over(start, offset as int, payload@.take(j as int)));
    }
    assert(payload@.take(j as int) =~= payload@);
    out
}

impl ChunkStore {
    #[verifier::type_invariant]
    spec fn inv(&self) -> bool {
        distinct_keys(self.entries@)
    }

    /// A store that holds nothing.
    pub fn new() -> (store: ChunkStore)
        ensures
            store@ == Map::<Seq<char>, Slot>::empty(),
    {
        let store = ChunkStore { entries: Vec::new() };
        assert(store@ =~= Map::<Seq<char>, Slot>::empty());
        store
    }

    fn position(&self, key: &String) -> (at: Option<usize>)
        ensures
            match at {
                Some(i) => i < self.entries@.len() && self.entries@[i as int].key@ == key@,
                None => !self@.contains_key(key@),
            },
    {
        let mut i: usize = 0;
        while i < self.entries.len()
            invariant
                i <= self.entries@.len(),
                forall|j: int| 0 <= j < i ==> self.entries@[j].key@ != key@,
            decreases self.entries@.len() - i,
        {
            if self.entries[i].key == *key {
                return Some(i);
            }
            i = i + 1;
        }
        None
    }

    /// Removes the partial and the final artifact of `key`. A key that the
    /// store does not hold is no error.
    pub fn delete(&mut self, key: &str) -> (res: Result<(), Error>)
        ensures
            res is Ok,
            final(self)@ == old(self)@.remove(key@),
    {
        let name = String::from_str(key);
        proof {
            use_type_invariant(&*self);
        }
        match self.position(&name) {
            Some(i) => {
                proof {
                    lemma_model_remove(self.entries@, i as int);
                }
                let mut entries: Vec<Entry> = Vec::new();
                core::mem::swap(&mut self.entries, &mut entries);
                entries.remove(i);
                core::mem::swap(&mut self.entries, &mut entries);
            },
            None => {
                assert(self@ =~= self@.remove(key@));
            },
        }
        Ok(())
    }

    /// Writes `payload` at `offset` into the artifact of `key`, which the
    /// caller declares to have `declared_total_length` bytes in all.
    ///
    /// A declared length of zero deletes the key. Otherwise the write must
    /// end within the declared length and must start within, or right behind,
    /// the bytes committed so far; a write that does not is refused with
    /// `Error::Bounds` and changes nothing. The write that ends at the
    /// declared length promotes the partial to the final artifact.
    pub fn put(&mut self, key: &str, offset: u64, declared_total_length: u64, payload: &[u8]) -> (res:
        Result<(), Error>)
        ensures
            final(self)@ == store_after_put(
                old(self)@,
                key@,
                offset as int,
                declared_total_length as int,
                payload@,
            ),
            res is Ok <==> !write_refused(
                slot_of(old(self)@, key@),
                offset as int,
                declared_total_length as int,
                payload@,
            ),
            res matches Err(e) ==> e is Bounds,
            declared_total_length > 0 && offset + payload@.len() > declared_total_length ==> res is Err
                && final(self)@ == old(self)@,
            declared_total_length == 0 ==> res is Ok && final(self)@ == old(self)@.remove(key@),
    {
        let name = String::from_str(key);
        proof {
            use_type_invariant(&*self);
        }
        let at = self.position(&name);
        let partial_length: Option<u64> = match at {
            Some(i) => {
                proof {
                    lemma_model_at(self.entries@, i as int);
                }
                match &self.entries[i].partial {
                    Some(p) => Some(p.len() as u64),
                    None => None,
                }
            },
            None => None,
        };
        assert(written_of(partial_length) == written_length(slot_of(self@, key@)));
        match plan_write(partial_length, offset, declared_total_length, payload.len() as u64) {
            WritePlan::Delete => self.delete(key),
            WritePlan::Refuse => Err(Error::Bounds(String::from_str("out of bound"))),
            WritePlan::Write { promote } => {
                let mut entries: Vec<Entry> = Vec::new();
                core::mem::swap(&mut self.entries, &mut entries);
                let (held, partial, done): (String, Option<Vec<u8>>, Option<Vec<u8>>) = match at {
                    Some(i) => {
                        proof {
                            lemma_model_remove(entries@, i as int);
                        }
                        let Entry { key: held, partial, done } = entries.remove(i);
                        (held, partial, done)
                    },
                    None => {
                        assert(model(entries@).remove(key@) =~= model(entries@));
                        (name, None, None)
                    },
                };
                let base: Vec<u8> = match partial {
                    Some(p) => p,
                    None => Vec::new(),
                };
                let written = overlay(base, offset as usize, payload);
                let next = if promote {
                    Entry { key: held, partial: None, done: Some(written) }
                } else {
                    Entry { key: held, partial: Some(written), done: done }
                };
                proof {
                    lemma_model_push(entries@, next);
                    assert(old(self)@.remove(key@).insert(key@, next.slot()) =~= old(self)@.insert(
                        key@,
                        next.slot(),
                    ));
                }
                entries.push(next);
                core::mem::swap(&mut self.entries, &mut entries);
                Ok(())
            },
        }
    }

    /// The number of bytes committed so far to the partial of `key`, and
    /// `None` where no upload is in progress.
    pub fn written(&self, key: &str) -> (n: Option<u64>)
        ensures
            match slot_of(self@, key@).partial {
                Some(p) => n == Some(p.len() as u64),
                None => n is None,
            },
    {
        let name = String::from_str(key);
        proof {
            use_type_invariant(self);
        }
        match self.position(&name) {
            Some(i) => {
                proof {
                    lemma_model_at(self.entries@, i as int);
                }
                match &self.entries[i].partial {
                    Some(p) => Some(p.len() as u64),
                    None => None,
                }
            },
            None => None,
        }
    }

    /// Reads up to `size` bytes at `offset` from the final artifact of `key`,
    /// and gives the artifact's total length with them. A key without a
    /// final artifact is `Error::NotFound`, whether or not it has a partial.
    pub fn get(&self, key: &str, offset: u64, size: u64) -> (res: Result<(Vec<u8>, u64), Error>)
        ensures
            match slot_of(self@, key@).done {
                Some(data) => res matches Ok((bytes, total)) && bytes@ == read_slice(
                    data,
                    offset as int,
                    size as int,
                ) && total == data.len(),
                None => res matches Err(e) && e is NotFound,
            },
    {
        let name = String::from_str(key);
        proof {
            use_type_invariant(self);
        }
        let at = self.position(&name);
        if at.is_none() {
            return Err(Error::NotFound(String::from_str("not found")));
        }
        let i: usize = at.unwrap();
        proof {
            lemma_model_at(self.entries@, i as int);
        }
        match &self.entries[i].done {
            None => Err(Error::NotFound(String::from_str("not found"))),
            Some(data) => {
                let total: usize = data.len();
                let (first, count): (u64, u64) = read_window(total as u64, offset, size);
                let mut bytes: Vec<u8> = Vec::new();
                let mut j: usize = 0;
                while j < count as usize
                    invariant
                        j <= count,
                        first + count <= data@.len(),
                        data@.len() == total,
                        bytes@ == data@.subrange(first as int, first + j),
                    decreases count - j,
                {
                    bytes.push(data[first as usize + j]);
                    j = j + 1;
                }
                assert(bytes@ == read_slice(data@, offset as int, size as int));
                Ok((bytes, total as u64))
            },
        }
    }
}

} // verus!
