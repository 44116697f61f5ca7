//! Keyframe tracks: one ordered store of keys for each named parameter.
//!
//! A key's value is carried as the bit pattern of a 32-bit IEEE-754 number.
//! The store never computes with it; it decides which keys govern a sampled
//! time and leaves the arithmetic on the values to the caller.

use vstd::prelude::*;
use vstd::string::StringSliceAdditionalSpecFns;
use vstd::utf8::encode_utf8_decode_utf8;
use crate::bytes::same_bytes;
use crate::interpolation::Interpolation;

verus! {

/// One control point of a track.
#[derive(Debug, Clone, Copy, PartialEq, Eq, Structural)]
pub struct Key {
    /// The row at which the key stands.
    pub row: u32,
    /// The value at that row, as the bits of a 32-bit IEEE-754 number.
    pub value: u32,
    /// The shape of the segment that leaves this key.
    pub interpolation: Interpolation,
}

impl Key {
    pub fn new(row: u32, value: u32, interp: Interpolation) -> (key: Key)
        ensures
            key == (Key { row: row, value: value, interpolation: interp }),
    {
        Key { row: row, value: value, interpolation: interp }
    }
}

/// The keys stand in strictly ascending order of row, so no row occurs twice.
pub open spec fn ascending(keys: Seq<Key>) -> bool {
    forall|i: int, j: int| 0 <= i < j < keys.len() ==> keys[i].row < keys[j].row
}

/// The index, at or after `start`, of the first key whose row is at least
/// `row`; the number of keys where there is none.
pub open spec fn search_from(keys: Seq<Key>, row: u32, start: int) -> int
    decreases keys.len() - start,
{
    if start < 0 || start >= keys.len() {
        keys.len() as int
    } else if keys[start].row >= row {
        start
    } else {
        search_from(keys, row, start + 1)
    }
}

/// The index of the first key whose row is at least `row`; the number of
/// keys where there is none. A key for `row` belongs at this index.
pub open spec fn insert_index(keys: Seq<Key>, row: u32) -> int {
    search_from(keys, row, 0)
}

/// Whether some key stands at `row`.
pub open spec fn has_row(keys: Seq<Key>, row: u32) -> bool {
    exists|i: int| 0 <= i < keys.len() && keys[i].row == row
}

/// The keys after `key` was set: it takes the place of the key at its row,
/// or, where no key stands there, goes in before the first key of a later row.
pub open spec fn with_key(keys: Seq<Key>, key: Key) -> Seq<Key> {
    let at = insert_index(keys, key.row);
    if at < keys.len() && keys[at].row == key.row {
        keys.update(at, key)
    } else {
        keys.insert(at, key)
    }
}

/// The keys after the key at `row` was deleted, if one stood there.
pub open spec fn without_row(keys: Seq<Key>, row: u32) -> Seq<Key> {
    let at = insert_index(keys, row);
    if at < keys.len() && keys[at].row == row {
        keys.remove(at)
    } else {
        keys
    }
}

/// `insert_index` is the one index that splits the keys into those of a
/// smaller row and, from it on, those of a row at least `row`.
pub proof fn lemma_search_from(keys: Seq<Key>, row: u32, start: int)
    requires
        0 <= start <= keys.len(),
    ensures
        start <= search_from(keys, row, start) <= keys.len(),
        forall|i: int| start <= i < search_from(keys, row, start) ==> keys[i].row < row,
        search_from(keys, row, start) < keys.len() ==> keys[search_from(keys, row, start)].row
            >= row,
    decreases keys.len() - start,
{
    if start < keys.len() && keys[start].row < row {
        lemma_search_from(keys, row, start + 1);
    }
}

/// An index with everything before it below `row` and a key of at least `row`
/// at it (or no key at it) is the insert index.
pub proof fn lemma_insert_index_unique(keys: Seq<Key>, row: u32, at: int)
    requires
        0 <= at <= keys.len(),
        forall|i: int| 0 <= i < at ==> keys[i].row < row,
        at < keys.len() ==> keys[at].row >= row,
    ensures
        insert_index(keys, row) == at,
{
    lemma_search_from(keys, row, 0);
}

/// What governs a track at a sampled time.
#[derive(Debug, Clone, Copy, PartialEq, Eq, Structural)]
pub enum Segment {
    /// The track has no key: it is at rest everywhere.
    Empty,
    /// The time is at or before the first key, or at or after the last: the
    /// track holds that key's value.
    Constant(u32),
    /// The time lies between two neighbouring keys, the earlier one first.
    /// The earlier key's interpolation shapes the blend.
    Between(Key, Key),
}

/// The segment of `keys` that governs a sampled time. The time is `row`
/// itself where `past` is false, and lies strictly between `row` and
/// `row + 1` where `past` is true.
pub open spec fn segment_of(keys: Seq<Key>, row: u32, past: bool) -> Segment {
    if keys.len() == 0 {
        Segment::Empty
    } else if row < keys.first().row || (row == keys.first().row && !past) {
        Segment::Constant(keys.first().value)
    } else if row >= keys.last().row {
        Segment::Constant(keys.last().value)
    } else {
        let higher = insert_index(keys, (row + 1) as u32);
        Segment::Between(keys[higher - 1], keys[higher])
    }
}

/// A track as a value: its name and its keys in order.
pub struct TrackView {
    pub name: Seq<char>,
    pub keys: Seq<Key>,
}

/// Tracks as values, in their order.
pub open spec fn views(tracks: Seq<Track>) -> Seq<TrackView> {
    tracks.map_values(|track: Track| track@)
}

/// The keys of one named parameter, in ascending order of row.
#[derive(Debug)]
pub struct Track {
    name: String,
    keys: Vec<Key>,
}

impl View for Track {
    type V = TrackView;

    closed spec fn view(&self) -> TrackView {
        TrackView { name: self.name@, keys: self.keys@ }
    }
}

impl Track {
    #[verifier::type_invariant]
    spec fn inv(&self) -> bool {
        ascending(self.keys@)
    }

    /// A track of the given name without keys.
    pub fn new(name: &str) -> (track: Track)
        ensures
            track@.name == name@,
            track@.keys == Seq::<Key>::empty(),
    {
        Track { name: name.to_owned(), keys: Vec::new() }
    }

    pub fn get_name(&self) -> (name: &str)
        ensures
            name@ == self@.name,
    {
        self.name.as_str()
    }

    /// Whether the track goes by the given name.
    pub fn has_name(&self, name: &str) -> (same: bool)
        ensures
            same == (self@.name == name@),
    {
        proof {
            encode_utf8_decode_utf8(self.name@);
            encode_utf8_decode_utf8(name@);
        }
        same_bytes(self.name.as_str().as_bytes(), name.as_bytes())
    }

    /// The keys in ascending order of row.
    pub fn get_keys(&self) -> (keys: &[Key])
        ensures
            keys@ == self@.keys,
            ascending(keys@),
    {
        proof {
            use_type_invariant(self);
        }
        self.keys.as_slice()
    }

    /// The index of the key that stands at `row`.
    pub fn get_exact_position(&self, row: u32) -> (found: Option<usize>)
        ensures
            ascending(self@.keys),
            match found {
                Some(at) => at == insert_index(self@.keys, row) && at < self@.keys.len()
                    && self@.keys[at as int].row == row,
                None => !has_row(self@.keys, row),
            },
    {
        proof {
            use_type_invariant(self);
        }
        let mut i: usize = 0;
        while i < self.keys.len()
            invariant
                i <= self.keys@.len(),
                ascending(self.keys@),
                forall|j: int| 0 <= j < i ==> self.keys@[j].row != row,
            decreases self.keys@.len() - i,
        {
            if self.keys[i].row == row {
                proof {
                    assert forall|j: int| 0 <= j < i implies self.keys@[j].row < row by {
                        assert(self.keys@[j].row < self.keys@[i as int].row);
                    }
                    lemma_insert_index_unique(self.keys@, row, i as int);
                }
                return Some(i);
            }
            i += 1;
        }
        None
    }

    /// The index of the first key whose row is at least `row`: where a key
    /// for `row` goes in. `None` where every key stands before `row`.
    pub fn get_insert_position(&self, row: u32) -> (found: Option<usize>)
        ensures
            match found {
                Some(at) => at == insert_index(self@.keys, row) && at < self@.keys.len(),
                None => insert_index(self@.keys, row) == self@.keys.len(),
            },
    {
        let mut i: usize = 0;
        while i < self.keys.len()
            invariant
                i <= self.keys@.len(),
                forall|j: int| 0 <= j < i ==> self.keys@[j].row < row,
            decreases self.keys@.len() - i,
        {
            if self.keys[i].row >= row {
                proof {
                    lemma_insert_index_unique(self.keys@, row, i as int);
                }
                return Some(i);
            }
            i += 1;
        }
        proof {
            lemma_insert_index_unique(self.keys@, row, self.keys@.len() as int);
        }
        None
    }

    /// Sets a key. A key that stands at the same row is replaced where it
    /// stands; otherwise the new key goes in where the order asks for it.
    pub fn set_key(&mut self, key: Key)
        ensures
            final(self)@.name == old(self)@.name,
            final(self)@.keys == with_key(old(self)@.keys, key),
            ascending(old(self)@.keys),
            ascending(final(self)@.keys),
    {
        proof {
            use_type_invariant(&*self);
            lemma_with_key_ascending(self.keys@, key);
        }
        let found = self.get_exact_position(key.row);
        let place = self.get_insert_position(key.row);
        // The keys leave the track while they change, and come back in order.
        let mut keys: Vec<Key> = Vec::new();
        core::mem::swap(&mut self.keys, &mut keys);
        if let Some(pos) = found {
            keys.set(pos, key);
        } else {
            proof {
                lemma_search_from(keys@, key.row, 0);
            }
            if let Some(pos) = place {
                keys.insert(pos, key);
            } else {
                proof {
                    assert(keys@.push(key) =~= keys@.insert(keys@.len() as int, key));
                }
                keys.push(key);
            }
        }
        core::mem::swap(&mut self.keys, &mut keys);
    }

    /// Deletes the key at `row`. Where no key stands there, nothing changes.
    pub fn delete_key(&mut self, row: u32)
        ensures
            final(self)@.name == old(self)@.name,
            final(self)@.keys == without_row(old(self)@.keys, row),
            ascending(old(self)@.keys),
            ascending(final(self)@.keys),
    {
        proof {
            use_type_invariant(&*self);
            lemma_without_row_ascending(self.keys@, row);
            lemma_search_from(self.keys@, row, 0);
        }
        if let Some(pos) = self.get_exact_position(row) {
            let mut keys: Vec<Key> = Vec::new();
            core::mem::swap(&mut self.keys, &mut keys);
            keys.remove(pos);
            core::mem::swap(&mut self.keys, &mut keys);
        }
    }

    /// What governs the track at a sampled time: `row` itself where `past` is
    /// false, a time strictly between `row` and `row + 1` where it is true.
    pub fn get_segment(&self, row: u32, past: bool) -> (segment: Segment)
        ensures
            segment == segment_of(self@.keys, row, past),
            ascending(self@.keys),
    {
        proof {
            use_type_invariant(self);
        }
        let count = self.keys.len();
        if count == 0 {
            return Segment::Empty;
        }
        let first = self.keys[0];
        if row < first.row || (row == first.row && !past) {
            return Segment::Constant(first.value);
        }
        let last = self.keys[count - 1];
        if row >= last.row {
            return Segment::Constant(last.value);
        }
        proof {
            lemma_search_from(self.keys@, (row + 1) as u32, 0);
        }
        match self.get_insert_position(row + 1) {
            Some(higher) => Segment::Between(self.keys[higher - 1], self.keys[higher]),
            None => Segment::Constant(last.value),
        }
    }
}

/// Setting a key keeps the keys in strictly ascending order.
pub proof fn lemma_with_key_ascending(keys: Seq<Key>, key: Key)
    requires
        ascending(keys),
    ensures
        ascending(with_key(keys, key)),
{
    lemma_search_from(keys, key.row, 0);
    let at = insert_index(keys, key.row);
    let after = with_key(keys, key);
    assert forall|i: int, j: int| 0 <= i < j < after.len() implies after[i].row
        < after[j].row by {
        if at < keys.len() && keys[at].row == key.row {
            assert(after[i].row == keys[i].row);
            assert(after[j].row == keys[j].row);
        } else {
            if i < at && j > at {
                assert(after[j] == keys[j - 1]);
                assert(keys[at].row <= keys[j - 1].row);
            } else if i > at {
                assert(after[i] == keys[i - 1]);
                assert(after[j] == keys[j - 1]);
            } else if i == at {
                assert(after[j] == keys[j - 1]);
                assert(keys[at].row <= keys[j - 1].row);
            }
        }
    }
}

/// Deleting a key keeps the keys in strictly ascending order.
pub proof fn lemma_without_row_ascending(keys: Seq<Key>, row: u32)
    requires
        ascending(keys),
    ensures
        ascending(without_row(keys, row)),
{
    lemma_search_from(keys, row, 0);
    let at = insert_index(keys, row);
    let after = without_row(keys, row);
    if at < keys.len() && keys[at].row == row {
        assert forall|i: int, j: int| 0 <= i < j < after.len() implies after[i].row
            < after[j].row by {
            let si = if i < at { i } else { i + 1 };
            let sj = if j < at { j } else { j + 1 };
            assert(after[i] == keys[si]);
            assert(after[j] == keys[sj]);
        }
    }
}

/// The keys after each key of `added` was set in turn, the first one first.
pub open spec fn with_keys(keys: Seq<Key>, added: Seq<Key>) -> Seq<Key>
    decreases added.len(),
{
    if added.len() == 0 {
        keys
    } else {
        with_key(with_keys(keys, added.drop_last()), added.last())
    }
}

/// After a key was set, the rows that hold a key are its row and the rows
/// that held one before.
pub proof fn lemma_with_key_rows(keys: Seq<Key>, key: Key, row: u32)
    ensures
        has_row(with_key(keys, key), row) <==> row == key.row || has_row(keys, row),
{
    lemma_search_from(keys, key.row, 0);
    let at = insert_index(keys, key.row);
    let after = with_key(keys, key);
    let replaced = at < keys.len() && keys[at].row == key.row;
    assert(after[at] == key);
    if has_row(keys, row) {
        let i = choose|i: int| 0 <= i < keys.len() && keys[i].row == row;
        let moved = if replaced || i < at { i } else { i + 1 };
        assert(after[moved].row == row);
    }
    if has_row(after, row) && row != key.row {
        let i = choose|i: int| 0 <= i < after.len() && after[i].row == row;
        let from = if replaced || i < at { i } else { i - 1 };
        assert(keys[from].row == row);
    }
}

/// Keys set in any order, at any rows, leave the track in strictly ascending
/// order of row: sorted, and with one key for a row at most.
pub proof fn lemma_with_keys_ascending(keys: Seq<Key>, added: Seq<Key>)
    requires
        ascending(keys),
    ensures
        ascending(with_keys(keys, added)),
    decreases added.len(),
{
    if added.len() > 0 {
        lemma_with_keys_ascending(keys, added.drop_last());
        lemma_with_key_ascending(with_keys(keys, added.drop_last()), added.last());
    }
}

/// After keys were set on an empty track, a row holds a key exactly if one of
/// them was set there.
pub proof fn lemma_with_keys_rows(added: Seq<Key>, row: u32)
    ensures
        has_row(with_keys(Seq::empty(), added), row) <==> has_row(added, row),
    decreases added.len(),
{
    let start = Seq::<Key>::empty();
    if added.len() > 0 {
        let before = added.drop_last();
        lemma_with_keys_rows(before, row);
        lemma_with_key_rows(with_keys(start, before), added.last(), row);
        if has_row(before, row) {
            let i = choose|i: int| 0 <= i < before.len() && before[i].row == row;
            assert(added[i].row == row);
        }
        if row == added.last().row {
            assert(added[added.len() - 1].row == row);
        }
        if has_row(added, row) && row != added.last().row {
            let i = choose|i: int| 0 <= i < added.len() && added[i].row == row;
            assert(before[i].row == row);
        }
    }
}

/// Keys set at rows that all differ, on an empty track, are all kept.
pub proof fn lemma_with_keys_len(added: Seq<Key>)
    requires
        forall|i: int, j: int| 0 <= i < j < added.len() ==> added[i].row != added[j].row,
    ensures
        with_keys(Seq::empty(), added).len() == added.len(),
    decreases added.len(),
{
    let start = Seq::<Key>::empty();
    if added.len() > 0 {
        let before = added.drop_last();
        lemma_with_keys_len(before);
        lemma_with_keys_rows(before, added.last().row);
        let keys = with_keys(start, before);
        lemma_search_from(keys, added.last().row, 0);
        if has_row(before, added.last().row) {
            let i = choose|i: int| 0 <= i < before.len() && before[i].row == added.last().row;
            assert(added[i].row == added[added.len() - 1].row);
        }
    }
}

/// After the key at a row was deleted, the rows that hold a key are those
/// that held one before, but for that row.
pub proof fn lemma_without_row_rows(keys: Seq<Key>, deleted: u32, row: u32)
    requires
        ascending(keys),
    ensures
        has_row(without_row(keys, deleted), row) <==> row != deleted && has_row(keys, row),
{
    lemma_search_from(keys, deleted, 0);
    let at = insert_index(keys, deleted);
    let after = without_row(keys, deleted);
    let gone = at < keys.len() && keys[at].row == deleted;
    if has_row(keys, row) && row != deleted {
        let i = choose|i: int| 0 <= i < keys.len() && keys[i].row == row;
        let moved = if gone && i > at { i - 1 } else { i };
        assert(after[moved].row == row);
    }
    if has_row(after, row) {
        let i = choose|i: int| 0 <= i < after.len() && after[i].row == row;
        let from = if gone && i >= at { i + 1 } else { i };
        assert(keys[from].row == row);
        if row == deleted {
            if gone {
                assert(from != at);
                if from < at {
                    assert(keys[from].row < keys[at].row);
                } else {
                    assert(keys[at].row < keys[from].row);
                }
            }
        }
    }
}

/// A key that was set at a row without a key is gone, and the keys are as
/// before, once that row is deleted.
pub proof fn lemma_delete_undoes_set(keys: Seq<Key>, key: Key)
    requires
        ascending(keys),
        !has_row(keys, key.row),
    ensures
        without_row(with_key(keys, key), key.row) == keys,
{
    lemma_search_from(keys, key.row, 0);
    let at = insert_index(keys, key.row);
    if at < keys.len() {
        assert(keys[at].row != key.row);
    }
    let after = keys.insert(at, key);
    assert(with_key(keys, key) == after);
    lemma_insert_index_unique(after, key.row, at);
    assert(after.remove(at) =~= keys);
}

/// A key set at the row of an existing key takes that key's slot: the other
/// keys, and the number of keys, stay as they were.
pub proof fn lemma_with_key_replaces(keys: Seq<Key>, key: Key, slot: int)
    requires
        ascending(keys),
        0 <= slot < keys.len(),
        keys[slot].row == key.row,
    ensures
        with_key(keys, key) == keys.update(slot, key),
{
    assert forall|i: int| 0 <= i < slot implies keys[i].row < key.row by {
        assert(keys[i].row < keys[slot].row);
    }
    lemma_insert_index_unique(keys, key.row, slot);
}

/// A track without keys is at rest at every time.
pub proof fn lemma_segment_of_empty(row: u32, past: bool)
    ensures
        segment_of(Seq::empty(), row, past) == Segment::Empty,
{
}

/// At or before the first key a track holds the first key's value, and at or
/// after the last key it holds the last key's value.
pub proof fn lemma_segment_clamps(keys: Seq<Key>, row: u32, past: bool)
    requires
        ascending(keys),
        keys.len() > 0,
    ensures
        row < keys.first().row || (row == keys.first().row && !past) ==> segment_of(
            keys,
            row,
            past,
        ) == Segment::Constant(keys.first().value),
        row >= keys.last().row ==> segment_of(keys, row, past) == Segment::Constant(
            keys.last().value,
        ),
{
    if row >= keys.last().row && row <= keys.first().row {
        if keys.len() > 1 {
            assert(keys[0].row < keys[keys.len() - 1].row);
        }
    }
}

/// Between the first key and the last, the governing keys are neighbours
/// that enclose the sampled time: the earlier one at or before it, the later
/// one after it.
pub proof fn lemma_segment_between(keys: Seq<Key>, row: u32, past: bool)
    requires
        ascending(keys),
        keys.len() > 0,
        row > keys.first().row || (row == keys.first().row && past),
        row < keys.last().row,
    ensures
        ({
            let higher = insert_index(keys, (row + 1) as u32);
            &&& 1 <= higher < keys.len()
            &&& segment_of(keys, row, past) == Segment::Between(keys[higher - 1], keys[higher])
            &&& keys[higher - 1].row <= row < keys[higher].row
        }),
{
    lemma_search_from(keys, (row + 1) as u32, 0);
}

} // verus!
