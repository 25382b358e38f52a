//! Reading the big-endian payloads in which collections arrive: a count,
//! then for each record its size and its bytes.

use crate::parallel_list::{all_filled, ParallelList};
use crate::traits::Indexable;
use vstd::prelude::*;
use vstd::slice::slice_subrange;

verus! {

/// The big-endian unsigned number in the four bytes from `at` on.
pub open spec fn be_u32(bytes: Seq<u8>, at: int) -> int {
    bytes[at] * 0x100_0000 + bytes[at + 1] * 0x1_0000 + bytes[at + 2] * 0x100 + bytes[at + 3]
}

/// The big-endian two's complement number in the four bytes from `at` on.
pub open spec fn be_i32(bytes: Seq<u8>, at: int) -> int {
    if be_u32(bytes, at) >= 0x8000_0000 {
        be_u32(bytes, at) - 0x1_0000_0000
    } else {
        be_u32(bytes, at)
    }
}

/// The big-endian unsigned number in the eight bytes from `at` on.
pub open spec fn be_u64(bytes: Seq<u8>, at: int) -> int {
    be_u32(bytes, at) * 0x1_0000_0000 + be_u32(bytes, at + 4)
}

/// Reads four bytes as an unsigned number and steps over them.
pub fn read_u32(vector: &[u8], index: &mut usize) -> (value: u32)
    requires
        *old(index) + 4 <= vector@.len(),
    ensures
        value == be_u32(vector@, *old(index) as int),
        *final(index) == *old(index) + 4,
{
    let at = *index;
    let value: u32 = (vector[at] as u32) * 0x100_0000 + (vector[at + 1] as u32) * 0x1_0000 + (
    vector[at + 2] as u32) * 0x100 + (vector[at + 3] as u32);
    *index = at + 4;
    value
}

/// Reads four bytes as a signed number and steps over them.
pub fn read_i32(vector: &[u8], index: &mut usize) -> (value: i32)
    requires
        *old(index) + 4 <= vector@.len(),
    ensures
        value == be_i32(vector@, *old(index) as int),
        *final(index) == *old(index) + 4,
{
    let raw: i64 = read_u32(vector, index) as i64;
    if raw >= 0x8000_0000 {
        (raw - 0x1_0000_0000) as i32
    } else {
        raw as i32
    }
}

/// Reads the eight bytes of a double and steps over them. The result is
/// the bit pattern of the double, not a number to compute with.
pub fn read_f64(vector: &[u8], index: &mut usize) -> (bits: u64)
    requires
        *old(index) + 8 <= vector@.len(),
    ensures
        bits == be_u64(vector@, *old(index) as int),
        *final(index) == *old(index) + 8,
{
    let high: u64 = read_u32(vector, index) as u64;
    let low: u64 = read_u32(vector, index) as u64;
    high * 0x1_0000_0000 + low
}

/// The text that `String::from_utf8_lossy` makes of bytes.
pub uninterp spec fn utf8_lossy(bytes: Seq<u8>) -> Seq<char>;

/// `String::from_utf8_lossy`: the bytes decoded as UTF-8, with the
/// replacement character for what is not UTF-8. The decoding is named, not
/// restated.
#[verifier::external_body]
fn decode_utf8_lossy(bytes: &[u8]) -> (text: String)
    ensures
        text@ == utf8_lossy(bytes@),
{
    String::from_utf8_lossy(bytes).into_owned()
}

/// Reads `string_len` bytes as text and steps over them.
pub fn read_string(vector: &[u8], index: &mut usize, string_len: usize) -> (text: String)
    requires
        *old(index) + string_len <= vector@.len(),
    ensures
        text@ == utf8_lossy(
            vector@.subrange(*old(index) as int, *old(index) + string_len as int),
        ),
        *final(index) == *old(index) + string_len,
{
    let at = *index;
    let available = vector.len();
    let end = at + string_len;
    *index = end;
    decode_utf8_lossy(slice_subrange(vector, at, end))
}

/// Steps over a double.
pub fn skip_f64(index: &mut usize)
    requires
        *old(index) + 8 <= usize::MAX,
    ensures
        *final(index) == *old(index) + 8,
{
    *index = *index + 8;
}

/// Steps over a four-byte number.
pub fn skip_i32(index: &mut usize)
    requires
        *old(index) + 4 <= usize::MAX,
    ensures
        *final(index) == *old(index) + 4,
{
    *index = *index + 4;
}

/// Steps over a text of `string_len` bytes.
pub fn skip_string(index: &mut usize, string_len: usize)
    requires
        *old(index) + string_len <= usize::MAX,
    ensures
        *final(index) == *old(index) + string_len,
{
    *index = *index + string_len;
}

/// A record that can be read from bytes, and that names its slot.
pub trait ByteConvertable: Sized + Indexable {
    /// Whether `bytes` hold a record of this kind.
    spec fn parses(bytes: Seq<u8>) -> bool;

    /// The slot that the record in `bytes` names.
    spec fn slot(bytes: Seq<u8>) -> u32;

    /// Whether `self` is the record that `bytes` hold.
    spec fn encoded_by(&self, bytes: Seq<u8>) -> bool;

    /// The record in `byte_array`, or nothing if the bytes are not one.
    fn from_bytes(byte_array: &[u8]) -> (record: Option<Self>)
        ensures
            record is Some <==> Self::parses(byte_array@),
            record is Some ==> record->0.encoded_by(byte_array@),
            record is Some ==> record->0.index_spec() == Self::slot(byte_array@),
    ;
}

/// Why a payload was refused.
#[derive(Clone, Copy, Debug, PartialEq, Eq, Structural)]
pub enum LoadError {
    /// The payload ends before the count, a size or a record does.
    Truncated,
    /// The count or a size is negative.
    NegativeLength,
    /// The bytes of a record are not a record.
    BadRecord,
    /// A record names a slot that the collection does not have.
    IndexOutOfRange,
    /// No record names some slot of the collection.
    MissingRecord,
    /// An edge of a node leads to a node that the collection does not have.
    UnknownTarget,
}

/// `done` in front of the ranges in `rest`, or the error in `rest`.
pub open spec fn after(done: Seq<(int, int)>, rest: Result<Seq<(int, int)>, LoadError>) -> Result<
    Seq<(int, int)>,
    LoadError,
> {
    match rest {
        Ok(ranges) => Ok(done + ranges),
        Err(e) => Err(e),
    }
}

/// Where the next `remaining` records lie in `bytes`, if the first of them
/// starts with its size at `at`: for each the first index of its bytes and
/// the index behind them.
pub open spec fn frames_from(bytes: Seq<u8>, at: int, remaining: nat) -> Result<
    Seq<(int, int)>,
    LoadError,
>
    decreases remaining,
{
    if remaining == 0 {
        Ok(Seq::empty())
    } else if at + 4 > bytes.len() {
        Err(LoadError::Truncated)
    } else if be_i32(bytes, at) < 0 {
        Err(LoadError::NegativeLength)
    } else if at + 4 + be_i32(bytes, at) > bytes.len() {
        Err(LoadError::Truncated)
    } else {
        after(
            seq![(at + 4, at + 4 + be_i32(bytes, at))],
            frames_from(bytes, at + 4 + be_i32(bytes, at), (remaining - 1) as nat),
        )
    }
}

/// Where the records of a payload lie: the payload starts with the number
/// of records, and each record is preceded by its size. Bytes behind the
/// last record are ignored.
pub open spec fn frames(bytes: Seq<u8>) -> Result<Seq<(int, int)>, LoadError> {
    if bytes.len() < 4 {
        Err(LoadError::Truncated)
    } else if be_i32(bytes, 0) < 0 {
        Err(LoadError::NegativeLength)
    } else {
        frames_from(bytes, 4, be_i32(bytes, 0) as nat)
    }
}

/// The bytes of the record at `range`.
pub open spec fn record(bytes: Seq<u8>, range: (int, int)) -> Seq<u8> {
    bytes.subrange(range.0, range.1)
}

/// Every range lies within `len` bytes.
pub open spec fn ranges_within(ranges: Seq<(int, int)>, len: int) -> bool {
    forall|k: int| 0 <= k < ranges.len() ==> 0 <= (#[trigger] ranges[k]).0 <= ranges[k].1 <= len
}

proof fn lemma_frames_within(bytes: Seq<u8>, at: int, remaining: nat)
    requires
        0 <= at,
        frames_from(bytes, at, remaining) is Ok,
    ensures
        ranges_within(frames_from(bytes, at, remaining)->Ok_0, bytes.len() as int),
        frames_from(bytes, at, remaining)->Ok_0.len() == remaining,
    decreases remaining,
{
    if remaining > 0 {
        let next = at + 4 + be_i32(bytes, at);
        lemma_frames_within(bytes, next, (remaining - 1) as nat);
        let rest = frames_from(bytes, next, (remaining - 1) as nat)->Ok_0;
        let all = frames_from(bytes, at, remaining)->Ok_0;
        assert(all == seq![(at + 4, next)] + rest);
        assert forall|k: int| 0 <= k < all.len() implies 0 <= (#[trigger] all[k]).0 <= all[k].1
            <= bytes.len() by {
            if k > 0 {
                assert(all[k] == rest[k - 1]);
            }
        }
    }
}

/// A payload that can be split holds as many records as its first four
/// bytes say.
pub proof fn lemma_frames_count(bytes: Seq<u8>)
    requires
        frames(bytes) is Ok,
    ensures
        frames(bytes)->Ok_0.len() == be_i32(bytes, 0),
        frames(bytes)->Ok_0.len() < 0x8000_0000,
{
    lemma_frames_within(bytes, 4, be_i32(bytes, 0) as nat);
}

/// Finds the records of a payload: for each the first index of its bytes
/// and the index behind them.
pub fn split_records(bytes: &[u8]) -> (found: Result<Vec<(usize, usize)>, LoadError>)
    ensures
        match found {
            Ok(ranges) => {
                &&& frames(bytes@) is Ok
                &&& ranges@.len() == frames(bytes@)->Ok_0.len()
                &&& forall|k: int|
                    0 <= k < ranges@.len() ==> (#[trigger] ranges@[k]).0 == frames(
                        bytes@,
                    )->Ok_0[k].0 && ranges@[k].1 == frames(bytes@)->Ok_0[k].1 && ranges@[k].0
                        <= ranges@[k].1 <= bytes@.len()
            },
            Err(e) => frames(bytes@) == Err::<Seq<(int, int)>, LoadError>(e),
        },
{
    if bytes.len() < 4 {
        return Err(LoadError::Truncated);
    }
    let mut index: usize = 0;
    let count = read_i32(bytes, &mut index);
    if count < 0 {
        return Err(LoadError::NegativeLength);
    }
    let mut ranges: Vec<(usize, usize)> = Vec::new();
    let ghost mut done: Seq<(int, int)> = Seq::empty();
    let mut k: i32 = 0;
    proof {
        assert(after(done, frames_from(bytes@, 4, count as nat)) == frames_from(
            bytes@,
            4,
            count as nat,
        )) by {
            match frames_from(bytes@, 4, count as nat) {
                Ok(r) => {
                    assert(done + r =~= r);
                },
                Err(e) => {},
            }
        }
    }
    while k < count
        invariant
            0 <= k <= count,
            4 <= index <= bytes@.len(),
            count == be_i32(bytes@, 0),
            bytes@.len() >= 4,
            done.len() == k,
            ranges@.len() == k,
            forall|m: int|
                0 <= m < k ==> (#[trigger] ranges@[m]).0 == done[m].0 && ranges@[m].1 == done[m].1
                    && ranges@[m].0 <= ranges@[m].1 <= bytes@.len(),
            frames(bytes@) == after(done, frames_from(bytes@, index as int, (count - k) as nat)),
        decreases count - k,
    {
        if bytes.len() - index < 4 {
            return Err(LoadError::Truncated);
        }
        let ghost at = index as int;
        let size = read_i32(bytes, &mut index);
        if size < 0 {
            return Err(LoadError::NegativeLength);
        }
        if bytes.len() - index < size as usize {
            return Err(LoadError::Truncated);
        }
        let start = index;
        index = index + size as usize;
        proof {
            let rest = frames_from(bytes@, index as int, (count - k - 1) as nat);
            let one = seq![(start as int, index as int)];
            assert(frames_from(bytes@, at, (count - k) as nat) == after(one, rest));
            assert(after(done, after(one, rest)) == after(done.push((start as int, index as int)), rest))
                by {
                match rest {
                    Ok(r) => {
                        assert(done + (one + r) =~= done.push((start as int, index as int)) + r);
                    },
                    Err(e) => {},
                }
            }
            done = done.push((start as int, index as int));
        }
        ranges.push((start, index));
        k = k + 1;
    }
    proof {
        assert(done + Seq::<(int, int)>::empty() =~= done);
    }
    Ok(ranges)
}

/// The first fault among the first `k` records at `ranges`, if any: bytes
/// that are no record, or a record that names a slot that `ranges.len()`
/// slots do not have.
pub open spec fn first_fault<T: ByteConvertable>(
    bytes: Seq<u8>,
    ranges: Seq<(int, int)>,
    k: nat,
) -> Option<LoadError>
    decreases k,
{
    if k == 0 {
        None
    } else if first_fault::<T>(bytes, ranges, (k - 1) as nat) is Some {
        first_fault::<T>(bytes, ranges, (k - 1) as nat)
    } else if !T::parses(record(bytes, ranges[k - 1])) {
        Some(LoadError::BadRecord)
    } else if T::slot(record(bytes, ranges[k - 1])) >= ranges.len() {
        Some(LoadError::IndexOutOfRange)
    } else {
        None
    }
}

/// The last of the first `k` records at `ranges` that names the slot
/// `slot`, if there is one.
pub open spec fn holder<T: ByteConvertable>(
    bytes: Seq<u8>,
    ranges: Seq<(int, int)>,
    slot: int,
    k: nat,
) -> Option<int>
    decreases k,
{
    if k == 0 {
        None
    } else if T::slot(record(bytes, ranges[k - 1])) == slot {
        Some(k - 1)
    } else {
        holder::<T>(bytes, ranges, slot, (k - 1) as nat)
    }
}

/// What loading a payload gives, when it gives an error.
pub open spec fn load_fault<T: ByteConvertable>(bytes: Seq<u8>) -> Option<LoadError> {
    match frames(bytes) {
        Err(e) => Some(e),
        Ok(ranges) => if first_fault::<T>(bytes, ranges, ranges.len()) is Some {
            first_fault::<T>(bytes, ranges, ranges.len())
        } else if exists|slot: int|
            0 <= slot < ranges.len() && (#[trigger] holder::<T>(bytes, ranges, slot, ranges.len()))
                is None {
            Some(LoadError::MissingRecord)
        } else {
            None
        },
    }
}

/// Whether `slots` are what loading `bytes` gives: one slot for each
/// record, and in each slot the last record that names it.
pub open spec fn loaded<T: ByteConvertable>(
    bytes: Seq<u8>,
    slots: Seq<Option<T>>,
) -> bool {
    &&& frames(bytes) is Ok
    &&& slots.len() == frames(bytes)->Ok_0.len()
    &&& all_filled(slots)
    &&& forall|i: int|
        0 <= i < slots.len() ==> {
            let h = #[trigger] holder::<T>(
                bytes,
                frames(bytes)->Ok_0,
                i,
                frames(bytes)->Ok_0.len(),
            );
            &&& h is Some
            &&& slots[i]->0.encoded_by(record(bytes, frames(bytes)->Ok_0[h->0]))
            &&& slots[i]->0.index_spec() == i
        }
}

/// Reads a collection from its payload. Each record goes into the slot it
/// names; of two records that name one slot the later stays. The payload
/// is refused if it is cut short, if a count or size is negative, if some
/// bytes are no record, if a record names a slot beyond the count, or if
/// some slot is named by no record.
pub fn load_from_bytes<T: ByteConvertable>(bytes: &[u8]) -> (result: Result<
    ParallelList<T>,
    LoadError,
>)
    ensures
        match result {
            Ok(list) => load_fault::<T>(bytes@) is None && loaded(bytes@, list@),
            Err(e) => load_fault::<T>(bytes@) == Some(e),
        },
{
    let ranges = match split_records(bytes) {
        Ok(ranges) => ranges,
        Err(e) => {
            return Err(e);
        },
    };
    let ghost frame = frames(bytes@)->Ok_0;
    let size = ranges.len();
    let mut list: ParallelList<T> = ParallelList::new(size);
    let mut k: usize = 0;
    while k < size
        invariant
            k <= size,
            size == ranges@.len(),
            frames(bytes@) == Ok::<Seq<(int, int)>, LoadError>(frame),
            frame.len() == size,
            forall|m: int|
                0 <= m < size ==> (#[trigger] ranges@[m]).0 == frame[m].0 && ranges@[m].1
                    == frame[m].1 && ranges@[m].0 <= ranges@[m].1 <= bytes@.len(),
            list@.len() == size,
            first_fault::<T>(bytes@, frame, k as nat) is None,
            forall|i: int|
                0 <= i < size ==> match #[trigger] holder::<T>(bytes@, frame, i, k as nat) {
                    None => list@[i] is None,
                    Some(h) => {
                        &&& list@[i] is Some
                        &&& 0 <= h < size
                        &&& list@[i]->0.encoded_by(record(bytes@, frame[h]))
                        &&& list@[i]->0.index_spec() == i
                    },
                },
        decreases size - k,
    {
        let (start, end) = ranges[k];
        let type_bytes = slice_subrange(bytes, start, end);
        assert(type_bytes@ == record(bytes@, frame[k as int]));
        let data = match T::from_bytes(type_bytes) {
            Some(data) => data,
            None => {
                proof {
                    lemma_fault_stays::<T>(bytes@, frame, (k + 1) as nat, size as nat);
                }
                return Err(LoadError::BadRecord);
            },
        };
        let index = data.index() as usize;
        if index >= size {
            proof {
                lemma_fault_stays::<T>(bytes@, frame, (k + 1) as nat, size as nat);
            }
            return Err(LoadError::IndexOutOfRange);
        }
        let ghost before = list@;
        list.insert(data, index);
        proof {
            assert(data.index_spec() == T::slot(type_bytes@));
            assert forall|i: int| 0 <= i < size implies match #[trigger] holder::<T>(
                bytes@,
                frame,
                i,
                (k + 1) as nat,
            ) {
                None => list@[i] is None,
                Some(h) => {
                    &&& list@[i] is Some
                    &&& 0 <= h < size
                    &&& list@[i]->0.encoded_by(record(bytes@, frame[h]))
                    &&& list@[i]->0.index_spec() == i
                },
            } by {
                if i == index {
                    assert(holder::<T>(bytes@, frame, i, (k + 1) as nat) == Some(k as int));
                } else {
                    assert(holder::<T>(bytes@, frame, i, (k + 1) as nat) == holder::<T>(
                        bytes@,
                        frame,
                        i,
                        k as nat,
                    ));
                    assert(list@[i] == before[i]);
                }
            }
        }
        k = k + 1;
    }
    if !list.is_full() {
        proof {
            let empty = choose|i: int| 0 <= i < list@.len() && !((#[trigger] list@[i]) is Some);
            assert(holder::<T>(bytes@, frame, empty, size as nat) is None);
        }
        return Err(LoadError::MissingRecord);
    }
    proof {
        assert forall|slot: int| 0 <= slot < frame.len() implies !((#[trigger] holder::<T>(
            bytes@,
            frame,
            slot,
            frame.len(),
        )) is None) by {
            assert(list@[slot] is Some);
        }
    }
    Ok(list)
}

proof fn lemma_fault_stays<T: ByteConvertable>(
    bytes: Seq<u8>,
    ranges: Seq<(int, int)>,
    k: nat,
    n: nat,
)
    requires
        k <= n,
        first_fault::<T>(bytes, ranges, k) is Some,
    ensures
        first_fault::<T>(bytes, ranges, n) == first_fault::<T>(bytes, ranges, k),
    decreases n - k,
{
    if k < n {
        lemma_fault_stays::<T>(bytes, ranges, k, (n - 1) as nat);
    }
}

/// Whether the record number `k` cannot be placed among `records.len()`
/// slots, and why: it is missing, or it names a slot beyond them.
pub open spec fn misfit<T: ByteConvertable>(records: Seq<Option<T>>, k: int) -> Option<LoadError> {
    if records[k] is None {
        Some(LoadError::BadRecord)
    } else if records[k]->0.index_spec() >= records.len() {
        Some(LoadError::IndexOutOfRange)
    } else {
        None
    }
}

/// Why the first record from number `k` on that cannot be placed cannot
/// be, if there is one.
pub open spec fn misfit_from<T: ByteConvertable>(records: Seq<Option<T>>, k: int) -> Option<
    LoadError,
>
    decreases records.len() - k,
{
    if k >= records.len() || k < 0 {
        None
    } else if misfit(records, k) is Some {
        misfit(records, k)
    } else {
        misfit_from(records, k + 1)
    }
}

/// The last record from number `k` on that can be placed and names the
/// slot `slot`, if there is one.
pub open spec fn last_for<T: ByteConvertable>(records: Seq<Option<T>>, slot: int, k: int) -> Option<
    int,
>
    decreases records.len() - k,
{
    if k >= records.len() || k < 0 {
        None
    } else if last_for(records, slot, k + 1) is Some {
        last_for(records, slot, k + 1)
    } else if misfit(records, k) is None && records[k]->0.index_spec() == slot {
        Some(k)
    } else {
        None
    }
}

/// What placing records gives, when it gives an error: the misfit of the
/// first record that cannot be placed; or, if all can, `MissingRecord`
/// where no record names some slot.
pub open spec fn place_fault<T: ByteConvertable>(records: Seq<Option<T>>) -> Option<LoadError> {
    if misfit_from(records, 0) is Some {
        misfit_from(records, 0)
    } else if exists|slot: int|
        0 <= slot < records.len() && (#[trigger] last_for(records, slot, 0)) is None {
        Some(LoadError::MissingRecord)
    } else {
        None
    }
}

/// Whether `slots` are what placing `records` gives: one slot for each
/// record, and in each slot the last record that names it.
pub open spec fn placed<T: ByteConvertable>(records: Seq<Option<T>>, slots: Seq<Option<T>>) -> bool {
    &&& slots.len() == records.len()
    &&& forall|i: int|
        0 <= i < slots.len() ==> {
            let h = #[trigger] last_for(records, i, 0);
            &&& h is Some
            &&& 0 <= h->0 < records.len()
            &&& slots[i] == records[h->0]
            &&& slots[i] is Some
            &&& slots[i]->0.index_spec() == i
        }
}

/// Puts records that were read one by one into the slots they name; of two
/// records that name one slot the later stays. Nothing is placed if a
/// record is missing (`BadRecord`), if a record names a slot beyond the
/// number of records (`IndexOutOfRange`), or if some slot is named by no
/// record (`MissingRecord`); of several such faults the first record's is
/// reported.
pub fn place_records<T: ByteConvertable>(records: Vec<Option<T>>) -> (result: Result<
    ParallelList<T>,
    LoadError,
>)
    ensures
        match result {
            Ok(list) => place_fault(records@) is None && placed(records@, list@),
            Err(e) => place_fault(records@) == Some(e),
        },
{
    let ghost all = records@;
    let mut records = records;
    let size = records.len();
    let mut list: ParallelList<T> = ParallelList::new(size);
    let mut fault: Option<LoadError> = None;
    while records.len() > 0
        invariant
            size == all.len(),
            records@.len() <= size,
            records@ == all.subrange(0, records@.len() as int),
            list@.len() == size,
            fault == misfit_from(all, records@.len() as int),
            forall|slot: int|
                0 <= slot < size ==> match #[trigger] last_for(all, slot, records@.len() as int) {
                    None => list@[slot] is None,
                    Some(h) => {
                        &&& 0 <= h < size
                        &&& list@[slot] == all[h]
                        &&& list@[slot] is Some
                        &&& list@[slot]->0.index_spec() == slot
                    },
                },
        decreases records@.len(),
    {
        let ghost k = records@.len() - 1;
        let ghost before = list@;
        proof {
            assert(records@[k] == all[k]);
        }
        match records.pop() {
            Some(Some(record)) => {
                let index = record.index() as usize;
                if index >= size {
                    fault = Some(LoadError::IndexOutOfRange);
                } else if !list.is_filled(index) {
                    list.insert(record, index);
                }
            },
            Some(None) => {
                fault = Some(LoadError::BadRecord);
            },
            None => {},
        }
        proof {
            assert(records@ =~= all.subrange(0, k));
            assert forall|slot: int| 0 <= slot < size implies match #[trigger] last_for(
                all,
                slot,
                k,
            ) {
                None => list@[slot] is None,
                Some(h) => {
                    &&& 0 <= h < size
                    &&& list@[slot] == all[h]
                    &&& list@[slot] is Some
                    &&& list@[slot]->0.index_spec() == slot
                },
            } by {
                let later = last_for(all, slot, k + 1);
                if later is Some {
                    assert(list@[slot] == before[slot]);
                }
            }
        }
    }
    match fault {
        Some(e) => Err(e),
        None => {
            if !list.is_full() {
                proof {
                    let empty = choose|i: int|
                        0 <= i < list@.len() && !((#[trigger] list@[i]) is Some);
                    assert(last_for(all, empty, 0) is None);
                }
                Err(LoadError::MissingRecord)
            } else {
                proof {
                    assert forall|slot: int| 0 <= slot < all.len() implies !((
                    #[trigger] last_for(all, slot, 0)) is None) by {
                        assert(list@[slot] is Some);
                    }
                }
                Ok(list)
            }
        },
    }
}

/// Reads collections of one kind of record from one place.
pub struct Loader<'loader, T: ByteConvertable> {
    file_location: &'loader str,
    phantom_data: core::marker::PhantomData<T>,
}

impl<'loader, T: ByteConvertable> Loader<'loader, T> {
    /// The place that the loader reads from.
    pub closed spec fn location(&self) -> Seq<char> {
        self.file_location@
    }

    /// A loader for the place `file_location`.
    pub fn new(file_location: &'loader str) -> (loader: Self)
        ensures
            loader.location() == file_location@,
    {
        Loader { file_location, phantom_data: core::marker::PhantomData }
    }

    /// The place that the loader reads from.
    pub fn file_location(&self) -> (location: &'loader str)
        ensures
            location@ == self.location(),
    {
        self.file_location
    }

    /// Reads a collection from the bytes of its payload, as the function
    /// `load_from_bytes` of this module does.
    pub fn load_from_bytes(bytes: &[u8]) -> (result: Result<ParallelList<T>, LoadError>)
        ensures
            match result {
                Ok(list) => load_fault::<T>(bytes@) is None && loaded(bytes@, list@),
                Err(e) => load_fault::<T>(bytes@) == Some(e),
            },
    {
        self::load_from_bytes(bytes)
    }
}

} // verus!
