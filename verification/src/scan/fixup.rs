//! The update sequence array of NTFS file records. On disk the last two bytes
//! of every sector of a record are replaced by a sequence number, and kept in
//! an array near the start of the record; a sector that ends otherwise was torn
//! while it was written.

use vstd::prelude::*;
use crate::scan::mft::{MftError, MftErrorModel};
use crate::text;

verus! {

/// The size of a sector.
pub const SECTOR_SIZE: usize = 512;

/// The size of the header of a file record.
pub const RECORD_HEADER_SIZE: usize = 42;

/// The 16-bit number at `i`, low byte first.
pub open spec fn le16(r: Seq<u8>, i: int) -> int {
    r[i] + 256 * r[i + 1]
}

/// Where the sequence number stands in a record.
pub open spec fn usn_at(r: Seq<u8>) -> int {
    le16(r, 4)
}

/// The number of entries of the update sequence array, the sequence number
/// among them.
pub open spec fn usa_len(r: Seq<u8>) -> int {
    le16(r, 6)
}

/// The record has room for its header and for the update sequence array that
/// the header speaks of.
pub open spec fn has_usa(r: Seq<u8>) -> bool {
    &&& r.len() >= RECORD_HEADER_SIZE
    &&& usn_at(r) + 2 <= r.len()
    &&& usn_at(r) + 2 * usa_len(r) <= r.len()
}

/// Where sector `j` ends, but for its last two bytes.
pub open spec fn sector_tail(j: int) -> int {
    512 * j + 510
}

/// The record with the bytes restored in the sectors from `j` up to `n` as far
/// as they lie in it, and whether all of them end in the sequence number `u0`,
/// `u1`. The work stops at a sector that does not.
pub open spec fn restored(r: Seq<u8>, at: int, u0: u8, u1: u8, j: int, n: int) -> (Seq<u8>, bool)
    decreases n - j,
{
    let tail = sector_tail(j);
    if j >= n || tail + 2 > r.len() {
        (r, true)
    } else if r[tail] != u0 || r[tail + 1] != u1 {
        (r, false)
    } else {
        restored(
            r.update(tail, r[at + 2 + 2 * j]).update(tail + 1, r[at + 2 + 2 * j + 1]),
            at,
            u0,
            u1,
            j + 1,
            n,
        )
    }
}

/// The record as it was before it was written to disk, and whether it is sound.
pub open spec fn fixed_up(r: Seq<u8>) -> (Seq<u8>, bool) {
    if has_usa(r) {
        restored(r, usn_at(r), r[usn_at(r)], r[usn_at(r) + 1], 0, usa_len(r) - 1)
    } else {
        (r, false)
    }
}

/// The error for a record that is not sound.
pub open spec fn corrupt(number: nat) -> MftErrorModel {
    MftErrorModel::Ntfs("corrupt MFT record "@ + text::decimal(number))
}

fn corrupt_record(number: u64) -> (r: MftError)
    ensures
        r.model() == corrupt(number as nat),
{
    let n = text::decimal_text(number as u128);
    MftError::Ntfs("corrupt MFT record ".to_owned().concat(n.as_str()))
}

/// Apply the NTFS update-sequence-array fixup to one FILE record, the `len`
/// bytes of `data` from `start` on, in place.
pub fn fixup_record(number: u64, data: &mut Vec<u8>, start: usize, len: usize) -> (r: Result<
    (),
    MftError,
>)
    requires
        start + len <= old(data)@.len(),
    ensures
        final(data)@.len() == old(data)@.len(),
        final(data)@.subrange(start as int, start + len) == fixed_up(
            old(data)@.subrange(start as int, start + len),
        ).0,
        forall|i: int|
            0 <= i < old(data)@.len() && !(start <= i < start + len) ==> #[trigger] final(data)@[i]
                == old(data)@[i],
        r is Ok <==> fixed_up(old(data)@.subrange(start as int, start + len)).1,
        r matches Err(e) ==> e.model() == corrupt(number as nat),
{
    let ghost rec = data@.subrange(start as int, start + len);
    let whole: usize = data.len();
    if len < RECORD_HEADER_SIZE {
        return Err(corrupt_record(number));
    }
    let at: usize = data[start + 4] as usize + 256 * (data[start + 5] as usize);
    let count: usize = data[start + 6] as usize + 256 * (data[start + 7] as usize);
    assert(at == usn_at(rec) && count == usa_len(rec));
    if at + 2 > len {
        return Err(corrupt_record(number));
    }
    if at + 2 * count > len {
        return Err(corrupt_record(number));
    }
    let u0: u8 = data[start + at];
    let u1: u8 = data[start + at + 1];
    let ghost all = fixed_up(rec);
    let mut j: usize = 0;
    let mut tail: usize = SECTOR_SIZE - 2;
    while j + 1 < count && tail + 2 <= len
        invariant
            data@.len() == old(data)@.len(),
            whole == data@.len(),
            start + len <= whole,
            at + 2 <= len,
            at + 2 * count <= len,
            j + 1 <= count || (j == 0 && count == 0),
            tail == sector_tail(j as int),
            count <= 65535,
            rec == old(data)@.subrange(start as int, start + len),
            all == fixed_up(rec),
            all == restored(
                data@.subrange(start as int, start + len),
                at as int,
                u0,
                u1,
                j as int,
                count - 1,
            ),
            forall|i: int|
                0 <= i < whole && !(start <= i < start + len) ==> #[trigger] data@[i] == old(
                    data,
                )@[i],
        decreases count - j,
    {
        let ghost cur = data@.subrange(start as int, start + len);
        let a0: u8 = data[start + at + 2 + 2 * j];
        let a1: u8 = data[start + at + 2 + 2 * j + 1];
        if data[start + tail] != u0 || data[start + tail + 1] != u1 {
            return Err(corrupt_record(number));
        }
        data[start + tail] = a0;
        data[start + tail + 1] = a1;
        assert(data@.subrange(start as int, start + len) =~= cur.update(
            tail as int,
            cur[at + 2 + 2 * j],
        ).update(tail + 1, cur[at + 2 + 2 * j + 1]));
        j += 1;
        tail += SECTOR_SIZE;
    }
    Ok(())
}

/// Record `i` of a table of records of `size` bytes each.
pub open spec fn record(data: Seq<u8>, size: int, i: int) -> Seq<u8> {
    data.subrange(i * size, i * size + size)
}

/// The number of whole records in a table.
pub open spec fn record_count(data: Seq<u8>, size: int) -> int {
    data.len() as int / size
}

/// Record `i` is the first of the table that is not sound.
pub open spec fn first_corrupt(data: Seq<u8>, size: int, i: int) -> bool {
    &&& 0 <= i < record_count(data, size)
    &&& !fixed_up(record(data, size, i)).1
    &&& forall|k: int| 0 <= k < i ==> (#[trigger] fixed_up(record(data, size, k))).1
}

/// `after` is the table `before` with every record fixed up; what is left over
/// behind the last record stays as it was.
pub open spec fn all_fixed_up(before: Seq<u8>, after: Seq<u8>, size: int) -> bool {
    &&& after.len() == before.len()
    &&& forall|i: int|
        0 <= i < record_count(before, size) ==> #[trigger] record(after, size, i) == fixed_up(
            record(before, size, i),
        ).0
    &&& forall|i: int|
        record_count(before, size) * size <= i < before.len() ==> #[trigger] after[i] == before[i]
}

proof fn record_lies_within(len: int, size: int, i: int)
    requires
        size > 0,
        0 <= i < len / size,
    ensures
        0 <= i * size,
        i * size + size <= (len / size) * size,
        (len / size) * size <= len,
{
    assert(0 <= i * size) by (nonlinear_arith)
        requires
            0 <= i,
            0 < size,
    ;
    assert(i * size + size <= (len / size) * size) by (nonlinear_arith)
        requires
            0 <= i,
            i + 1 <= len / size,
            0 < size,
    ;
    assert((len / size) * size <= len) by (nonlinear_arith)
        requires
            0 < size,
    ;
}

proof fn records_lie_apart(size: int, i: int, k: int)
    requires
        size > 0,
        i != k,
    ensures
        i * size + size <= k * size || k * size + size <= i * size,
{
    assert(i < k ==> i * size + size <= k * size) by (nonlinear_arith)
        requires
            size > 0,
    ;
    assert(k < i ==> k * size + size <= i * size) by (nonlinear_arith)
        requires
            size > 0,
    ;
}

/// Fixes up every record of the $MFT's data and counts them. An unsound record
/// makes the whole table unusable.
pub fn fixup_records(data: Vec<u8>, record_size: u64) -> (r: Result<(Vec<u8>, u64), MftError>)
    requires
        record_size > 0,
    ensures
        match r {
            Ok((after, max_record)) => {
                &&& max_record == record_count(data@, record_size as int)
                &&& all_fixed_up(data@, after@, record_size as int)
                &&& forall|i: int|
                    0 <= i < max_record ==> (#[trigger] fixed_up(
                        record(data@, record_size as int, i),
                    )).1
            },
            Err(e) => exists|i: int| #[trigger]
                first_corrupt(data@, record_size as int, i) && e.model() == corrupt(i as nat),
        },
{
    let ghost before = data@;
    let ghost size = record_size as int;
    let mut after = data;
    let whole: usize = after.len();
    let max_record: u64 = whole as u64 / record_size;
    let mut number: u64 = 0;
    let mut start: usize = 0;
    while number < max_record
        invariant
            record_size > 0,
            size == record_size,
            before == data@,
            whole == before.len(),
            max_record == record_count(before, size),
            number <= max_record,
            start == number * size,
            after@.len() == before.len(),
            forall|i: int|
                0 <= i < number ==> #[trigger] record(after@, size, i) == fixed_up(
                    record(before, size, i),
                ).0,
            forall|i: int| 0 <= i < number ==> (#[trigger] fixed_up(record(before, size, i))).1,
            forall|i: int| start <= i < before.len() ==> #[trigger] after@[i] == before[i],
        decreases max_record - number,
    {
        let ghost now = after@;
        proof {
            record_lies_within(before.len() as int, size, number as int);
            assert(record(now, size, number as int) =~= record(before, size, number as int));
        }
        match fixup_record(number, &mut after, start, record_size as usize) {
            Ok(()) => {},
            Err(e) => {
                assert(first_corrupt(before, size, number as int));
                return Err(e);
            },
        }
        proof {
            assert forall|i: int| 0 <= i < number implies #[trigger] record(after@, size, i)
                == fixed_up(record(before, size, i)).0 by {
                record_lies_within(before.len() as int, size, i);
                records_lie_apart(size, i, number as int);
                assert(record(after@, size, i) =~= record(now, size, i));
            }
            assert((number + 1) * size == number * size + size) by (nonlinear_arith);
        }
        number += 1;
        start += record_size as usize;
    }
    Ok((after, max_record))
}

/// `i` is one of the last two bytes of one of the first `n` sectors.
pub open spec fn in_tail(i: int, n: int) -> bool {
    0 <= i < 512 * n && i % 512 >= 510
}

/// `stored` is what is written to disk for the record `clean`: its update
/// sequence array, which lies within the first sector, holds the last two
/// bytes of each sector, and the sequence number stands in their place.
pub open spec fn protects(stored: Seq<u8>, clean: Seq<u8>) -> bool {
    let at = usn_at(stored);
    let n = usa_len(stored) - 1;
    &&& has_usa(stored)
    &&& n >= 0
    &&& at + 2 * usa_len(stored) <= 510
    &&& stored.len() == clean.len()
    &&& 512 * n <= stored.len()
    &&& forall|j: int|
        #![trigger sector_tail(j)]
        0 <= j < n ==> {
            &&& stored[sector_tail(j)] == stored[at]
            &&& stored[sector_tail(j) + 1] == stored[at + 1]
            &&& stored[at + 2 + 2 * j] == clean[sector_tail(j)]
            &&& stored[at + 2 + 2 * j + 1] == clean[sector_tail(j) + 1]
        }
    &&& forall|i: int|
        0 <= i < stored.len() && !in_tail(i, n) ==> #[trigger] stored[i] == clean[i]
}

/// The fixup gives back the record as it was before it was written to disk.
pub proof fn fixup_undoes_protection(stored: Seq<u8>, clean: Seq<u8>)
    requires
        protects(stored, clean),
    ensures
        fixed_up(stored) == (clean, true),
{
    restored_step(stored, clean, stored, 0);
}

proof fn restored_step(stored: Seq<u8>, clean: Seq<u8>, cur: Seq<u8>, j: int)
    requires
        protects(stored, clean),
        0 <= j <= usa_len(stored) - 1,
        cur.len() == stored.len(),
        forall|i: int|
            0 <= i < cur.len() ==> #[trigger] cur[i] == (if in_tail(i, j) {
                clean[i]
            } else {
                stored[i]
            }),
    ensures
        restored(
            cur,
            usn_at(stored),
            stored[usn_at(stored)],
            stored[usn_at(stored) + 1],
            j,
            usa_len(stored) - 1,
        ) == (clean, true),
    decreases usa_len(stored) - 1 - j,
{
    let at = usn_at(stored);
    let n = usa_len(stored) - 1;
    if j == n {
        assert(cur =~= clean);
    } else {
        let tail = sector_tail(j);
        let next = cur.update(tail, cur[at + 2 + 2 * j]).update(tail + 1, cur[at + 2 + 2 * j + 1]);
        assert forall|i: int| 0 <= i < next.len() implies #[trigger] next[i] == (if in_tail(
            i,
            j + 1,
        ) {
            clean[i]
        } else {
            stored[i]
        }) by {
            assert(in_tail(i, j + 1) <==> in_tail(i, j) || i == tail || i == tail + 1);
        }
        restored_step(stored, clean, next, j + 1);
    }
}

/// A record with a sector that does not end in the sequence number is refused.
pub proof fn torn_records_are_refused(r: Seq<u8>, j: int)
    requires
        has_usa(r),
        usn_at(r) + 2 * usa_len(r) <= 510,
        0 <= j < usa_len(r) - 1,
        sector_tail(j) + 2 <= r.len(),
        r[sector_tail(j)] != r[usn_at(r)] || r[sector_tail(j) + 1] != r[usn_at(r) + 1],
    ensures
        !fixed_up(r).1,
{
    torn_from(r, usn_at(r), r[usn_at(r)], r[usn_at(r) + 1], 0, usa_len(r) - 1, j);
}

proof fn torn_from(r: Seq<u8>, at: int, u0: u8, u1: u8, k: int, n: int, j: int)
    requires
        0 <= k <= j < n,
        sector_tail(j) + 2 <= r.len(),
        r[sector_tail(j)] != u0 || r[sector_tail(j) + 1] != u1,
    ensures
        !restored(r, at, u0, u1, k, n).1,
    decreases n - k,
{
    let tail = sector_tail(k);
    if k < j && r[tail] == u0 && r[tail + 1] == u1 {
        torn_from(
            r.update(tail, r[at + 2 + 2 * k]).update(tail + 1, r[at + 2 + 2 * k + 1]),
            at,
            u0,
            u1,
            k + 1,
            n,
            j,
        );
    }
}

} // verus!
