//! What is read from a volume, and when a file record is sound, byte by byte.

use vstd::prelude::*;
use crate::scan::fixup;
use crate::scan::mft;
use crate::scan::mft::MftErrorModel;
use crate::scan::volume;
use crate::scan::volume::{AlignedVolumeReader, SeekError, SeekTo};
use crate::text;

verus! {

/// The two bytes from `i` on as a number, the low byte first.
pub open spec fn number_at(r: Seq<u8>, i: int) -> int {
    r[i] as int + 256 * (r[i + 1] as int)
}

/// The header of a record and the array that it speaks of lie in the record: at
/// byte 4 stands where the array starts, at byte 6 how many entries it has.
pub open spec fn array_fits(r: Seq<u8>) -> bool {
    &&& r.len() >= 42
    &&& number_at(r, 4) + 2 <= r.len()
    &&& number_at(r, 4) + 2 * number_at(r, 6) <= r.len()
}

/// Sector `j` is one of those that the array covers, and lies in the record.
pub open spec fn is_covered(r: Seq<u8>, j: int) -> bool {
    0 <= j < number_at(r, 6) - 1 && 512 * j + 512 <= r.len()
}

/// Sector `j` ends in the sequence number, which stands at the start of the
/// array.
pub open spec fn ends_well(r: Seq<u8>, j: int) -> bool {
    r[512 * j + 510] == r[number_at(r, 4)] && r[512 * j + 511] == r[number_at(r, 4) + 1]
}

/// The byte that belongs at `i`: the last two bytes of a covered sector stand in
/// the array, all others where they are.
pub open spec fn true_byte(r: Seq<u8>, i: int) -> u8 {
    if i % 512 >= 510 && is_covered(r, i / 512) {
        r[number_at(r, 4) + 2 + 2 * (i / 512) + (i % 512 - 510)]
    } else {
        r[i]
    }
}

/// A record without room for its header and its array is refused and left as it
/// is.
pub proof fn records_without_room_are_refused(r: Seq<u8>)
    requires
        !array_fits(r),
    ensures
        fixup::fixed_up(r) == (r, false),
{
}

/// No byte of the array is one of the last two of a sector that it covers.
pub open spec fn array_lies_apart(r: Seq<u8>) -> bool {
    forall|i: int|
        number_at(r, 4) <= i < number_at(r, 4) + 2 + 2 * number_at(r, 6) && 510 <= #[trigger] (i
            % 512) ==> !is_covered(r, i / 512)
}

/// An array that ends before the last two bytes of the first sector lies apart
/// from the ends of all sectors.
pub proof fn arrays_in_the_first_sector_lie_apart(r: Seq<u8>)
    requires
        number_at(r, 4) + 2 + 2 * number_at(r, 6) <= 510,
    ensures
        array_lies_apart(r),
{
}

/// A record whose array lies apart from the ends of its sectors is sound exactly
/// if every sector that the array covers ends in the sequence number; then each
/// of its bytes is restored.
pub proof fn sound_records_are_restored(r: Seq<u8>)
    requires
        array_fits(r),
        array_lies_apart(r),
    ensures
        fixup::fixed_up(r).1 <==> forall|j: int| #[trigger] is_covered(r, j) ==> ends_well(r, j),
        fixup::fixed_up(r).1 ==> {
            let fixed = fixup::fixed_up(r).0;
            &&& fixed.len() == r.len()
            &&& forall|i: int| 0 <= i < r.len() ==> #[trigger] fixed[i] == true_byte(r, i)
        },
{
    restored_from(r, r, 0);
}

proof fn restored_from(r: Seq<u8>, cur: Seq<u8>, j: int)
    requires
        array_fits(r),
        array_lies_apart(r),
        0 <= j,
        cur.len() == r.len(),
        forall|i: int|
            0 <= i < r.len() ==> #[trigger] cur[i] == (if i / 512 < j {
                true_byte(r, i)
            } else {
                r[i]
            }),
        forall|k: int| 0 <= k < j && #[trigger] is_covered(r, k) ==> ends_well(r, k),
    ensures
        ({
            let done = fixup::restored(
                cur,
                number_at(r, 4),
                r[number_at(r, 4)],
                r[number_at(r, 4) + 1],
                j,
                number_at(r, 6) - 1,
            );
            &&& done.1 ==> done.0.len() == r.len()
            &&& done.1 ==> forall|i: int|
                0 <= i < r.len() ==> #[trigger] done.0[i] == true_byte(r, i)
            &&& done.1 ==> forall|k: int| #[trigger] is_covered(r, k) ==> ends_well(r, k)
            &&& (forall|k: int| #[trigger] is_covered(r, k) ==> ends_well(r, k)) ==> done.1
        }),
    decreases number_at(r, 6) - 1 - j,
{
    let at = number_at(r, 4);
    let n = number_at(r, 6) - 1;
    let tail = fixup::sector_tail(j);
    assert(tail == 512 * j + 510);
    if j >= n || tail + 2 > r.len() {
        assert(!is_covered(r, j));
        assert forall|i: int| 0 <= i < r.len() implies #[trigger] cur[i] == true_byte(r, i) by {
            if i / 512 >= j {
                assert(!is_covered(r, i / 512));
            }
        }
        assert forall|k: int| #[trigger] is_covered(r, k) implies ends_well(r, k) by {
            assert(k < j);
        }
    } else {
        assert(is_covered(r, j));
        assert(cur[tail] == r[tail] && cur[tail + 1] == r[tail + 1]);
        if ends_well(r, j) {
            let x = cur[at + 2 + 2 * j];
            let y = cur[at + 2 + 2 * j + 1];
            kept_in_array(r, cur, j, at + 2 + 2 * j);
            kept_in_array(r, cur, j, at + 2 + 2 * j + 1);
            let next = cur.update(tail, x).update(tail + 1, y);
            assert forall|i: int| 0 <= i < r.len() implies #[trigger] next[i] == (if i / 512 < j + 1 {
                true_byte(r, i)
            } else {
                r[i]
            }) by {
                if i / 512 == j {
                    if i % 512 >= 510 {
                        assert(i == tail || i == tail + 1);
                    } else {
                        assert(i != tail && i != tail + 1);
                        assert(true_byte(r, i) == r[i]);
                    }
                } else {
                    assert(i != tail && i != tail + 1);
                    assert(next[i] == cur[i]);
                }
            }
            restored_from(r, next, j + 1);
        } else {
            assert(cur[tail] != r[at] || cur[tail + 1] != r[at + 1]);
        }
    }
}

/// The array itself is not among the bytes that are restored.
proof fn kept_in_array(r: Seq<u8>, cur: Seq<u8>, j: int, i: int)
    requires
        array_lies_apart(r),
        number_at(r, 4) <= i < number_at(r, 4) + 2 + 2 * number_at(r, 6),
        i < r.len(),
        cur.len() == r.len(),
        forall|i: int|
            0 <= i < r.len() ==> #[trigger] cur[i] == (if i / 512 < j {
                true_byte(r, i)
            } else {
                r[i]
            }),
    ensures
        cur[i] == r[i],
{
    assert(number_at(r, 4) >= 0);
    if i % 512 >= 510 {
        assert(!is_covered(r, i / 512));
    }
}

/// The table holds as many records as there are whole ones of the size.
pub proof fn whole_records_are_counted(data: Seq<u8>, size: int)
    requires
        size > 0,
    ensures
        fixup::record_count(data, size) * size <= data.len(),
        data.len() < fixup::record_count(data, size) * size + size,
{
    let n = data.len() as int;
    let c = n / size;
    assert(c * size <= n && n < c * size + size) by (nonlinear_arith)
        requires
            size > 0,
            c == n / size,
    ;
}

/// The table of records is cut into records of one size.
pub proof fn tables_are_cut_into_records(data: Seq<u8>, size: int, i: int)
    requires
        size > 0,
        0 <= i < fixup::record_count(data, size),
    ensures
        fixup::record(data, size, i).len() == size,
        forall|k: int|
            0 <= k < size ==> #[trigger] fixup::record(data, size, i)[k] == data[i * size + k],
{
    let c = fixup::record_count(data, size);
    whole_records_are_counted(data, size);
    assert(0 <= i * size && i * size + size <= c * size) by (nonlinear_arith)
        requires
            size > 0,
            0 <= i,
            i + 1 <= c,
    ;
}

/// Every record of a fixed table is fixed up, and what is left over behind the
/// last one is kept.
pub proof fn every_record_of_a_table_is_fixed_up(
    before: Seq<u8>,
    after: Seq<u8>,
    size: int,
    i: int,
    k: int,
)
    requires
        size > 0,
        fixup::all_fixed_up(before, after, size),
    ensures
        after.len() == before.len(),
        0 <= i < fixup::record_count(before, size) && 0 <= k < size
            ==> after[i * size + k] == fixup::fixed_up(
            before.subrange(i * size, i * size + size),
        ).0[k],
        fixup::record_count(before, size) * size <= k < before.len() ==> after[k] == before[k],
{
    if 0 <= i < fixup::record_count(before, size) && 0 <= k < size {
        tables_are_cut_into_records(before, size, i);
        tables_are_cut_into_records(after, size, i);
        assert(fixup::record(after, size, i)[k] == after[i * size + k]);
        assert(fixup::record(before, size, i) == before.subrange(i * size, i * size + size));
    }
}

/// The record that is named in an error is unsound, and all before it are sound.
pub proof fn the_first_unsound_record_is_named(data: Seq<u8>, size: int, i: int, k: int)
    requires
        size > 0,
        fixup::first_corrupt(data, size, i),
    ensures
        0 <= i,
        i * size + size <= data.len(),
        !fixup::fixed_up(data.subrange(i * size, i * size + size)).1,
        0 <= k < i ==> fixup::fixed_up(data.subrange(k * size, k * size + size)).1,
        fixup::corrupt(i as nat) == MftErrorModel::Ntfs(
            "corrupt MFT record "@ + text::decimal(i as nat),
        ),
{
    whole_records_are_counted(data, size);
    let c = fixup::record_count(data, size);
    assert(i * size + size <= c * size) by (nonlinear_arith)
        requires
            size > 0,
            i + 1 <= c,
    ;
    if 0 <= k < i {
        assert(fixup::fixed_up(fixup::record(data, size, k)).1);
    }
}

/// A message that speaks of elevation in any spelling means that the process is
/// not elevated; any other is kept as it is.
pub proof fn messages_of_the_reader(message: Seq<char>, lower: Seq<char>)
    ensures
        text::contains(lower, "elevat"@) ==> mft::reader_error(message, lower)
            == MftErrorModel::NotElevated,
        !text::contains(lower, "elevat"@) ==> mft::reader_error(message, lower)
            == MftErrorModel::Ntfs(message),
{
}

/// A seek leads to the position asked for, counted from the start or from where
/// the reader is; not before the start, not beyond 64 bits, and never from the
/// end.
pub proof fn seeks_lead_where_they_are_asked_to(position: u64, n: u64, d: i64)
    ensures
        volume::seek_target(position, SeekTo::Start(n)) == Ok::<int, SeekError>(n as int),
        volume::seek_target(position, SeekTo::End(d)) == Err::<int, SeekError>(
            SeekError::EndUnsupported,
        ),
        position + d < 0 ==> volume::seek_target(position, SeekTo::Current(d)) == Err::<
            int,
            SeekError,
        >(SeekError::BeforeStart),
        0 <= position + d < 0x1_0000_0000_0000_0000 ==> volume::seek_target(
            position,
            SeekTo::Current(d),
        ) == Ok::<int, SeekError>(position + d),
        position + d >= 0x1_0000_0000_0000_0000 ==> volume::seek_target(
            position,
            SeekTo::Current(d),
        ) == Ok::<int, SeekError>(0xffff_ffff_ffff_ffff),
{
}

/// A read gets the bytes of the buffer from the read position on, as many as are
/// wanted or as there are; outside the buffer it gets none.
pub proof fn reads_get_what_is_buffered(r: AlignedVolumeReader, want: int)
    requires
        r.wf(),
        want >= 0,
    ensures
        ({
            let start = r.buf_start as int;
            let end = r.buf_start + r.buf_len;
            let got = r.served(want);
            &&& start <= r.position < end && want <= end - r.position ==> got.len() == want
            &&& start <= r.position < end && want > end - r.position ==> got.len() == end
                - r.position
            &&& r.position < start || r.position >= end ==> got.len() == 0
            &&& forall|i: int|
                0 <= i < got.len() ==> #[trigger] got[i] == r.buf@[r.position - start + i]
            &&& r.in_buffer() <==> start <= r.position < end
        }),
{
}

/// A chunk starts at the last multiple of 4096 that is not behind the read
/// position.
pub proof fn chunks_are_aligned(r: AlignedVolumeReader)
    ensures
        r.chunk_start() % 4096 == 0,
        0 <= r.chunk_start() <= r.position,
        r.position < r.chunk_start() + 4096,
{
}

/// A chunk is read on until it holds 8 MiB, the volume ends or a read fails;
/// nothing that was read is lost, and an interrupted read changes nothing.
pub proof fn chunks_are_filled(filled: int, n: usize)
    requires
        0 <= filled < 8_388_608,
        n <= 8_388_608 - filled,
    ensures
        n == 0 ==> volume::filling(filled, volume::ReadEvent::Bytes(n)) == volume::FillStep::Done(
            filled as usize,
        ),
        filled + n == 8_388_608 ==> volume::filling(filled, volume::ReadEvent::Bytes(n))
            == volume::FillStep::Done(8_388_608),
        n > 0 && filled + n < 8_388_608 ==> volume::filling(filled, volume::ReadEvent::Bytes(n))
            == volume::FillStep::Again((filled + n) as usize),
        volume::filling(filled, volume::ReadEvent::Interrupted) == volume::FillStep::Again(
            filled as usize,
        ),
        volume::filling(filled, volume::ReadEvent::Failed) == volume::FillStep::Failed,
{
}

} // verus!
