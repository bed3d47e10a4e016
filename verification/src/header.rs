//! The header of a PMTiles archive.
//!
//! A writer leaves the offset of the leaf directories at zero where there are none. Verifiers
//! expect it to point behind the tile data even then.
use crate::error::{Error, ErrorView};
use vstd::prelude::*;

verus! {

/// Where the header holds the offset of the leaf directories.
pub const LEAF_OFFSET_POSITION: usize = 40;

/// Where the header holds the length of the leaf directories.
pub const LEAF_LENGTH_POSITION: usize = 48;

/// Where the header holds the offset of the tile data.
pub const DATA_OFFSET_POSITION: usize = 56;

/// Where the header holds the length of the tile data.
pub const DATA_LENGTH_POSITION: usize = 64;

/// The number in the first `n` of eight bytes, the least significant first.
pub open spec fn little_endian(bytes: Seq<u8>, at: int, n: nat) -> int
    decreases n,
{
    if n == 0 {
        0
    } else {
        little_endian(bytes, at + 1, (n - 1) as nat) * 256 + bytes[at]
    }
}

/// The 64-bit number at a place.
pub open spec fn number_at(bytes: Seq<u8>, at: int) -> int {
    little_endian(bytes, at, 8)
}

/// The header says that there are no leaf directories, and not where they would be.
pub open spec fn leaves_unplaced(bytes: Seq<u8>) -> bool {
    number_at(bytes, LEAF_OFFSET_POSITION as int) == 0 && number_at(
        bytes,
        LEAF_LENGTH_POSITION as int,
    ) == 0
}

/// The end of the tile data.
pub open spec fn data_end(bytes: Seq<u8>) -> int {
    number_at(bytes, DATA_OFFSET_POSITION as int) + number_at(bytes, DATA_LENGTH_POSITION as int)
}

/// What is wrong with a header, if anything is.
pub open spec fn header_fault(bytes: Seq<u8>) -> Option<ErrorView> {
    if bytes.len() < 56 {
        Some(ErrorView::TruncatedHeader)
    } else if !leaves_unplaced(bytes) {
        None
    } else if bytes.len() < 72 {
        Some(ErrorView::TruncatedHeader)
    } else if data_end(bytes) > u64::MAX {
        Some(ErrorView::DataRangeOverflow)
    } else {
        None
    }
}

proof fn lemma_little_endian(bytes: Seq<u8>, at: int)
    ensures
        little_endian(bytes, at, 8) == bytes[at] + 0x100 * bytes[at + 1] + 0x1_0000 * bytes[at + 2]
            + 0x100_0000 * bytes[at + 3] + 0x1_0000_0000 * bytes[at + 4] + 0x100_0000_0000
            * bytes[at + 5] + 0x1_0000_0000_0000 * bytes[at + 6] + 0x100_0000_0000_0000 * bytes[at
            + 7],
{
    reveal_with_fuel(little_endian, 9);
}

/// The 64-bit number at a place.
fn read_number(bytes: &Vec<u8>, at: usize) -> (number: u64)
    requires
        at + 8 <= bytes@.len(),
    ensures
        number == number_at(bytes@, at as int),
{
    proof {
        lemma_little_endian(bytes@, at as int);
        assert(at + 8 <= bytes.len());
    }
    bytes[at] as u64 + 0x100 * bytes[at + 1] as u64 + 0x1_0000 * bytes[at + 2] as u64 + 0x100_0000
        * bytes[at + 3] as u64 + 0x1_0000_0000 * bytes[at + 4] as u64 + 0x100_0000_0000 * bytes[at
        + 5] as u64 + 0x1_0000_0000_0000 * bytes[at + 6] as u64 + 0x100_0000_0000_0000 * bytes[at
        + 7] as u64
}

/// Writes a 64-bit number at a place.
fn write_number(bytes: &mut Vec<u8>, at: usize, number: u64)
    requires
        at + 8 <= old(bytes)@.len(),
    ensures
        final(bytes)@.len() == old(bytes)@.len(),
        number_at(final(bytes)@, at as int) == number,
        forall|i: int|
            0 <= i < old(bytes)@.len() && !(at <= i < at + 8) ==> final(bytes)@[i]
                == old(bytes)@[i],
{
    proof {
        assert(at + 8 <= bytes.len());
    }
    let r1: u64 = number / 0x100;
    let r2: u64 = r1 / 0x100;
    let r3: u64 = r2 / 0x100;
    let r4: u64 = r3 / 0x100;
    let r5: u64 = r4 / 0x100;
    let r6: u64 = r5 / 0x100;
    let r7: u64 = r6 / 0x100;
    bytes.set(at, (number % 0x100) as u8);
    bytes.set(at + 1, (r1 % 0x100) as u8);
    bytes.set(at + 2, (r2 % 0x100) as u8);
    bytes.set(at + 3, (r3 % 0x100) as u8);
    bytes.set(at + 4, (r4 % 0x100) as u8);
    bytes.set(at + 5, (r5 % 0x100) as u8);
    bytes.set(at + 6, (r6 % 0x100) as u8);
    bytes.set(at + 7, r7 as u8);
    proof {
        lemma_little_endian(bytes@, at as int);
    }
}

/// Makes the offset of missing leaf directories point behind the tile data.
pub fn normalize_empty_leaf_offset(bytes: &mut Vec<u8>) -> (result: Result<(), Error>)
    ensures
        final(bytes)@.len() == old(bytes)@.len(),
        match result {
            Err(error) => header_fault(old(bytes)@) == Some(error@) && final(bytes)@
                == old(bytes)@,
            Ok(()) => {
                &&& header_fault(old(bytes)@) is None
                &&& forall|i: int|
                    0 <= i < old(bytes)@.len() && !(LEAF_OFFSET_POSITION <= i
                        < LEAF_OFFSET_POSITION + 8) ==> final(bytes)@[i] == old(bytes)@[i]
                &&& number_at(final(bytes)@, LEAF_OFFSET_POSITION as int) == (if leaves_unplaced(
                    old(bytes)@,
                ) {
                    data_end(old(bytes)@)
                } else {
                    number_at(old(bytes)@, LEAF_OFFSET_POSITION as int)
                })
            },
        },
        result is Ok ==> is_normalized(old(bytes)@, final(bytes)@),
{
    if bytes.len() < 56 {
        return Err(Error::TruncatedHeader);
    }
    let leaf_offset = read_number(bytes, LEAF_OFFSET_POSITION);
    let leaf_length = read_number(bytes, LEAF_LENGTH_POSITION);
    if leaf_offset != 0 || leaf_length != 0 {
        return Ok(());
    }
    if bytes.len() < 72 {
        return Err(Error::TruncatedHeader);
    }
    let data_offset = read_number(bytes, DATA_OFFSET_POSITION);
    let data_length = read_number(bytes, DATA_LENGTH_POSITION);
    let end = match data_offset.checked_add(data_length) {
        Some(end) => end,
        None => return Err(Error::DataRangeOverflow),
    };
    write_number(bytes, LEAF_OFFSET_POSITION, end);
    Ok(())
}

/// The number that eight bytes hold, the least significant first.
pub open spec fn held_at(bytes: Seq<u8>, at: int) -> int {
    bytes[at] + 0x100 * bytes[at + 1] + 0x1_0000 * bytes[at + 2] + 0x100_0000 * bytes[at + 3]
        + 0x1_0000_0000 * bytes[at + 4] + 0x100_0000_0000 * bytes[at + 5] + 0x1_0000_0000_0000
        * bytes[at + 6] + 0x100_0000_0000_0000 * bytes[at + 7]
}

/// The header with its leaf directories placed.
pub open spec fn is_normalized(before: Seq<u8>, after: Seq<u8>) -> bool {
    &&& after.len() == before.len()
    &&& header_fault(before) is None
    &&& forall|i: int|
        0 <= i < before.len() && !(LEAF_OFFSET_POSITION <= i < LEAF_OFFSET_POSITION + 8)
            ==> after[i] == before[i]
    &&& number_at(after, LEAF_OFFSET_POSITION as int) == (if leaves_unplaced(before) {
        data_end(before)
    } else {
        number_at(before, LEAF_OFFSET_POSITION as int)
    })
}

/// A header without leaf directories comes out with their offset, at byte 40, behind the tile data,
/// whose offset is at byte 56 and whose length at byte 64. Any other header, and all else of this
/// one, stays as it is. A second time changes nothing, unless there is no tile data to point
/// behind.
pub proof fn law_missing_leaves_stand_behind_the_data(before: Seq<u8>, after: Seq<u8>)
    requires
        is_normalized(before, after),
    ensures
        held_at(before, 40) == 0 && held_at(before, 48) == 0 ==> held_at(after, 40) == held_at(
            before,
            56,
        ) + held_at(before, 64),
        held_at(before, 40) != 0 || held_at(before, 48) != 0 ==> held_at(after, 40) == held_at(
            before,
            40,
        ),
        forall|i: int|
            0 <= i < before.len() && !(40 <= i < 48) ==> #[trigger] after[i] == before[i],
        held_at(after, 40) != 0 || held_at(after, 48) != 0 ==> !leaves_unplaced(after),
{
    lemma_little_endian(before, 40);
    lemma_little_endian(before, 48);
    lemma_little_endian(before, 56);
    lemma_little_endian(before, 64);
    lemma_little_endian(after, 40);
    lemma_little_endian(after, 48);
}

/// A header is refused exactly where it is too short for what has to be read of it, or its tile data
/// ends beyond 64 bits.
pub proof fn law_good_headers_are_taken(bytes: Seq<u8>)
    ensures
        header_fault(bytes) == Some(ErrorView::TruncatedHeader) <==> bytes.len() < 56
            || bytes.len() < 72 && held_at(bytes, 40) == 0 && held_at(bytes, 48) == 0,
        header_fault(bytes) == Some(ErrorView::DataRangeOverflow) <==> bytes.len() >= 72 && held_at(
            bytes,
            40,
        ) == 0 && held_at(bytes, 48) == 0 && held_at(bytes, 56) + held_at(bytes, 64)
            >= 0x1_0000_0000_0000_0000,
        header_fault(bytes) matches Some(error) ==> error == ErrorView::TruncatedHeader || error
            == ErrorView::DataRangeOverflow,
{
    lemma_little_endian(bytes, 40);
    lemma_little_endian(bytes, 48);
    lemma_little_endian(bytes, 56);
    lemma_little_endian(bytes, 64);
}

} // verus!
