//! Reading the basic-block table of a trace into the modules' bitmaps.
//!
//! Every record names a module by its place in the module table of the file.
//! A record that names no slot, or an empty one, is passed over. A record
//! whose block does not end below the module's end is passed over too;
//! any other marks the offsets of its block as executed.

use crate::drcov::{module_views, record_at, BBEntry, RECORD_SIZE};
use crate::error::DecodeError;
use crate::grammar::{Grammar, BASIC_BLOCK_HEADER};
use crate::lines::{after_line, find_line, next_line};
use crate::module::{block_fits, block_offsets, capture_number, Module, ModuleView};
use crate::pattern::{captures, captures_view, pattern_captures};
use crate::table::{
    compact,
    lemma_compact_index,
    lemma_compact_update,
    lemma_rank_update,
    rank,
    represents,
};
use crate::util::parse_capture_group;
use vstd::prelude::*;
use vstd::slice::slice_subrange;

verus! {

/// Record number `n` of the records that start at `data_start`.
pub open spec fn nth_record(bytes: Seq<u8>, data_start: int, n: int) -> BBEntry {
    record_at(bytes, data_start + RECORD_SIZE * n)
}

/// Whether `record` marks `offset` in the module of slot `slot`, which has
/// `module_size` bytes.
pub open spec fn record_marks(record: BBEntry, slot: int, module_size: usize, offset: u32) -> bool {
    &&& record.module_id == slot
    &&& block_fits(module_size, record.start, record.size)
    &&& block_offsets(record.start, record.size).contains(offset)
}

/// The offsets that the first `count` records mark in the module of slot
/// `slot`.
pub open spec fn marked(
    bytes: Seq<u8>,
    data_start: int,
    count: int,
    slot: int,
    module_size: usize,
) -> Set<u32> {
    Set::new(
        |offset: u32|
            exists|n: int|
                0 <= n < count && record_marks(
                    #[trigger] nth_record(bytes, data_start, n),
                    slot,
                    module_size,
                    offset,
                ),
    )
}

/// A slot after the first `count` records were read: its module has
/// executed what it had and what the records mark in it.
pub open spec fn slot_with_blocks(
    slots: Seq<Option<ModuleView>>,
    slot: int,
    bytes: Seq<u8>,
    data_start: int,
    count: int,
) -> Option<ModuleView> {
    match slots[slot] {
        Some(module) => Some(
            ModuleView {
                executed: module.executed.union(
                    marked(bytes, data_start, count, slot, module.size),
                ),
                ..module
            },
        ),
        None => None,
    }
}

/// The slots after the first `count` records were read.
pub open spec fn slots_with_blocks(
    slots: Seq<Option<ModuleView>>,
    bytes: Seq<u8>,
    data_start: int,
    count: int,
) -> Seq<Option<ModuleView>> {
    Seq::new(slots.len(), |slot: int| slot_with_blocks(slots, slot, bytes, data_start, count))
}

/// The number of records that the outcome of matching the header of the
/// basic-block table gives.
pub open spec fn block_count_of_captures(captures: Option<Seq<Option<Seq<u8>>>>) -> Result<
    usize,
    DecodeError,
> {
    match captures {
        Some(groups) => match capture_number(groups, 1, 10) {
            Some(count) => Ok(count),
            None => Err(DecodeError::BasicBlockHeaderInvalid),
        },
        None => Err(DecodeError::BasicBlockHeaderInvalid),
    }
}

/// Reads the number of records from the outcome of matching the header of
/// the basic-block table.
pub fn block_count_from_captures(captures: Option<Vec<Option<Vec<u8>>>>) -> (count: Result<
    usize,
    DecodeError,
>)
    ensures
        count == block_count_of_captures(captures_view(captures)),
{
    match captures {
        Some(groups) => match parse_capture_group::<usize>(&groups, 1) {
            Some(count) => Ok(count),
            None => Err(DecodeError::BasicBlockHeaderInvalid),
        },
        None => Err(DecodeError::BasicBlockHeaderInvalid),
    }
}

/// The slots after the basic-block table at or after `from` was read. The
/// records start just behind the terminator of the header line, and as many
/// of them as the header announces must be there.
pub open spec fn blocks_applied(bytes: Seq<u8>, from: int, slots: Seq<Option<ModuleView>>) -> Result<
    Seq<Option<ModuleView>>,
    DecodeError,
> {
    match next_line(bytes, from) {
        None => Err(DecodeError::BasicBlockHeaderMissing),
        Some((start, end)) => match block_count_of_captures(
            pattern_captures(BASIC_BLOCK_HEADER@, bytes.subrange(start, end)),
        ) {
            Err(error) => Err(error),
            Ok(count) => {
                let data_start = after_line(bytes, end);
                if bytes.len() - data_start < RECORD_SIZE * count {
                    Err(DecodeError::BasicBlockDataTruncated)
                } else {
                    Ok(slots_with_blocks(slots, bytes, data_start, count as int))
                }
            },
        },
    }
}

/// One more record adds the offsets of its block to the module it names, if
/// the block fits, and nothing to any other module.
pub proof fn lemma_marked_step(
    bytes: Seq<u8>,
    data_start: int,
    count: int,
    slot: int,
    module_size: usize,
)
    requires
        0 <= count,
    ensures
        marked(bytes, data_start, count + 1, slot, module_size) == {
            let record = nth_record(bytes, data_start, count);
            if record.module_id == slot && block_fits(module_size, record.start, record.size) {
                marked(bytes, data_start, count, slot, module_size).union(
                    block_offsets(record.start, record.size),
                )
            } else {
                marked(bytes, data_start, count, slot, module_size)
            }
        },
{
    let record = nth_record(bytes, data_start, count);
    let before = marked(bytes, data_start, count, slot, module_size);
    let after = marked(bytes, data_start, count + 1, slot, module_size);
    let expected = if record.module_id == slot && block_fits(
        module_size,
        record.start,
        record.size,
    ) {
        before.union(block_offsets(record.start, record.size))
    } else {
        before
    };
    assert forall|offset: u32| after.contains(offset) == expected.contains(offset) by {
        if after.contains(offset) {
            let n = choose|n: int|
                0 <= n < count + 1 && record_marks(
                    #[trigger] nth_record(bytes, data_start, n),
                    slot,
                    module_size,
                    offset,
                );
            if n < count {
                assert(before.contains(offset));
            }
        }
        if before.contains(offset) {
            let n = choose|n: int|
                0 <= n < count && record_marks(
                    #[trigger] nth_record(bytes, data_start, n),
                    slot,
                    module_size,
                    offset,
                );
            assert(record_marks(nth_record(bytes, data_start, n), slot, module_size, offset));
        }
        if expected.contains(offset) && !before.contains(offset) {
            assert(record_marks(
                nth_record(bytes, data_start, count),
                slot,
                module_size,
                offset,
            ));
        }
    }
    assert(after =~= expected);
}

/// Without records nothing is marked.
pub proof fn lemma_marked_none(bytes: Seq<u8>, data_start: int, slot: int, module_size: usize)
    ensures
        marked(bytes, data_start, 0, slot, module_size) == Set::<u32>::empty(),
{
    assert(marked(bytes, data_start, 0, slot, module_size) =~= Set::<u32>::empty());
}

/// Reads the basic-block table that stands at or after `from` into the
/// modules of `table`.
pub(crate) fn read_blocks(
    grammar: &Grammar,
    bytes: &[u8],
    from: usize,
    table: &mut Vec<Module>,
    index: &Vec<Option<usize>>,
    Ghost(slots): Ghost<Seq<Option<ModuleView>>>,
) -> (outcome: Result<(), DecodeError>)
    requires
        from <= bytes@.len(),
        represents(old(table)@, index@, slots),
    ensures
        match blocks_applied(bytes@, from as int, slots) {
            Ok(after) => outcome.is_ok() && module_views(final(table)@) == compact(after),
            Err(error) => outcome matches Err(e) && e == error,
        },
{
    let header = match find_line(bytes, from) {
        Some(header) => header,
        None => {
            return Err(DecodeError::BasicBlockHeaderMissing);
        },
    };
    let count = block_count_from_captures(
        captures(grammar.basic_block_header(), slice_subrange(bytes, header.0, header.1)),
    )?;
    let data_start: usize = if header.1 < bytes.len() {
        header.1 + 1
    } else {
        bytes.len()
    };
    if (bytes.len() - data_start) / RECORD_SIZE < count {
        return Err(DecodeError::BasicBlockDataTruncated);
    }
    let modules: usize = table.len();
    let ghost mut current = slots;
    proof {
        assert forall|slot: int| 0 <= slot < slots.len() implies slots[slot] == slot_with_blocks(
            slots,
            slot,
            bytes@,
            data_start as int,
            0,
        ) by {
            if slots[slot].is_some() {
                let module = slots[slot].unwrap();
                lemma_marked_none(bytes@, data_start as int, slot, module.size);
                assert(module.executed.union(Set::<u32>::empty()) =~= module.executed);
            }
        }
        assert(current =~= slots_with_blocks(slots, bytes@, data_start as int, 0));
    }
    let mut n: usize = 0;
    while n < count
        invariant
            n <= count,
            data_start <= bytes@.len() <= usize::MAX,
            RECORD_SIZE * count <= bytes@.len() - data_start,
            table@.len() == modules,
            current.len() == slots.len(),
            represents(table@, index@, current),
            current == slots_with_blocks(slots, bytes@, data_start as int, n as int),
        decreases count - n,
    {
        let entry = match BBEntry::from_reader(bytes, data_start + RECORD_SIZE * n) {
            Ok(entry) => entry,
            Err(error) => {
                return Err(error);
            },
        };
        assert(entry == nth_record(bytes@, data_start as int, n as int));
        let id: usize = entry.module_id as usize;
        let ghost before = current;
        if id < index.len() {
            match index[id] {
                Some(place) => {
                    proof {
                        assert(index@[id as int] == Some(place));
                        assert(before[id as int].is_some());
                        lemma_compact_index(before, id as int);
                        assert(module_views(table@).len() == table@.len());
                        assert(rank(before, id as int) == place);
                        assert(module_views(table@)[place as int] == table@[place as int]@);
                    }
                    let ghost old_module = table@[place as int]@;
                    table[place].insert_block(entry.start, entry.size);
                    proof {
                        let new_module = table@[place as int]@;
                        assert(new_module == old_module.with_block(entry.start, entry.size));
                        current = before.update(id as int, Some(new_module));
                        lemma_compact_update(before, id as int, new_module);
                        assert(module_views(table@) =~= compact(before).update(
                            place as int,
                            new_module,
                        ));
                        assert forall|k: int| 0 <= k < current.len() implies #[trigger] index@[k]
                            == if current[k].is_some() {
                            Some(rank(current, k) as usize)
                        } else {
                            None
                        } by {
                            lemma_rank_update(before, id as int, new_module, k);
                        }
                    }
                },
                None => {},
            }
        }
        proof {
            assert forall|slot: int| 0 <= slot < slots.len() implies current[slot]
                == slot_with_blocks(slots, slot, bytes@, data_start as int, n + 1) by {
                if slots[slot].is_some() {
                    let module = slots[slot].unwrap();
                    lemma_marked_step(bytes@, data_start as int, n as int, slot, module.size);
                    assert(before[slot] == slot_with_blocks(
                        slots,
                        slot,
                        bytes@,
                        data_start as int,
                        n as int,
                    ));
                    if slot == id {
                        let old_marked = marked(
                            bytes@,
                            data_start as int,
                            n as int,
                            slot,
                            module.size,
                        );
                        assert(module.executed.union(old_marked).union(
                            block_offsets(entry.start, entry.size),
                        ) =~= module.executed.union(
                            old_marked.union(block_offsets(entry.start, entry.size)),
                        ));
                    }
                } else {
                    assert(before[slot] == slot_with_blocks(
                        slots,
                        slot,
                        bytes@,
                        data_start as int,
                        n as int,
                    ));
                }
            }
            assert(current =~= slots_with_blocks(slots, bytes@, data_start as int, n + 1));
        }
        n = n + 1;
    }
    Ok(())
}

} // verus!
