//! Reading the module table of a trace.
//!
//! The basic-block records of a trace name a module by its place in the
//! table as the file lists it. Filters drop lines from the table, so the
//! reader keeps, beside the modules it built, a slot for every line of the
//! file: `None` for a line that was dropped, else the module. A record
//! whose slot is empty is passed over, and no module takes another's place.

use crate::drcov::module_views;
use crate::error::DecodeError;
use crate::filter::{DrcovFilters, DrcovFiltersView};
use crate::grammar::{Grammar, ModuleLineFormat, MODULE_HEADER, MODULE_HEADER_LEGACY};
use crate::lines::{find_line, next_line};
use crate::module::{capture_number, module_of_line, Module, ModuleView};
use crate::pattern::{captures, captures_view, pattern_captures};
use crate::util::{group_text, parse_capture_group, parse_unsigned};
use vstd::prelude::*;
use vstd::slice::slice_subrange;

verus! {

/// The modules of a list of slots, in order, without the empty slots.
pub open spec fn compact(slots: Seq<Option<ModuleView>>) -> Seq<ModuleView>
    decreases slots.len(),
{
    if slots.len() == 0 {
        Seq::empty()
    } else {
        match slots.last() {
            Some(module) => compact(slots.drop_last()).push(module),
            None => compact(slots.drop_last()),
        }
    }
}

/// The number of modules in the slots before slot `index`: the place that
/// the module of slot `index` has among the modules.
pub open spec fn rank(slots: Seq<Option<ModuleView>>, index: int) -> int {
    compact(slots.take(index)).len() as int
}

/// The module of a filled slot stands at its rank among the modules.
pub proof fn lemma_compact_index(slots: Seq<Option<ModuleView>>, index: int)
    requires
        0 <= index < slots.len(),
        slots[index].is_some(),
    ensures
        0 <= rank(slots, index) < compact(slots).len(),
        compact(slots)[rank(slots, index)] == slots[index].unwrap(),
    decreases slots.len(),
{
    let shorter = slots.drop_last();
    if index == slots.len() - 1 {
        assert(slots.take(index) =~= shorter);
    } else {
        assert(slots.take(index) =~= shorter.take(index));
        lemma_compact_index(shorter, index);
    }
}

/// Replacing the module of a filled slot replaces it among the modules and
/// moves nothing.
pub proof fn lemma_compact_update(slots: Seq<Option<ModuleView>>, index: int, module: ModuleView)
    requires
        0 <= index < slots.len(),
        slots[index].is_some(),
    ensures
        0 <= rank(slots, index) < compact(slots).len(),
        compact(slots.update(index, Some(module))) == compact(slots).update(
            rank(slots, index),
            module,
        ),
    decreases slots.len(),
{
    let updated = slots.update(index, Some(module));
    let shorter = slots.drop_last();
    lemma_compact_index(slots, index);
    if index == slots.len() - 1 {
        assert(slots.take(index) =~= shorter);
        assert(updated.drop_last() =~= shorter);
        assert(compact(updated) =~= compact(slots).update(rank(slots, index), module));
    } else {
        assert(slots.take(index) =~= shorter.take(index));
        assert(updated.drop_last() =~= shorter.update(index, Some(module)));
        lemma_compact_update(shorter, index, module);
        assert(compact(updated) =~= compact(slots).update(rank(slots, index), module));
    }
}

/// Replacing the module of a filled slot changes no rank.
pub proof fn lemma_rank_update(
    slots: Seq<Option<ModuleView>>,
    index: int,
    module: ModuleView,
    other: int,
)
    requires
        0 <= index < slots.len(),
        slots[index].is_some(),
        0 <= other <= slots.len(),
    ensures
        rank(slots.update(index, Some(module)), other) == rank(slots, other),
{
    let updated = slots.update(index, Some(module));
    if index < other {
        assert(updated.take(other) =~= slots.take(other).update(index, Some(module)));
        lemma_compact_update(slots.take(other), index, module);
    } else {
        assert(updated.take(other) =~= slots.take(other));
    }
}

/// A new slot at the end adds its module, if it has one, at the end, and
/// changes no rank of the slots before it.
pub proof fn lemma_compact_push(
    slots: Seq<Option<ModuleView>>,
    slot: Option<ModuleView>,
    other: int,
)
    requires
        0 <= other <= slots.len(),
    ensures
        compact(slots.push(slot)) == match slot {
            Some(module) => compact(slots).push(module),
            None => compact(slots),
        },
        rank(slots.push(slot), other) == rank(slots, other),
        rank(slots.push(slot), slots.len() as int) == compact(slots).len(),
{
    let longer = slots.push(slot);
    assert(longer.drop_last() =~= slots);
    assert(longer.take(other) =~= slots.take(other));
    assert(longer.take(slots.len() as int) =~= slots);
}

/// Whether a table and its index stand for a list of slots: the table holds
/// the modules of the filled slots in order, and the index gives for every
/// slot the place of its module in the table, or `None` for an empty slot.
pub open spec fn represents(
    table: Seq<Module>,
    index: Seq<Option<usize>>,
    slots: Seq<Option<ModuleView>>,
) -> bool {
    &&& index.len() == slots.len()
    &&& module_views(table) == compact(slots)
    &&& forall|i: int|
        0 <= i < slots.len() ==> #[trigger] index[i] == if slots[i].is_some() {
            Some(rank(slots, i) as usize)
        } else {
            None
        }
}

/// What the header of a module table says.
#[derive(Debug, Clone, Copy, PartialEq, Eq, Structural)]
pub struct TableShape {
    /// The version of the grammar of the module lines.
    pub version: u32,
    /// The number of module lines.
    pub count: usize,
    /// Whether a line of column names stands between header and lines.
    pub has_column_line: bool,
}

/// The number in group `index`, read in decimal into 32 bits.
pub open spec fn capture_u32(groups: Seq<Option<Seq<u8>>>, index: int) -> Option<u32> {
    match group_text(groups, index) {
        Some(text) => match parse_unsigned(text, 10, u32::MAX as int) {
            Some(v) => Some(v as u32),
            None => None,
        },
        None => None,
    }
}

/// What a header line says, given the outcome of matching it against the
/// legacy grammar and against the versioned one. The legacy grammar is
/// tried first: it gives only a count, the version is then 1, and no line
/// of column names follows. The versioned grammar gives both.
pub open spec fn table_shape_of_captures(
    legacy: Option<Seq<Option<Seq<u8>>>>,
    versioned: Option<Seq<Option<Seq<u8>>>>,
) -> Result<TableShape, DecodeError> {
    match legacy {
        Some(groups) => match capture_number(groups, 1, 10) {
            Some(count) => Ok(TableShape { version: 1, count, has_column_line: false }),
            None => Err(DecodeError::ModuleHeaderInvalid),
        },
        None => match versioned {
            Some(groups) => match (capture_u32(groups, 1), capture_number(groups, 2, 10)) {
                (Some(version), Some(count)) => Ok(
                    TableShape { version, count, has_column_line: true },
                ),
                _ => Err(DecodeError::ModuleHeaderInvalid),
            },
            None => Err(DecodeError::ModuleHeaderInvalid),
        },
    }
}

/// What a header line says.
pub open spec fn table_shape_of_line(line: Seq<u8>) -> Result<TableShape, DecodeError> {
    table_shape_of_captures(
        pattern_captures(MODULE_HEADER_LEGACY@, line),
        pattern_captures(MODULE_HEADER@, line),
    )
}

/// Reads what a header line says from the outcome of matching it against
/// the legacy grammar and against the versioned one.
pub fn table_shape_from_captures(
    legacy: Option<Vec<Option<Vec<u8>>>>,
    versioned: Option<Vec<Option<Vec<u8>>>>,
) -> (shape: Result<TableShape, DecodeError>)
    ensures
        shape == table_shape_of_captures(captures_view(legacy), captures_view(versioned)),
{
    match legacy {
        Some(groups) => match parse_capture_group::<usize>(&groups, 1) {
            Some(count) => Ok(TableShape { version: 1, count, has_column_line: false }),
            None => Err(DecodeError::ModuleHeaderInvalid),
        },
        None => match versioned {
            Some(groups) => {
                let version = parse_capture_group::<u32>(&groups, 1);
                let count = parse_capture_group::<usize>(&groups, 2);
                match (version, count) {
                    (Some(version), Some(count)) => Ok(
                        TableShape { version, count, has_column_line: true },
                    ),
                    _ => Err(DecodeError::ModuleHeaderInvalid),
                }
            },
            None => Err(DecodeError::ModuleHeaderInvalid),
        },
    }
}

/// The slot that a line of the table fills: the line is first rewritten by
/// the path map; if the filters then drop it the slot stays empty and the
/// line is not read any further, else it must denote a module.
pub open spec fn slot_of_line(format: ModuleLineFormat, filters: DrcovFiltersView, raw: Seq<u8>) -> Result<
    Option<ModuleView>,
    DecodeError,
> {
    let line = filters.rewritten(raw);
    if filters.retains(line) {
        match module_of_line(format, line) {
            Ok(module) => Ok(Some(module)),
            Err(error) => Err(error),
        }
    } else {
        Ok(None)
    }
}

/// The slots of the first `count` lines at or after `from`, and the position
/// where the last of them ends.
pub open spec fn module_slots(
    bytes: Seq<u8>,
    from: int,
    format: ModuleLineFormat,
    filters: DrcovFiltersView,
    count: nat,
) -> Result<(Seq<Option<ModuleView>>, int), DecodeError>
    decreases count,
{
    if count == 0 {
        Ok((Seq::empty(), from))
    } else {
        match module_slots(bytes, from, format, filters, (count - 1) as nat) {
            Err(error) => Err(error),
            Ok((slots, pos)) => match next_line(bytes, pos) {
                None => Err(DecodeError::ModuleLineMissing),
                Some((start, end)) => match slot_of_line(
                    format,
                    filters,
                    bytes.subrange(start, end),
                ) {
                    Err(error) => Err(error),
                    Ok(slot) => Ok((slots.push(slot), end)),
                },
            },
        }
    }
}

/// The first line that fails makes the whole table fail, with its error.
pub proof fn lemma_module_slots_error(
    bytes: Seq<u8>,
    from: int,
    format: ModuleLineFormat,
    filters: DrcovFiltersView,
    failed: nat,
    count: nat,
)
    requires
        failed <= count,
        module_slots(bytes, from, format, filters, failed).is_err(),
    ensures
        module_slots(bytes, from, format, filters, count) == module_slots(
            bytes,
            from,
            format,
            filters,
            failed,
        ),
    decreases count,
{
    if failed < count {
        lemma_module_slots_error(bytes, from, format, filters, failed, (count - 1) as nat);
    }
}

/// Whether the offset of slot `index` can be derived: the slot is empty, or
/// its module contains itself, or the module it names as containing it
/// stands in an earlier, filled slot and starts no higher than it.
pub open spec fn offset_derivable(slots: Seq<Option<ModuleView>>, index: int) -> bool {
    match slots[index] {
        Some(module) => match module.containing_index {
            Some(container) => container == index || (container < index && (
            slots[container as int] matches Some(parent) && parent.segment_start
                <= module.segment_start)),
            None => true,
        },
        None => true,
    }
}

/// Slot `index` with its segment offset derived: the distance from the start
/// of the containing module to its own start. A module that contains itself
/// keeps the offset it has.
pub open spec fn with_derived_offset(slots: Seq<Option<ModuleView>>, index: int) -> Option<
    ModuleView,
> {
    match slots[index] {
        Some(module) => match module.containing_index {
            Some(container) if container != index => Some(
                ModuleView {
                    segment_offset: (module.segment_start
                        - slots[container as int].unwrap().segment_start) as usize,
                    ..module
                },
            ),
            _ => Some(module),
        },
        None => None,
    }
}

/// The slots with their segment offsets resolved. Only a version 3 table
/// needs that: earlier versions name no containing module, later ones give
/// the offset in the line itself. A version 3 table with a slot whose
/// offset cannot be derived is invalid.
///
/// That holds also where the containing module stood in the file and the
/// filters dropped its line: the format names no outcome for a module
/// whose container is gone, and this decoder chooses to give the file up
/// with `ContainerInvalid` rather than to guess an offset.
pub open spec fn resolved(format: ModuleLineFormat, slots: Seq<Option<ModuleView>>) -> Result<
    Seq<Option<ModuleView>>,
    DecodeError,
> {
    if format != ModuleLineFormat::V3 {
        Ok(slots)
    } else if forall|i: int| 0 <= i < slots.len() ==> offset_derivable(slots, i) {
        Ok(Seq::new(slots.len(), |i: int| with_derived_offset(slots, i)))
    } else {
        Err(DecodeError::ContainerInvalid)
    }
}

/// In a resolved version 3 table, a module that another module contains has
/// as its offset the distance from the container's start to its own; the
/// container stands in an earlier slot. A module that contains itself keeps
/// its offset.
pub proof fn lemma_resolved_offset(slots: Seq<Option<ModuleView>>, index: int)
    requires
        0 <= index < slots.len(),
        resolved(ModuleLineFormat::V3, slots).is_ok(),
        slots[index].is_some(),
    ensures
        ({
            let module = slots[index].unwrap();
            let after = resolved(ModuleLineFormat::V3, slots).unwrap();
            &&& after.len() == slots.len()
            &&& after[index].is_some()
            &&& after[index].unwrap().segment_start == module.segment_start
            &&& match module.containing_index {
                Some(container) if container != index => {
                    &&& container < index
                    &&& slots[container as int].is_some()
                    &&& after[index].unwrap().segment_offset + slots[container as int].unwrap().segment_start
                        == module.segment_start
                },
                _ => after[index].unwrap().segment_offset == module.segment_offset,
            }
        }),
{
    assert(offset_derivable(slots, index));
}

/// The module table that stands at or after `from`: its version, its slots
/// with resolved offsets, and the position where its last line ends.
pub open spec fn module_table(bytes: Seq<u8>, from: int, filters: DrcovFiltersView) -> Result<
    (u32, Seq<Option<ModuleView>>, int),
    DecodeError,
> {
    match next_line(bytes, from) {
        None => Err(DecodeError::ModuleHeaderMissing),
        Some((start, end)) => match table_shape_of_line(bytes.subrange(start, end)) {
            Err(error) => Err(error),
            Ok(shape) => {
                let lines_from = if shape.has_column_line {
                    match next_line(bytes, end) {
                        Some((_, columns_end)) => columns_end,
                        None => end,
                    }
                } else {
                    end
                };
                let format = ModuleLineFormat::spec_of_version(shape.version);
                match module_slots(bytes, lines_from, format, filters, shape.count as nat) {
                    Err(error) => Err(error),
                    Ok((slots, pos)) => match resolved(format, slots) {
                        Err(error) => Err(error),
                        Ok(slots) => Ok((shape.version, slots, pos)),
                    },
                }
            },
        },
    }
}

/// A module table as it is held while a file is decoded.
pub(crate) struct SlottedTable {
    /// The version that the header gives.
    pub version: u32,
    /// The modules that were kept.
    pub table: Vec<Module>,
    /// For every line of the file's table, the place of its module in
    /// `table`, or `None` where the line was dropped.
    pub index: Vec<Option<usize>>,
}

fn read_module_lines(
    grammar: &Grammar,
    bytes: &[u8],
    from: usize,
    format: ModuleLineFormat,
    filters: &DrcovFilters,
    count: usize,
) -> (outcome: Result<(Vec<Module>, Vec<Option<usize>>, usize), DecodeError>)
    requires
        from <= bytes@.len(),
    ensures
        match module_slots(bytes@, from as int, format, filters@, count as nat) {
            Ok((slots, pos)) => outcome matches Ok((table, index, end)) && represents(
                table@,
                index@,
                slots,
            ) && end == pos && end <= bytes@.len(),
            Err(error) => outcome matches Err(e) && e == error,
        },
{
    let mut table: Vec<Module> = Vec::new();
    let mut index: Vec<Option<usize>> = Vec::new();
    let mut pos: usize = from;
    let ghost mut slots: Seq<Option<ModuleView>> = Seq::empty();
    let mut k: usize = 0;
    assert(module_views(table@) =~= compact(slots));
    while k < count
        invariant
            k <= count,
            pos <= bytes@.len(),
            module_slots(bytes@, from as int, format, filters@, k as nat) == Ok::<
                (Seq<Option<ModuleView>>, int),
                DecodeError,
            >((slots, pos as int)),
            represents(table@, index@, slots),
            slots.len() == k,
        decreases count - k,
    {
        let line = match find_line(bytes, pos) {
            Some(line) => line,
            None => {
                proof {
                    lemma_module_slots_error(
                        bytes@,
                        from as int,
                        format,
                        filters@,
                        (k + 1) as nat,
                        count as nat,
                    );
                }
                return Err(DecodeError::ModuleLineMissing);
            },
        };
        assert(next_line(bytes@, pos as int) == Some((line.0 as int, line.1 as int)));
        let ghost raw = bytes@.subrange(line.0 as int, line.1 as int);
        let ghost step = slot_of_line(format, filters@, raw);
        assert(module_slots(bytes@, from as int, format, filters@, (k + 1) as nat) == match step {
            Err(error) => Err::<(Seq<Option<ModuleView>>, int), DecodeError>(error),
            Ok(slot) => Ok((slots.push(slot), line.1 as int)),
        });
        let rewritten = filters.maybe_replace_with_path_map_filter(
            slice_subrange(bytes, line.0, line.1),
        );
        let ghost old_slots = slots;
        let ghost old_index = index@;
        let ghost old_table = table@;
        if filters.retains_module(rewritten.as_slice()) {
            match Module::from_line(grammar, format, rewritten.as_slice()) {
                Ok(module) => {
                    proof {
                        slots = old_slots.push(Some(module@));
                    }
                    index.push(Some(table.len()));
                    table.push(module);
                    proof {
                        lemma_compact_push(old_slots, Some(module@), 0);
                        assert(module_views(table@) =~= compact(old_slots).push(module@));
                        assert(module_views(old_table).len() == old_table.len());
                    }
                },
                Err(error) => {
                    proof {
                        lemma_module_slots_error(
                            bytes@,
                            from as int,
                            format,
                            filters@,
                            (k + 1) as nat,
                            count as nat,
                        );
                    }
                    return Err(error);
                },
            }
        } else {
            proof {
                slots = old_slots.push(None);
                lemma_compact_push(old_slots, None, 0);
            }
            index.push(None);
        }
        proof {
            assert forall|i: int| 0 <= i < slots.len() implies #[trigger] index@[i] == if slots[i].is_some() {
                Some(rank(slots, i) as usize)
            } else {
                None
            } by {
                lemma_compact_push(old_slots, slots.last(), i);
                if i < old_slots.len() {
                    assert(index@[i] == old_index[i]);
                    assert(slots[i] == old_slots[i]);
                }
            }
        }
        pos = line.1;
        k = k + 1;
    }
    Ok((table, index, pos))
}

fn resolve_offsets(
    table: &mut Vec<Module>,
    index: &Vec<Option<usize>>,
    Ghost(slots): Ghost<Seq<Option<ModuleView>>>,
) -> (outcome: Result<(), DecodeError>)
    requires
        represents(old(table)@, index@, slots),
    ensures
        match resolved(ModuleLineFormat::V3, slots) {
            Ok(resolved_slots) => outcome.is_ok() && represents(
                final(table)@,
                index@,
                resolved_slots,
            ),
            Err(error) => outcome matches Err(e) && e == error,
        },
{
    let ghost mut current = slots;
    let modules: usize = table.len();
    let mut i: usize = 0;
    while i < index.len()
        invariant
            i <= index@.len(),
            table@.len() == modules,
            current.len() == slots.len(),
            represents(table@, index@, current),
            forall|k: int| 0 <= k < i ==> offset_derivable(slots, k),
            forall|k: int| 0 <= k < i ==> current[k] == with_derived_offset(slots, k),
            forall|k: int| i <= k < slots.len() ==> current[k] == slots[k],
        decreases index@.len() - i,
    {
        let ghost before = current;
        match index[i] {
            Some(place) => {
                proof {
                    assert(index@[i as int] == Some(place));
                    assert(current[i as int].is_some());
                    lemma_compact_index(current, i as int);
                    assert(module_views(table@).len() == table@.len());
                    assert(rank(current, i as int) == place);
                    assert(module_views(table@)[place as int] == table@[place as int]@);
                }
                assert(table@[place as int]@ == slots[i as int].unwrap());
                match table[place].containing_index {
                    Some(container) => {
                        if container != i {
                            if container >= i {
                                assert(!offset_derivable(slots, i as int));
                                return Err(DecodeError::ContainerInvalid);
                            }
                            let parent = match index[container] {
                                Some(parent) => parent,
                                None => {
                                    proof {
                                        assert(index@[container as int].is_none());
                                        assert(current[container as int].is_none());
                                        assert(current[container as int] == with_derived_offset(
                                            slots,
                                            container as int,
                                        ));
                                        assert(!offset_derivable(slots, i as int));
                                    }
                                    return Err(DecodeError::ContainerInvalid);
                                },
                            };
                            proof {
                                assert(index@[container as int] == Some(parent));
                                assert(current[container as int].is_some());
                                lemma_compact_index(current, container as int);
                                assert(rank(current, container as int) == parent);
                                assert(module_views(table@)[parent as int]
                                    == table@[parent as int]@);
                                assert(current[container as int] == with_derived_offset(
                                    slots,
                                    container as int,
                                ));
                            }
                            assert(table@[parent as int]@.segment_start
                                == slots[container as int].unwrap().segment_start);
                            if table[parent].segment_start > table[place].segment_start {
                                assert(!offset_derivable(slots, i as int));
                                return Err(DecodeError::ContainerInvalid);
                            }
                            let offset: usize = table[place].segment_start - table[parent].segment_start;
                            let ghost old_table = table@;
                            table[place].segment_offset = offset;
                            proof {
                                let derived = with_derived_offset(slots, i as int).unwrap();
                                assert(table@[place as int]@ == derived);
                                current = before.update(i as int, Some(derived));
                                lemma_compact_update(before, i as int, derived);
                                assert(module_views(table@) =~= compact(before).update(
                                    place as int,
                                    derived,
                                ));
                                assert forall|k: int| 0 <= k < current.len() implies #[trigger] index@[k]
                                    == if current[k].is_some() {
                                    Some(rank(current, k) as usize)
                                } else {
                                    None
                                } by {
                                    lemma_rank_update(before, i as int, derived, k);
                                }
                            }
                        }
                    },
                    None => {},
                }
            },
            None => {},
        }
        i = i + 1;
    }
    proof {
        assert(current =~= Seq::new(slots.len(), |k: int| with_derived_offset(slots, k)));
    }
    Ok(())
}

/// Reads the module table that stands at or after `from`.
pub(crate) fn read_module_table(
    grammar: &Grammar,
    bytes: &[u8],
    from: usize,
    filters: &DrcovFilters,
) -> (outcome: Result<(SlottedTable, usize), DecodeError>)
    requires
        from <= bytes@.len(),
    ensures
        match module_table(bytes@, from as int, filters@) {
            Ok((version, slots, pos)) => outcome matches Ok((read, end)) && read.version
                == version && represents(read.table@, read.index@, slots) && end == pos && end
                <= bytes@.len(),
            Err(error) => outcome matches Err(e) && e == error,
        },
{
    let header = match find_line(bytes, from) {
        Some(header) => header,
        None => {
            return Err(DecodeError::ModuleHeaderMissing);
        },
    };
    let line = slice_subrange(bytes, header.0, header.1);
    let shape = table_shape_from_captures(
        captures(grammar.module_header_legacy(), line),
        captures(grammar.module_header(), line),
    )?;
    let lines_from = if shape.has_column_line {
        match find_line(bytes, header.1) {
            Some(columns) => columns.1,
            None => header.1,
        }
    } else {
        header.1
    };
    let format = ModuleLineFormat::of_version(shape.version);
    let (mut table, index, end) = read_module_lines(
        grammar,
        bytes,
        lines_from,
        format,
        filters,
        shape.count,
    )?;
    if format == ModuleLineFormat::V3 {
        let ghost slots = module_slots(
            bytes@,
            lines_from as int,
            format,
            filters@,
            shape.count as nat,
        ).unwrap().0;
        resolve_offsets(&mut table, &index, Ghost(slots))?;
    }
    Ok((SlottedTable { version: shape.version, table, index }, end))
}

} // verus!
