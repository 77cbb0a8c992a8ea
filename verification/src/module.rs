//! One entry of a trace's module table.

use crate::bitmap::{bitmap_contents, closed_range, empty_bitmap, insert_closed_range};
use crate::error::DecodeError;
use crate::grammar::{Grammar, ModuleLineFormat};
use crate::pattern::{captures, captures_view, groups_view, pattern_captures};
use crate::util::{group_text, parse_capture_group, parse_unsigned, text_of, Hex};
use vstd::prelude::*;

verus! {

/// A module of a trace: where it was loaded, where its debug information is
/// looked for, and which of its bytes are known to have executed.
#[derive(Debug)]
pub struct Module {
    /// The extent of the mapped image in bytes.
    pub size: usize,
    /// The load address that the trace records.
    pub segment_start: usize,
    /// The distance from this module's load address down to that of the
    /// module that contains it; zero for a module that contains itself.
    pub segment_offset: usize,
    /// The place in the table, as the trace file lists it, of the module
    /// that contains this one.
    pub containing_index: Option<usize>,
    /// Where the module was on disk when the trace was taken.
    pub path: String,
    /// The module-relative offsets that executed.
    pub bb_bitmap: roaring::RoaringBitmap,
}

/// A module as plain values.
#[verifier::ext_equal]
pub struct ModuleView {
    pub size: usize,
    pub segment_start: usize,
    pub segment_offset: usize,
    pub containing_index: Option<usize>,
    pub path: Seq<char>,
    pub executed: Set<u32>,
}

impl View for Module {
    type V = ModuleView;

    open spec fn view(&self) -> ModuleView {
        ModuleView {
            size: self.size,
            segment_start: self.segment_start,
            segment_offset: self.segment_offset,
            containing_index: self.containing_index,
            path: self.path@,
            executed: bitmap_contents(&self.bb_bitmap),
        }
    }
}

/// The offsets that a basic block of `size` bytes at `start` marks as
/// executed: from `start` up to, not including, `start + size - 1`.
pub open spec fn block_offsets(start: u32, size: u16) -> Set<u32> {
    Set::new(|offset: u32| start <= offset && offset + 1 < start + size)
}

/// Whether a module of `module_size` bytes accepts a basic block: the block
/// must end below the module's end.
pub open spec fn block_fits(module_size: usize, start: u32, size: u16) -> bool {
    start + size < module_size
}

impl ModuleView {
    /// The module after a basic block was offered to it: a block that fits
    /// has its offsets added, any other changes nothing.
    pub open spec fn with_block(self, start: u32, size: u16) -> ModuleView {
        if block_fits(self.size, start, size) {
            ModuleView { executed: self.executed.union(block_offsets(start, size)), ..self }
        } else {
            self
        }
    }
}

/// A block that touches the end of a module, or reaches beyond it, is
/// rejected: a block with `start + size` equal to the module's size or
/// above it leaves the module as it is.
pub proof fn lemma_block_at_end_is_rejected(module: ModuleView, start: u32, size: u16)
    requires
        start + size >= module.size,
    ensures
        module.with_block(start, size) == module,
{
}

/// Where the fields of a module line stand among the groups of its pattern.
pub struct FieldPlaces {
    pub size: Option<int>,
    pub base: Option<int>,
    pub end: Option<int>,
    pub containing: Option<int>,
    pub offset: Option<int>,
    pub path: int,
}

impl ModuleLineFormat {
    /// The groups that hold the fields of a line in this grammar. Group 1 is
    /// always the module's id, which is not read.
    pub open spec fn places(self) -> FieldPlaces {
        match self {
            ModuleLineFormat::V1 => FieldPlaces {
                size: Some(2),
                base: None,
                end: None,
                containing: None,
                offset: None,
                path: 3,
            },
            ModuleLineFormat::V2 => FieldPlaces {
                size: None,
                base: Some(2),
                end: Some(3),
                containing: None,
                offset: None,
                path: 5,
            },
            ModuleLineFormat::V3 => FieldPlaces {
                size: None,
                base: Some(3),
                end: Some(4),
                containing: Some(2),
                offset: None,
                path: 6,
            },
            ModuleLineFormat::V4 => FieldPlaces {
                size: None,
                base: Some(3),
                end: Some(4),
                containing: Some(2),
                offset: Some(6),
                path: 7,
            },
            ModuleLineFormat::V5 => FieldPlaces {
                size: None,
                base: Some(3),
                end: Some(4),
                containing: Some(2),
                offset: Some(6),
                path: 8,
            },
        }
    }
}

/// The number in group `index`, read in the given radix into a machine word.
pub open spec fn capture_number(groups: Seq<Option<Seq<u8>>>, index: int, radix: int) -> Option<
    usize,
> {
    match group_text(groups, index) {
        Some(text) => match parse_unsigned(text, radix, usize::MAX as int) {
            Some(v) => Some(v as usize),
            None => None,
        },
        None => None,
    }
}

/// The text in group `index`.
pub open spec fn capture_text(groups: Seq<Option<Seq<u8>>>, index: int) -> Option<Seq<char>> {
    match group_text(groups, index) {
        Some(text) => Some(text_of(text)),
        None => None,
    }
}

/// A numeric field that a grammar may lack: zero where it has no place,
/// `None` where it has one and the group there holds no number.
pub open spec fn field_or_zero(groups: Seq<Option<Seq<u8>>>, place: Option<int>, radix: int) -> Option<
    usize,
> {
    match place {
        Some(index) => capture_number(groups, index, radix),
        None => Some(0usize),
    }
}

/// The module that the capture groups of a line denote in the given grammar.
///
/// A version 1 line gives the size itself; later versions give base and end,
/// and the size is their difference. Versions 3 and later name the
/// containing module, versions 4 and later the segment offset. The new
/// module has executed nothing.
pub open spec fn module_of_groups(format: ModuleLineFormat, groups: Seq<Option<Seq<u8>>>) -> Result<
    ModuleView,
    DecodeError,
> {
    let places = format.places();
    let size = field_or_zero(groups, places.size, 10);
    let base = field_or_zero(groups, places.base, 16);
    let end = field_or_zero(groups, places.end, 16);
    let path = capture_text(groups, places.path);
    let containing = field_or_zero(groups, places.containing, 10);
    let offset = field_or_zero(groups, places.offset, 16);
    if size.is_none() || base.is_none() || end.is_none() || path.is_none() || containing.is_none()
        || offset.is_none() {
        Err(DecodeError::ModuleFieldInvalid)
    } else if end.unwrap() < base.unwrap() {
        Err(DecodeError::ModuleEndBelowBase)
    } else {
        Ok(
            ModuleView {
                size: if places.size.is_some() {
                    size.unwrap()
                } else {
                    (end.unwrap() - base.unwrap()) as usize
                },
                segment_start: base.unwrap(),
                segment_offset: offset.unwrap(),
                containing_index: if places.containing.is_some() {
                    Some(containing.unwrap())
                } else {
                    None
                },
                path: path.unwrap(),
                executed: Set::empty(),
            },
        )
    }
}

/// The module that the outcome of matching a line denotes: a line that the
/// grammar's pattern does not match is invalid.
pub open spec fn module_of_captures(
    format: ModuleLineFormat,
    captures: Option<Seq<Option<Seq<u8>>>>,
) -> Result<ModuleView, DecodeError> {
    match captures {
        Some(groups) => module_of_groups(format, groups),
        None => Err(DecodeError::ModuleLineInvalid),
    }
}

/// The module that a line denotes in the given grammar.
pub open spec fn module_of_line(format: ModuleLineFormat, line: Seq<u8>) -> Result<
    ModuleView,
    DecodeError,
> {
    module_of_captures(format, pattern_captures(format.pattern(), line))
}

/// Whether `result` is what `expected` asks for: the same error, or a module
/// with the same plain values.
pub open spec fn module_result_is(
    result: Result<Module, DecodeError>,
    expected: Result<ModuleView, DecodeError>,
) -> bool {
    match expected {
        Ok(view) => result matches Ok(module) && module@ == view,
        Err(error) => result matches Err(e) && e == error,
    }
}

fn number_field(groups: &Vec<Option<Vec<u8>>>, index: usize, hex: bool) -> (value: Option<usize>)
    ensures
        value == capture_number(groups_view(groups@), index as int, if hex { 16int } else { 10int }),
{
    if hex {
        match parse_capture_group::<Hex<usize>>(groups, index) {
            Some(number) => Some(number.value),
            None => None,
        }
    } else {
        parse_capture_group::<usize>(groups, index)
    }
}

impl Module {
    /// Builds the module that the capture groups of a matched line denote.
    pub fn from_captures(format: ModuleLineFormat, captures: Option<Vec<Option<Vec<u8>>>>) -> (module:
        Result<Module, DecodeError>)
        ensures
            module_result_is(module, module_of_captures(format, captures_view(captures))),
    {
        let groups = match captures {
            Some(groups) => groups,
            None => { return Err(DecodeError::ModuleLineInvalid); },
        };
        let ghost view = groups_view(groups@);
        let (size_at, base_at, end_at, containing_at, offset_at, path_at): (
            Option<usize>,
            Option<usize>,
            Option<usize>,
            Option<usize>,
            Option<usize>,
            usize,
        ) = match format {
            ModuleLineFormat::V1 => (Some(2), None, None, None, None, 3),
            ModuleLineFormat::V2 => (None, Some(2), Some(3), None, None, 5),
            ModuleLineFormat::V3 => (None, Some(3), Some(4), Some(2), None, 6),
            ModuleLineFormat::V4 => (None, Some(3), Some(4), Some(2), Some(6), 7),
            ModuleLineFormat::V5 => (None, Some(3), Some(4), Some(2), Some(6), 8),
        };
        let size = match size_at {
            Some(index) => number_field(&groups, index, false),
            None => Some(0),
        };
        let base = match base_at {
            Some(index) => number_field(&groups, index, true),
            None => Some(0),
        };
        let end = match end_at {
            Some(index) => number_field(&groups, index, true),
            None => Some(0),
        };
        let path = parse_capture_group::<String>(&groups, path_at);
        let containing = match containing_at {
            Some(index) => number_field(&groups, index, false),
            None => Some(0),
        };
        let offset = match offset_at {
            Some(index) => number_field(&groups, index, true),
            None => Some(0),
        };
        match (size, base, end, path, containing, offset) {
            (Some(size), Some(base), Some(end), Some(path), Some(containing), Some(offset)) => {
                if end < base {
                    return Err(DecodeError::ModuleEndBelowBase);
                }
                let module = Module {
                    size: if size_at.is_some() {
                        size
                    } else {
                        end - base
                    },
                    segment_start: base,
                    segment_offset: offset,
                    containing_index: if containing_at.is_some() {
                        Some(containing)
                    } else {
                        None
                    },
                    path,
                    bb_bitmap: empty_bitmap(),
                };
                assert(module@ =~= module_of_groups(format, view).unwrap());
                Ok(module)
            },
            _ => Err(DecodeError::ModuleFieldInvalid),
        }
    }

    /// Reads a module line in the given grammar.
    pub fn from_line(grammar: &Grammar, format: ModuleLineFormat, line: &[u8]) -> (module: Result<
        Module,
        DecodeError,
    >)
        ensures
            module_result_is(module, module_of_line(format, line@)),
    {
        Module::from_captures(format, captures(grammar.module_line(format), line))
    }

    /// Reads a line of a version 1 table: id, size, path.
    pub fn from_line_v1(grammar: &Grammar, line: &[u8]) -> (module: Result<Module, DecodeError>)
        ensures
            module_result_is(module, module_of_line(ModuleLineFormat::V1, line@)),
    {
        Module::from_line(grammar, ModuleLineFormat::V1, line)
    }

    /// Reads a line of a version 2 table: id, base, end, entry, path.
    pub fn from_line_v2(grammar: &Grammar, line: &[u8]) -> (module: Result<Module, DecodeError>)
        ensures
            module_result_is(module, module_of_line(ModuleLineFormat::V2, line@)),
    {
        Module::from_line(grammar, ModuleLineFormat::V2, line)
    }

    /// Reads a line of a version 3 table: id, containing id, base, end,
    /// entry, path.
    pub fn from_line_v3(grammar: &Grammar, line: &[u8]) -> (module: Result<Module, DecodeError>)
        ensures
            module_result_is(module, module_of_line(ModuleLineFormat::V3, line@)),
    {
        Module::from_line(grammar, ModuleLineFormat::V3, line)
    }

    /// Reads a line of a version 4 table: the fields of version 3 and the
    /// segment offset.
    pub fn from_line_v4(grammar: &Grammar, line: &[u8]) -> (module: Result<Module, DecodeError>)
        ensures
            module_result_is(module, module_of_line(ModuleLineFormat::V4, line@)),
    {
        Module::from_line(grammar, ModuleLineFormat::V4, line)
    }

    /// Reads a line of a table of version 5 or later: the fields of version
    /// 4 and the preferred base.
    pub fn from_line_v5(grammar: &Grammar, line: &[u8]) -> (module: Result<Module, DecodeError>)
        ensures
            module_result_is(module, module_of_line(ModuleLineFormat::V5, line@)),
    {
        Module::from_line(grammar, ModuleLineFormat::V5, line)
    }

    /// Offers a basic block to the module. A block with `start + size` at or
    /// beyond the module's size is turned down and changes nothing; any other
    /// marks its offsets as executed.
    pub fn insert_block(&mut self, start: u32, size: u16) -> (accepted: bool)
        ensures
            accepted == block_fits(old(self).size, start, size),
            final(self)@ == old(self)@.with_block(start, size),
    {
        if self.size as u64 <= start as u64 + size as u64 {
            return false;
        }
        if size >= 2 {
            let end: u64 = start as u64 + size as u64 - 2;
            let last: u32 = if end > u32::MAX as u64 {
                u32::MAX
            } else {
                end as u32
            };
            assert(closed_range(start, last) =~= block_offsets(start, size));
            insert_closed_range(&mut self.bb_bitmap, start, last);
        } else {
            assert(block_offsets(start, size) =~= Set::<u32>::empty());
            assert(self@.executed.union(block_offsets(start, size)) =~= self@.executed);
        }
        assert(self@ =~= old(self)@.with_block(start, size));
        true
    }
}

} // verus!
