//! The line grammars of the trace format, compiled once.

use crate::pattern::{compile, is_match, pattern_compiles, pattern_matches, Pattern};
use vstd::prelude::*;

verus! {

pub const VERSION_LINE: &'static str = "DRCOV VERSION: (?P<version>\\d+)";

pub const FLAVOR_LINE: &'static str = "DRCOV FLAVOR: (?P<flavor>[^\\s]+)";

pub const MODULE_HEADER_LEGACY: &'static str = "Module Table: (?P<count>\\d+)";

pub const MODULE_HEADER: &'static str = "Module Table: version (?P<version>\\d+), count (?P<count>\\d+)";

pub const MODULE_LINE_V1: &'static str = "\\s*(?P<id>\\d+), (?P<size>\\d+), (?P<path>[^\\s]+)";

pub const MODULE_LINE_V2: &'static str =
    "(?P<id>\\d+), 0[xX](?P<base>[[:xdigit:]]+), 0[xX](?P<end>[[:xdigit:]]+), 0[xX](?P<entry>[[:xdigit:]]+), (?P<path>[^\\s]+)";

pub const MODULE_LINE_V3: &'static str =
    "(?P<id>\\d+), (?P<containing_id>\\d+), 0[xX](?P<base>[[:xdigit:]]+), 0[xX](?P<end>[[:xdigit:]]+), 0[xX](?P<entry>[[:xdigit:]]+), (?P<path>[^\\s]+)";

pub const MODULE_LINE_V4: &'static str =
    "(?P<id>\\d+), (?P<containing_id>\\d+), 0[xX](?P<base>[[:xdigit:]]+), 0[xX](?P<end>[[:xdigit:]]+), 0[xX](?P<entry>[[:xdigit:]]+), (?P<offset>[[:xdigit:]]+), (?P<path>[^\\s]+)";

pub const MODULE_LINE_V5: &'static str =
    "(?P<id>\\d+), (?P<containing_id>\\d+), 0[xX](?P<base>[[:xdigit:]]+), 0[xX](?P<end>[[:xdigit:]]+), 0[xX](?P<entry>[[:xdigit:]]+), (?P<offset>[[:xdigit:]]+), 0[xX](?P<preferred_base>[[:xdigit:]]+), (?P<path>[^\\s]+)";

pub const BASIC_BLOCK_HEADER: &'static str = "BB Table: (?P<count>\\d+) bbs";

pub const TRACE_LOG_NAME: &'static str = "(dr|bb)cov\\..*\\.?log";

/// The five grammars of a module line.
#[derive(Debug, Clone, Copy, PartialEq, Eq, Structural)]
pub enum ModuleLineFormat {
    V1,
    V2,
    V3,
    V4,
    V5,
}

impl ModuleLineFormat {
    /// The grammar that a module table of the given version is written in:
    /// versions 1 to 4 have one each, every other version has the fifth.
    pub open spec fn spec_of_version(version: u32) -> ModuleLineFormat {
        if version == 1 {
            ModuleLineFormat::V1
        } else if version == 2 {
            ModuleLineFormat::V2
        } else if version == 3 {
            ModuleLineFormat::V3
        } else if version == 4 {
            ModuleLineFormat::V4
        } else {
            ModuleLineFormat::V5
        }
    }

    /// The grammar that a module table of the given version is written in.
    #[verifier::when_used_as_spec(spec_of_version)]
    pub fn of_version(version: u32) -> (format: ModuleLineFormat)
        ensures
            format == Self::spec_of_version(version),
    {
        if version == 1 {
            ModuleLineFormat::V1
        } else if version == 2 {
            ModuleLineFormat::V2
        } else if version == 3 {
            ModuleLineFormat::V3
        } else if version == 4 {
            ModuleLineFormat::V4
        } else {
            ModuleLineFormat::V5
        }
    }

    /// The source text of the grammar's pattern.
    pub open spec fn pattern(self) -> Seq<char> {
        match self {
            ModuleLineFormat::V1 => MODULE_LINE_V1@,
            ModuleLineFormat::V2 => MODULE_LINE_V2@,
            ModuleLineFormat::V3 => MODULE_LINE_V3@,
            ModuleLineFormat::V4 => MODULE_LINE_V4@,
            ModuleLineFormat::V5 => MODULE_LINE_V5@,
        }
    }
}

/// Whether all the patterns of the trace format compile.
pub open spec fn grammar_compiles() -> bool {
    &&& pattern_compiles(VERSION_LINE@)
    &&& pattern_compiles(FLAVOR_LINE@)
    &&& pattern_compiles(MODULE_HEADER_LEGACY@)
    &&& pattern_compiles(MODULE_HEADER@)
    &&& pattern_compiles(MODULE_LINE_V1@)
    &&& pattern_compiles(MODULE_LINE_V2@)
    &&& pattern_compiles(MODULE_LINE_V3@)
    &&& pattern_compiles(MODULE_LINE_V4@)
    &&& pattern_compiles(MODULE_LINE_V5@)
    &&& pattern_compiles(BASIC_BLOCK_HEADER@)
    &&& pattern_compiles(TRACE_LOG_NAME@)
}

/// The compiled patterns of the trace format.
pub struct Grammar {
    version_line: Pattern,
    flavor_line: Pattern,
    module_header_legacy: Pattern,
    module_header: Pattern,
    module_line_v1: Pattern,
    module_line_v2: Pattern,
    module_line_v3: Pattern,
    module_line_v4: Pattern,
    module_line_v5: Pattern,
    basic_block_header: Pattern,
    trace_log_name: Pattern,
}

impl Grammar {
    #[verifier::type_invariant]
    spec fn well_formed(self) -> bool {
        &&& self.version_line@ == VERSION_LINE@
        &&& self.flavor_line@ == FLAVOR_LINE@
        &&& self.module_header_legacy@ == MODULE_HEADER_LEGACY@
        &&& self.module_header@ == MODULE_HEADER@
        &&& self.module_line_v1@ == MODULE_LINE_V1@
        &&& self.module_line_v2@ == MODULE_LINE_V2@
        &&& self.module_line_v3@ == MODULE_LINE_V3@
        &&& self.module_line_v4@ == MODULE_LINE_V4@
        &&& self.module_line_v5@ == MODULE_LINE_V5@
        &&& self.basic_block_header@ == BASIC_BLOCK_HEADER@
        &&& self.trace_log_name@ == TRACE_LOG_NAME@
    }

    /// Compiles the patterns of the trace format; `None` if one of them is
    /// not accepted.
    pub fn new() -> (grammar: Option<Grammar>)
        ensures
            grammar.is_some() == grammar_compiles(),
    {
        let version_line = compile(VERSION_LINE)?;
        let flavor_line = compile(FLAVOR_LINE)?;
        let module_header_legacy = compile(MODULE_HEADER_LEGACY)?;
        let module_header = compile(MODULE_HEADER)?;
        let module_line_v1 = compile(MODULE_LINE_V1)?;
        let module_line_v2 = compile(MODULE_LINE_V2)?;
        let module_line_v3 = compile(MODULE_LINE_V3)?;
        let module_line_v4 = compile(MODULE_LINE_V4)?;
        let module_line_v5 = compile(MODULE_LINE_V5)?;
        let basic_block_header = compile(BASIC_BLOCK_HEADER)?;
        let trace_log_name = compile(TRACE_LOG_NAME)?;
        Some(
            Grammar {
                version_line,
                flavor_line,
                module_header_legacy,
                module_header,
                module_line_v1,
                module_line_v2,
                module_line_v3,
                module_line_v4,
                module_line_v5,
                basic_block_header,
                trace_log_name,
            },
        )
    }

    pub(crate) fn version_line(&self) -> (pattern: &Pattern)
        ensures
            pattern@ == VERSION_LINE@,
    {
        proof {
            use_type_invariant(self);
        }
        &self.version_line
    }

    pub(crate) fn flavor_line(&self) -> (pattern: &Pattern)
        ensures
            pattern@ == FLAVOR_LINE@,
    {
        proof {
            use_type_invariant(self);
        }
        &self.flavor_line
    }

    pub(crate) fn module_header_legacy(&self) -> (pattern: &Pattern)
        ensures
            pattern@ == MODULE_HEADER_LEGACY@,
    {
        proof {
            use_type_invariant(self);
        }
        &self.module_header_legacy
    }

    pub(crate) fn module_header(&self) -> (pattern: &Pattern)
        ensures
            pattern@ == MODULE_HEADER@,
    {
        proof {
            use_type_invariant(self);
        }
        &self.module_header
    }

    pub(crate) fn module_line(&self, format: ModuleLineFormat) -> (pattern: &Pattern)
        ensures
            pattern@ == format.pattern(),
    {
        proof {
            use_type_invariant(self);
        }
        match format {
            ModuleLineFormat::V1 => &self.module_line_v1,
            ModuleLineFormat::V2 => &self.module_line_v2,
            ModuleLineFormat::V3 => &self.module_line_v3,
            ModuleLineFormat::V4 => &self.module_line_v4,
            ModuleLineFormat::V5 => &self.module_line_v5,
        }
    }

    pub(crate) fn basic_block_header(&self) -> (pattern: &Pattern)
        ensures
            pattern@ == BASIC_BLOCK_HEADER@,
    {
        proof {
            use_type_invariant(self);
        }
        &self.basic_block_header
    }

    /// Whether a file name is that of a trace log: whether it matches
    /// `(dr|bb)cov\..*\.?log` somewhere.
    pub fn is_trace_log_name(&self, name: &[u8]) -> (is_log: bool)
        ensures
            is_log == pattern_matches(TRACE_LOG_NAME@, name@),
    {
        proof {
            use_type_invariant(self);
        }
        is_match(&self.trace_log_name, name)
    }
}

} // verus!
