//! Where the debug information of a module is looked for.
//!
//! An image may name, in its debug link, another file that holds its debug
//! information. The places where that file is looked for, and their order,
//! are those of the separate-debug-file search of debuggers:
//!
//! 1. the link itself, if it is an absolute path;
//! 2. `<debug root>/.build-id/<first byte of the build id>/<the other
//!    bytes>/<link>`, if the image has a build id;
//! 3. `<directory of the image>/<link>`, unless that is the image itself;
//! 4. `<directory of the image>/.debug/<link>`;
//! 5. `<debug root>/<directory of the image>/<link>`.
//!
//! The first place where a file is found is taken, and the search goes on
//! from that file. An image without a usable link is taken as it is if it
//! holds debug information.
//!
//! The load bias of an image is the virtual address of its lowest loadable
//! segment less the place of that segment in the file.

use crate::util::{wrapped_difference, wrapping_difference};
use vstd::prelude::*;
use vstd::string::*;

verus! {

/// The directory under which a system keeps separate debug files.
pub const DEBUG_ROOT: &'static str = "/usr/lib/debug";

/// The kind of place where a debug file is looked for.
#[derive(Debug, Clone, Copy, PartialEq, Eq, Structural)]
pub enum CandidateKind {
    /// The link itself, an absolute path.
    LinkTarget,
    /// The place under the debug root that the build id names.
    BuildId,
    /// The directory of the image. A file found there counts only if it is
    /// not the image itself.
    BesideImage,
    /// The directory `.debug` in the directory of the image.
    DebugSubdirectory,
    /// The copy of the image's directory under the debug root.
    UnderDebugRoot,
}

/// A place where a debug file is looked for.
#[derive(Debug)]
pub struct Candidate {
    pub kind: CandidateKind,
    pub path: String,
}

/// A candidate as plain values.
pub struct CandidateView {
    pub kind: CandidateKind,
    pub path: Seq<char>,
}

impl View for Candidate {
    type V = CandidateView;

    open spec fn view(&self) -> CandidateView {
        CandidateView { kind: self.kind, path: self.path@ }
    }
}

/// Candidates as plain values.
pub open spec fn candidate_views(candidates: Seq<Candidate>) -> Seq<CandidateView> {
    candidates.map_values(|c: Candidate| c@)
}

/// The number of characters of `path` up to and including its last slash;
/// zero for a path without one.
pub open spec fn through_last_slash(path: Seq<char>) -> int
    decreases path.len(),
{
    if path.len() == 0 {
        0
    } else if path.last() == '/' {
        path.len() as int
    } else {
        through_last_slash(path.drop_last())
    }
}

/// The directory of a file: the path up to its last slash, without the
/// slash; `/` for a file in the root directory, nothing for a path without
/// a slash.
pub open spec fn directory_of(path: Seq<char>) -> Seq<char> {
    let through = through_last_slash(path);
    if through == 0 {
        Seq::empty()
    } else if through == 1 {
        path.take(1)
    } else {
        path.take(through - 1)
    }
}

/// A name within a directory: the two with one slash between them, or the
/// name alone where the directory is empty.
pub open spec fn joined(directory: Seq<char>, name: Seq<char>) -> Seq<char> {
    if directory.len() == 0 {
        name
    } else if directory.last() == '/' {
        directory + name
    } else {
        directory + seq!['/'] + name
    }
}

/// The character of a hexadecimal digit, in lower case.
pub open spec fn hex_digit(value: int) -> char {
    if value == 0 {
        '0'
    } else if value == 1 {
        '1'
    } else if value == 2 {
        '2'
    } else if value == 3 {
        '3'
    } else if value == 4 {
        '4'
    } else if value == 5 {
        '5'
    } else if value == 6 {
        '6'
    } else if value == 7 {
        '7'
    } else if value == 8 {
        '8'
    } else if value == 9 {
        '9'
    } else if value == 10 {
        'a'
    } else if value == 11 {
        'b'
    } else if value == 12 {
        'c'
    } else if value == 13 {
        'd'
    } else if value == 14 {
        'e'
    } else {
        'f'
    }
}

/// Bytes in hexadecimal, two digits each.
pub open spec fn hex_text(bytes: Seq<u8>) -> Seq<char>
    decreases bytes.len(),
{
    if bytes.len() == 0 {
        Seq::empty()
    } else {
        hex_text(bytes.drop_last()).push(hex_digit(bytes.last() as int / 16)).push(
            hex_digit(bytes.last() as int % 16),
        )
    }
}

/// The place that a build id names under the debug root.
pub open spec fn build_id_place(link: Seq<char>, build_id: Seq<u8>) -> Seq<char> {
    DEBUG_ROOT@ + "/.build-id/"@ + hex_text(build_id.take(1)) + seq!['/'] + hex_text(
        build_id.skip(1),
    ) + seq!['/'] + link
}

/// The copy of a directory under the debug root.
pub open spec fn under_debug_root(directory: Seq<char>) -> Seq<char> {
    if directory.len() > 0 && directory[0] == '/' {
        DEBUG_ROOT@ + directory
    } else {
        DEBUG_ROOT@ + seq!['/'] + directory
    }
}

/// The places where the debug file of an image is looked for, in the order
/// in which they are tried. `image` is the path of the image, `link` the
/// name in its debug link, `build_id` its build id, empty if it has none.
pub open spec fn candidates_of(image: Seq<char>, link: Seq<char>, build_id: Seq<u8>) -> Seq<
    CandidateView,
> {
    let directory = directory_of(image);
    let target = if link.len() > 0 && link[0] == '/' {
        seq![CandidateView { kind: CandidateKind::LinkTarget, path: link }]
    } else {
        Seq::empty()
    };
    let by_id = if build_id.len() > 0 {
        seq![CandidateView { kind: CandidateKind::BuildId, path: build_id_place(link, build_id) }]
    } else {
        Seq::empty()
    };
    target + by_id + seq![
        CandidateView { kind: CandidateKind::BesideImage, path: joined(directory, link) },
        CandidateView {
            kind: CandidateKind::DebugSubdirectory,
            path: joined(joined(directory, ".debug"@), link),
        },
        CandidateView {
            kind: CandidateKind::UnderDebugRoot,
            path: joined(under_debug_root(directory), link),
        },
    ]
}

/// What was found at the place of a candidate.
#[derive(Debug, Clone, Copy, PartialEq, Eq, Structural)]
pub struct Probe {
    /// Whether there is a file.
    pub exists: bool,
    /// Whether that file is the image whose debug file is looked for.
    pub is_image: bool,
}

/// Whether a file found at a candidate's place is taken: there must be
/// one, and beside the image it must not be the image itself.
pub open spec fn accepted(kind: CandidateKind, probe: Probe) -> bool {
    probe.exists && !(kind == CandidateKind::BesideImage && probe.is_image)
}

/// What to do with an image once its candidates were probed.
#[derive(Debug, Clone, Copy, PartialEq, Eq, Structural)]
pub enum Resolution {
    /// Open the candidate of this number and go on from it.
    Follow(usize),
    /// The image itself holds the debug information.
    UseImage,
    /// There is no debug information for the module.
    NoDebugInfo,
}

/// Whether `index` is the first candidate whose probe is accepted.
pub open spec fn is_first_accepted(
    candidates: Seq<CandidateView>,
    probes: Seq<Probe>,
    index: int,
) -> bool {
    &&& 0 <= index < candidates.len()
    &&& index < probes.len()
    &&& accepted(candidates[index].kind, probes[index])
    &&& forall|j: int| 0 <= j < index ==> !accepted(#[trigger] candidates[j].kind, probes[j])
}

/// Whether no candidate has an accepted probe. A candidate without a probe
/// counts as not found.
pub open spec fn none_accepted(candidates: Seq<CandidateView>, probes: Seq<Probe>) -> bool {
    forall|j: int|
        0 <= j < candidates.len() && j < probes.len() ==> !accepted(
            #[trigger] candidates[j].kind,
            probes[j],
        )
}

pub(crate) fn hex_digit_text(value: u8) -> (text: &'static str)
    requires
        value < 16,
    ensures
        text@ == seq![hex_digit(value as int)],
{
    proof {
        reveal_strlit("0");
        reveal_strlit("1");
        reveal_strlit("2");
        reveal_strlit("3");
        reveal_strlit("4");
        reveal_strlit("5");
        reveal_strlit("6");
        reveal_strlit("7");
        reveal_strlit("8");
        reveal_strlit("9");
        reveal_strlit("a");
        reveal_strlit("b");
        reveal_strlit("c");
        reveal_strlit("d");
        reveal_strlit("e");
        reveal_strlit("f");
    }
    let text = if value == 0 {
        "0"
    } else if value == 1 {
        "1"
    } else if value == 2 {
        "2"
    } else if value == 3 {
        "3"
    } else if value == 4 {
        "4"
    } else if value == 5 {
        "5"
    } else if value == 6 {
        "6"
    } else if value == 7 {
        "7"
    } else if value == 8 {
        "8"
    } else if value == 9 {
        "9"
    } else if value == 10 {
        "a"
    } else if value == 11 {
        "b"
    } else if value == 12 {
        "c"
    } else if value == 13 {
        "d"
    } else if value == 14 {
        "e"
    } else {
        "f"
    };
    assert(text@ =~= seq![hex_digit(value as int)]);
    text
}

fn append_hex(text: &mut String, bytes: &[u8], from: usize, to: usize)
    requires
        from <= to <= bytes@.len(),
    ensures
        final(text)@ == old(text)@ + hex_text(bytes@.subrange(from as int, to as int)),
{
    let mut i: usize = from;
    assert(bytes@.subrange(from as int, from as int) =~= Seq::<u8>::empty());
    assert(text@ =~= old(text)@ + hex_text(bytes@.subrange(from as int, from as int)));
    while i < to
        invariant
            from <= i <= to <= bytes@.len(),
            text@ == old(text)@ + hex_text(bytes@.subrange(from as int, i as int)),
        decreases to - i,
    {
        let ghost before = text@;
        let ghost done = bytes@.subrange(from as int, i as int);
        let ghost more = bytes@.subrange(from as int, i + 1);
        text.append(hex_digit_text(bytes[i] / 16));
        text.append(hex_digit_text(bytes[i] % 16));
        proof {
            assert(more.drop_last() =~= done);
            assert(more.last() == bytes@[i as int]);
            assert(text@ =~= old(text)@ + hex_text(more));
        }
        i = i + 1;
    }
}

pub(crate) fn append_joined(directory: String, name: &str) -> (path: String)
    ensures
        path@ == joined(directory@, name@),
{
    proof {
        reveal_strlit("/");
    }
    let len: usize = directory.as_str().unicode_len();
    if len == 0 {
        assert(directory@ + name@ =~= name@);
        directory.concat(name)
    } else if directory.as_str().get_char(len - 1) == '/' {
        directory.concat(name)
    } else {
        directory.concat("/").concat(name)
    }
}

/// The directory of a file.
pub fn directory(path: &str) -> (dir: String)
    ensures
        dir@ == directory_of(path@),
{
    let len: usize = path.unicode_len();
    let mut through: usize = len;
    assert(path@.take(len as int) =~= path@);
    while through > 0 && path.get_char(through - 1) != '/'
        invariant
            through <= len,
            len == path@.len(),
            through_last_slash(path@) == through_last_slash(path@.take(through as int)),
        decreases through,
    {
        assert(path@.take(through as int).drop_last() =~= path@.take(through - 1));
        through = through - 1;
    }
    proof {
        if through > 0 {
            assert(path@.take(through as int).last() == path@[through - 1]);
        }
    }
    if through <= 1 {
        String::from_str(path.substring_char(0, through))
    } else {
        String::from_str(path.substring_char(0, through - 1))
    }
}

/// Lists the places where the debug file of an image is looked for.
pub fn debug_link_candidates(image: &str, link: &str, build_id: &[u8]) -> (candidates: Vec<
    Candidate,
>)
    ensures
        candidate_views(candidates@) == candidates_of(image@, link@, build_id@),
{
    proof {
        reveal_strlit("/");
    }
    let mut candidates: Vec<Candidate> = Vec::new();
    if link.unicode_len() > 0 && link.get_char(0) == '/' {
        candidates.push(Candidate { kind: CandidateKind::LinkTarget, path: String::from_str(link) });
    }
    let ghost target = candidate_views(candidates@);
    assert(target =~= if link@.len() > 0 && link@[0] == '/' {
        seq![CandidateView { kind: CandidateKind::LinkTarget, path: link@ }]
    } else {
        Seq::empty()
    });
    if build_id.len() > 0 {
        let mut path = String::from_str(DEBUG_ROOT).concat("/.build-id/");
        append_hex(&mut path, build_id, 0, 1);
        path.append("/");
        append_hex(&mut path, build_id, 1, build_id.len());
        path.append("/");
        path.append(link);
        assert(build_id@.subrange(0, 1) =~= build_id@.take(1));
        assert(build_id@.subrange(1, build_id@.len() as int) =~= build_id@.skip(1));
        assert(path@ =~= build_id_place(link@, build_id@));
        candidates.push(Candidate { kind: CandidateKind::BuildId, path });
    }
    let ghost by_id = if build_id@.len() > 0 {
        seq![
            CandidateView { kind: CandidateKind::BuildId, path: build_id_place(link@, build_id@) },
        ]
    } else {
        Seq::empty()
    };
    assert(candidate_views(candidates@) =~= target + by_id);
    let dir = directory(image);
    let rooted = if dir.as_str().unicode_len() > 0 && dir.as_str().get_char(0) == '/' {
        String::from_str(DEBUG_ROOT).concat(dir.as_str())
    } else {
        String::from_str(DEBUG_ROOT).concat("/").concat(dir.as_str())
    };
    assert(rooted@ =~= under_debug_root(dir@));
    let beside = append_joined(String::from_str(dir.as_str()), link);
    let hidden = append_joined(append_joined(dir, ".debug"), link);
    let global = append_joined(rooted, link);
    let ghost rest = seq![
        CandidateView { kind: CandidateKind::BesideImage, path: beside@ },
        CandidateView { kind: CandidateKind::DebugSubdirectory, path: hidden@ },
        CandidateView { kind: CandidateKind::UnderDebugRoot, path: global@ },
    ];
    candidates.push(Candidate { kind: CandidateKind::BesideImage, path: beside });
    candidates.push(Candidate { kind: CandidateKind::DebugSubdirectory, path: hidden });
    candidates.push(Candidate { kind: CandidateKind::UnderDebugRoot, path: global });
    assert(candidate_views(candidates@) =~= target + by_id + rest);
    candidates
}

/// Finds the candidate to follow: the first whose probe is accepted.
pub fn follow_debug_link(candidates: &[Candidate], probes: &[Probe]) -> (found: Option<usize>)
    ensures
        match found {
            Some(index) => is_first_accepted(candidate_views(candidates@), probes@, index as int),
            None => none_accepted(candidate_views(candidates@), probes@),
        },
{
    let mut i: usize = 0;
    while i < candidates.len() && i < probes.len()
        invariant
            i <= candidates@.len(),
            i <= probes@.len(),
            forall|j: int|
                0 <= j < i ==> !accepted(#[trigger] candidate_views(candidates@)[j].kind, probes@[j]),
        decreases candidates@.len() - i,
    {
        let probe = probes[i];
        let beside = match candidates[i].kind {
            CandidateKind::BesideImage => true,
            _ => false,
        };
        if probe.exists && !(beside && probe.is_image) {
            assert(candidate_views(candidates@)[i as int].kind == candidates@[i as int].kind);
            return Some(i);
        }
        assert(candidate_views(candidates@)[i as int].kind == candidates@[i as int].kind);
        i = i + 1;
    }
    None
}

/// Decides what to do with an image: follow the candidate that was found;
/// without one, take the image if it holds debug information.
pub fn resolve_step(found: Option<usize>, has_debug_info: bool) -> (resolution: Resolution)
    ensures
        resolution == match found {
            Some(index) => Resolution::Follow(index),
            None => if has_debug_info {
                Resolution::UseImage
            } else {
                Resolution::NoDebugInfo
            },
        },
{
    match found {
        Some(index) => Resolution::Follow(index),
        None => if has_debug_info {
            Resolution::UseImage
        } else {
            Resolution::NoDebugInfo
        },
    }
}

/// One loadable segment of an image.
#[derive(Debug, Clone, Copy, PartialEq, Eq, Structural)]
pub struct Segment {
    /// The permission flags of the segment, for a segment of an ELF image;
    /// `None` for a segment of an image of another kind.
    pub elf_flags: Option<u32>,
    /// The virtual address of the segment.
    pub address: u64,
    /// Where the segment starts in the file.
    pub file_offset: u64,
}

/// Whether a segment counts for the load bias: it is a loadable segment of
/// an ELF image, whatever its permissions are.
pub open spec fn counts_for_bias(segment: Segment) -> bool {
    segment.elf_flags.is_some()
}

/// The bias of one segment: its virtual address less its place in the file.
pub open spec fn bias_of(segment: Segment) -> u64 {
    wrapped_difference(segment.address, segment.file_offset)
}

/// The lowest segment: among the segments that count the one with the least
/// virtual address, the first of them where several start there; `None`
/// where no segment counts.
pub open spec fn lowest_segment(segments: Seq<Segment>) -> Option<Segment>
    decreases segments.len(),
{
    if segments.len() == 0 {
        None
    } else {
        let before = lowest_segment(segments.drop_last());
        let last = segments.last();
        if counts_for_bias(last) {
            match before {
                Some(lowest) if lowest.address <= last.address => Some(lowest),
                _ => Some(last),
            }
        } else {
            before
        }
    }
}

/// The load bias of an image: the bias of its lowest segment, zero where
/// no segment counts.
pub open spec fn load_bias(segments: Seq<Segment>) -> u64 {
    match lowest_segment(segments) {
        Some(lowest) => bias_of(lowest),
        None => 0,
    }
}

/// Whether segment number `index` is the lowest: it counts, no segment that
/// counts starts below it, and none before it starts where it starts.
pub open spec fn is_lowest(segments: Seq<Segment>, index: int) -> bool {
    &&& 0 <= index < segments.len()
    &&& counts_for_bias(segments[index])
    &&& forall|j: int|
        0 <= j < segments.len() && counts_for_bias(#[trigger] segments[j])
            ==> segments[index].address <= segments[j].address
    &&& forall|j: int|
        0 <= j < index && counts_for_bias(#[trigger] segments[j]) ==> segments[index].address
            < segments[j].address
}

/// The lowest segment is a segment of the image that is the lowest; there is
/// none exactly when no segment counts.
pub proof fn lemma_lowest_segment(segments: Seq<Segment>)
    ensures
        match lowest_segment(segments) {
            Some(lowest) => exists|i: int| #[trigger]
                is_lowest(segments, i) && segments[i] == lowest,
            None => forall|j: int|
                0 <= j < segments.len() ==> !counts_for_bias(#[trigger] segments[j]),
        },
    decreases segments.len(),
{
    if segments.len() > 0 {
        let shorter = segments.drop_last();
        let last = segments.last();
        let end = segments.len() - 1;
        lemma_lowest_segment(shorter);
        assert forall|j: int| 0 <= j < shorter.len() implies segments[j] == shorter[j] by {}
        match lowest_segment(shorter) {
            Some(before) => {
                let i = choose|i: int| #[trigger] is_lowest(shorter, i) && shorter[i] == before;
                if counts_for_bias(last) && !(before.address <= last.address) {
                    assert forall|j: int|
                        0 <= j < segments.len() && counts_for_bias(
                            #[trigger] segments[j],
                        ) implies segments[end].address <= segments[j].address by {
                        if j < end {
                            assert(counts_for_bias(shorter[j]));
                        }
                    }
                    assert forall|j: int|
                        0 <= j < end && counts_for_bias(
                            #[trigger] segments[j],
                        ) implies segments[end].address < segments[j].address by {
                        assert(counts_for_bias(shorter[j]));
                    }
                    assert(is_lowest(segments, end));
                } else {
                    assert forall|j: int|
                        0 <= j < segments.len() && counts_for_bias(
                            #[trigger] segments[j],
                        ) implies segments[i].address <= segments[j].address by {
                        if j < end {
                            assert(counts_for_bias(shorter[j]));
                        }
                    }
                    assert forall|j: int|
                        0 <= j < i && counts_for_bias(
                            #[trigger] segments[j],
                        ) implies segments[i].address < segments[j].address by {
                        assert(counts_for_bias(shorter[j]));
                    }
                    assert(is_lowest(segments, i));
                }
            },
            None => {
                assert forall|j: int| 0 <= j < end implies !counts_for_bias(
                    #[trigger] segments[j],
                ) by {
                    assert(!counts_for_bias(shorter[j]));
                }
                if counts_for_bias(last) {
                    assert(is_lowest(segments, end));
                }
            },
        }
    }
}

/// Computes the load bias of an image from its loadable segments: the
/// virtual address of the lowest of them less its place in the file, in
/// 64-bit arithmetic that wraps around; zero where no segment counts.
pub fn load_base(segments: &[Segment]) -> (base: u64)
    ensures
        base == load_bias(segments@),
        (exists|j: int| 0 <= j < segments@.len() && counts_for_bias(#[trigger] segments@[j]))
            ==> exists|i: int| #[trigger]
            is_lowest(segments@, i) && base == bias_of(segments@[i]),
        (forall|j: int| 0 <= j < segments@.len() ==> !counts_for_bias(#[trigger] segments@[j]))
            ==> base == 0,
{
    proof {
        lemma_lowest_segment(segments@);
    }
    let mut lowest: Option<Segment> = None;
    let mut i: usize = 0;
    assert(segments@.take(0) =~= Seq::<Segment>::empty());
    while i < segments.len()
        invariant
            i <= segments@.len(),
            lowest == lowest_segment(segments@.take(i as int)),
        decreases segments@.len() - i,
    {
        assert(segments@.take(i + 1).drop_last() =~= segments@.take(i as int));
        let segment = segments[i];
        if segment.elf_flags.is_some() {
            lowest = match lowest {
                Some(before) if before.address <= segment.address => Some(before),
                _ => Some(segment),
            };
        }
        i = i + 1;
    }
    assert(segments@.take(i as int) =~= segments@);
    match lowest {
        Some(segment) => wrapping_difference(segment.address, segment.file_offset),
        None => 0,
    }
}

/// What the search needs to know of an image, as plain values.
#[derive(Debug)]
pub struct ObjectFile {
    /// The path of the image.
    pub path: String,
    /// The loadable segments of the image.
    pub segments: Vec<Segment>,
    /// The name in the image's debug link, if it has one.
    pub debug_link: Option<String>,
    /// The build id of the image; empty if it has none.
    pub build_id: Vec<u8>,
    /// Whether the image itself holds debug information.
    pub has_debug_symbols: bool,
}

impl ObjectFile {
    /// The load bias of the image.
    pub fn load_base(&self) -> (base: u64)
        ensures
            base == load_bias(self.segments@),
    {
        load_base(self.segments.as_slice())
    }

    /// The places where the debug file of the image is looked for: none for
    /// an image without a debug link.
    pub fn debug_link_candidates(&self) -> (candidates: Vec<Candidate>)
        ensures
            candidate_views(candidates@) == match self.debug_link {
                Some(link) => candidates_of(self.path@, link@, self.build_id@),
                None => Seq::empty(),
            },
    {
        match &self.debug_link {
            Some(link) => debug_link_candidates(
                self.path.as_str(),
                link.as_str(),
                self.build_id.as_slice(),
            ),
            None => {
                let candidates: Vec<Candidate> = Vec::new();
                assert(candidate_views(candidates@) =~= Seq::<CandidateView>::empty());
                candidates
            },
        }
    }

    /// Decides what to do with the image once its candidates were probed.
    pub fn resolve(&self, candidates: &[Candidate], probes: &[Probe]) -> (resolution: Resolution)
        ensures
            match resolution {
                Resolution::Follow(index) => is_first_accepted(
                    candidate_views(candidates@),
                    probes@,
                    index as int,
                ),
                Resolution::UseImage => self.has_debug_symbols && none_accepted(
                    candidate_views(candidates@),
                    probes@,
                ),
                Resolution::NoDebugInfo => !self.has_debug_symbols && none_accepted(
                    candidate_views(candidates@),
                    probes@,
                ),
            },
    {
        resolve_step(follow_debug_link(candidates, probes), self.has_debug_symbols)
    }
}

} // verus!
