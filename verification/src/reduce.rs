//! Reducing a set of trace files to those that differ in coverage.
//!
//! The signature of a trace is the union of the executed offsets of all its
//! modules. Traces are offered in order; a trace is kept if no trace kept
//! before it has exactly the same signature. A signature that is a part of
//! another, or overlaps it, is a different signature.

use crate::bitmap::{bitmap_contents, bitmap_eq};
use crate::drcov::Modules;
use vstd::prelude::*;
use vstd::string::*;

verus! {

/// The traces that were kept so far, and their signatures.
#[derive(Debug)]
pub struct SetReducer {
    signatures: Vec<roaring::RoaringBitmap>,
    retained: Vec<String>,
}

/// A reducer as plain values.
#[verifier::ext_equal]
pub struct SetReducerView {
    /// The signatures of the traces that were kept, in the order in which
    /// they were offered.
    pub signatures: Seq<Set<u32>>,
    /// The paths of the traces that were kept, in the same order.
    pub retained: Seq<Seq<char>>,
}

/// Whether `signature` is among `signatures`.
pub open spec fn seen(signatures: Seq<Set<u32>>, signature: Set<u32>) -> bool {
    exists|i: int| 0 <= i < signatures.len() && #[trigger] signatures[i] == signature
}

/// Lines as one text, with a line feed between every two of them.
pub open spec fn joined_lines(lines: Seq<Seq<char>>) -> Seq<char>
    decreases lines.len(),
{
    if lines.len() == 0 {
        Seq::empty()
    } else if lines.len() == 1 {
        lines[0]
    } else {
        joined_lines(lines.drop_last()) + seq!['\n'] + lines.last()
    }
}

impl SetReducerView {
    /// The reducer after a trace was offered: a trace with a new signature
    /// is added at the end, any other changes nothing.
    pub open spec fn offered(self, path: Seq<char>, signature: Set<u32>) -> SetReducerView {
        if seen(self.signatures, signature) {
            self
        } else {
            SetReducerView {
                signatures: self.signatures.push(signature),
                retained: self.retained.push(path),
            }
        }
    }
}

/// Of two traces with the same signature only the first is kept: offering
/// the signature again changes nothing.
pub proof fn lemma_same_signature_is_kept_once(
    reducer: SetReducerView,
    first: Seq<char>,
    second: Seq<char>,
    signature: Set<u32>,
)
    ensures
        reducer.offered(first, signature).offered(second, signature) == reducer.offered(
            first,
            signature,
        ),
{
    let once = reducer.offered(first, signature);
    if !seen(reducer.signatures, signature) {
        assert(once.signatures[reducer.signatures.len() as int] == signature);
    }
    assert(seen(once.signatures, signature));
}

/// A trace whose signature differs from every signature kept so far is kept,
/// behind the traces kept before it.
pub proof fn lemma_new_signature_is_kept(
    reducer: SetReducerView,
    path: Seq<char>,
    signature: Set<u32>,
)
    requires
        forall|i: int| 0 <= i < reducer.signatures.len() ==> reducer.signatures[i] != signature,
    ensures
        reducer.offered(path, signature).retained == reducer.retained.push(path),
        reducer.offered(path, signature).signatures == reducer.signatures.push(signature),
{
}

impl View for SetReducer {
    type V = SetReducerView;

    closed spec fn view(&self) -> SetReducerView {
        SetReducerView {
            signatures: self.signatures@.map_values(
                |bitmap: roaring::RoaringBitmap| bitmap_contents(&bitmap),
            ),
            retained: self.retained@.map_values(|path: String| path@),
        }
    }
}

impl SetReducer {
    /// A reducer to which nothing was offered yet.
    pub fn new() -> (reducer: SetReducer)
        ensures
            reducer@.signatures == Seq::<Set<u32>>::empty(),
            reducer@.retained == Seq::<Seq<char>>::empty(),
    {
        let reducer = SetReducer { signatures: Vec::new(), retained: Vec::new() };
        assert(reducer@.signatures =~= Seq::<Set<u32>>::empty());
        assert(reducer@.retained =~= Seq::<Seq<char>>::empty());
        reducer
    }

    /// Offers a trace by its signature. Says whether the trace was kept.
    pub fn offer_coverage(&mut self, path: &str, coverage: roaring::RoaringBitmap) -> (kept: bool)
        ensures
            kept == !seen(old(self)@.signatures, bitmap_contents(&coverage)),
            final(self)@ == old(self)@.offered(path@, bitmap_contents(&coverage)),
    {
        let ghost signature = bitmap_contents(&coverage);
        let mut i: usize = 0;
        while i < self.signatures.len()
            invariant
                i <= self.signatures@.len(),
                *self == *old(self),
                signature == bitmap_contents(&coverage),
                forall|k: int| 0 <= k < i ==> #[trigger] self@.signatures[k] != signature,
            decreases self.signatures@.len() - i,
        {
            if bitmap_eq(&self.signatures[i], &coverage) {
                assert(self@.signatures[i as int] == signature);
                return false;
            }
            i = i + 1;
        }
        let ghost before = self@;
        self.signatures.push(coverage);
        self.retained.push(String::from_str(path));
        assert(self@.signatures =~= before.signatures.push(signature));
        assert(self@.retained =~= before.retained.push(path@));
        true
    }

    /// Offers a trace by its modules. Says whether the trace was kept.
    pub fn offer(&mut self, path: &str, modules: &Modules) -> (kept: bool)
        ensures
            kept == !seen(old(self)@.signatures, modules@.coverage()),
            final(self)@ == old(self)@.offered(path@, modules@.coverage()),
    {
        self.offer_coverage(path, modules.get_coverage_all())
    }

    /// The paths of the traces that were kept, in the order in which they
    /// were offered.
    pub fn retained(&self) -> (paths: &Vec<String>)
        ensures
            paths@.map_values(|path: String| path@) == self@.retained,
    {
        &self.retained
    }

    /// The paths of the traces that were kept, one per line.
    pub fn listing(&self) -> (text: String)
        ensures
            text@ == joined_lines(self@.retained),
    {
        let ghost paths = self@.retained;
        let mut text = String::new();
        let mut i: usize = 0;
        assert(paths.take(0) =~= Seq::<Seq<char>>::empty());
        while i < self.retained.len()
            invariant
                i <= self.retained@.len(),
                paths == self@.retained,
                paths.len() == self.retained@.len(),
                text@ == joined_lines(paths.take(i as int)),
            decreases self.retained@.len() - i,
        {
            let ghost before = text@;
            if i > 0 {
                text.append("\n");
            }
            text.append(self.retained[i].as_str());
            proof {
                reveal_strlit("\n");
                let longer = paths.take(i + 1);
                assert(longer.drop_last() =~= paths.take(i as int));
                assert(longer.last() == self.retained@[i as int]@);
                if i == 0 {
                    assert(longer[0] == self.retained@[0]@);
                    assert(text@ =~= longer[0]);
                } else {
                    assert("\n"@ =~= seq!['\n']);
                    assert(text@ =~= before + seq!['\n'] + longer.last());
                }
            }
            i = i + 1;
        }
        assert(paths.take(i as int) =~= paths);
        text
    }
}

} // verus!
