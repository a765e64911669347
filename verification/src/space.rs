//! The search space: one letter group per letter of the alphabet, plus up to
//! two pseudovowel sets used for pruning.

use vstd::prelude::*;

use crate::bits::{in_alphabet, pc};

verus! {

/// All dictionary words containing a given anchor letter.
pub struct LetterGroup {
    pub letter: u32,
    pub words: Vec<u32>,
}

/// Mathematical image of a [`LetterGroup`].
pub ghost struct GroupView {
    pub letter: u32,
    pub words: Seq<u32>,
}

impl View for LetterGroup {
    type V = GroupView;

    open spec fn view(&self) -> GroupView {
        GroupView { letter: self.letter, words: self.words@ }
    }
}

/// The immutable search space: 26 letter groups ordered by increasing
/// candidate count, and the pseudovowel sets (0 when absent).
pub struct LetterSpace {
    pub groups: Vec<LetterGroup>,
    pub pseudovowels: u32,
    pub global_pseudovowels: u32,
}

/// Mathematical image of a [`LetterSpace`].
pub ghost struct SpaceView {
    pub groups: Seq<GroupView>,
    pub pseudovowels: u32,
    pub global_pseudovowels: u32,
}

impl View for LetterSpace {
    type V = SpaceView;

    open spec fn view(&self) -> SpaceView {
        SpaceView {
            groups: self.groups@.map_values(|g: LetterGroup| g@),
            pseudovowels: self.pseudovowels,
            global_pseudovowels: self.global_pseudovowels,
        }
    }
}

impl SpaceView {
    /// Candidate words kept by group `p`.
    pub open spec fn words(self, p: int) -> Seq<u32> {
        self.groups[p].words
    }

    /// Anchor letter of group `p`.
    pub open spec fn letter(self, p: int) -> u32 {
        self.groups[p].letter
    }

    /// Well-formedness: one group per position, anchors are distinct letters,
    /// and every candidate is a five-letter word containing its group's
    /// anchor.  A non-zero pseudovowel set touches every candidate word.
    pub open spec fn wf(self) -> bool {
        &&& self.groups.len() == 26
        &&& forall|p: int| 0 <= p < 26 ==> #[trigger] self.letter(p) < 26
        &&& forall|p: int, q: int|
            0 <= p < q < 26 ==> #[trigger] self.letter(p) != #[trigger] self.letter(q)
        &&& forall|p: int, j: int|
            0 <= p < 26 && 0 <= j < self.words(p).len() ==> {
                let w = #[trigger] self.words(p)[j];
                &&& in_alphabet(w)
                &&& pc(w) == 5
                &&& w & (1u32 << self.letter(p)) != 0
                &&& self.pseudovowels != 0 ==> w & self.pseudovowels != 0
                &&& self.global_pseudovowels != 0 ==> w & self.global_pseudovowels != 0
            }
    }

    /// A word offered by some group of the space.
    pub open spec fn has_word(self, w: u32) -> bool {
        exists|p: int| 0 <= p < 26 && #[trigger] self.words(p).contains(w)
    }
}

/// Which pruning devices a space is built with.
pub struct SearchConfig {
    pub prune_groups: bool,
    pub use_local_pseudovowels: bool,
    pub use_global_pseudovowels: bool,
}

impl SearchConfig {
    /// Everything switched on: the configuration of a production run.
    pub fn all_pruning() -> (c: SearchConfig)
        ensures
            c.prune_groups && c.use_local_pseudovowels && c.use_global_pseudovowels,
    {
        SearchConfig { prune_groups: true, use_local_pseudovowels: true, use_global_pseudovowels: true }
    }

    /// Everything switched off: the brute-force reference configuration.
    pub fn no_pruning() -> (c: SearchConfig)
        ensures
            !c.prune_groups && !c.use_local_pseudovowels && !c.use_global_pseudovowels,
    {
        SearchConfig { prune_groups: false, use_local_pseudovowels: false, use_global_pseudovowels: false }
    }
}

} // verus!
