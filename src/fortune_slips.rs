//! The slip factory: deals the texts of a catalog out to slips, luck level
//! after luck level, without reordering the result.
use vstd::prelude::*;
use crate::fortune_data::{FortuneData, FortuneDataInner};
use crate::fortune_splitter::{AllocError, FortuneSlipTextRef, FortuneSplitter, identity_order, is_order, levels_dealt};

verus! {

/// The content of one slip.
pub type FortuneSlip = FortuneSlipTextRef;

/// Creates the slips of a catalog.
pub struct FortuneSlipsFactory<'a> {
    splitter: FortuneSplitter<'a>,
}

impl<'a> FortuneSlipsFactory<'a> {
    pub closed spec fn data(&self) -> FortuneDataInner {
        self.splitter.data()
    }

    pub closed spec fn data_wf(&self) -> bool {
        self.splitter.data_wf()
    }

    pub fn new(fortune_data: &'a FortuneData) -> (r: Self)
        requires
            fortune_data.wf(),
        ensures
            r.data() == fortune_data.inner(),
            r.data_wf(),
    {
        FortuneSlipsFactory { splitter: FortuneSplitter::new(fortune_data) }
    }

    /// Creates as many slips as possible without repeating a text: for
    /// every luck level, in registry order, as many as its scarcest
    /// category has texts.
    pub fn create_slips(&self) -> (r: Result<Vec<FortuneSlip>, AllocError>)
        requires
            self.data_wf(),
        ensures
            r.is_ok() == (self.data().fortunes_per_category@.len() > 0 || self.data().settings.luck_levels@.len() == 0),
            r is Ok ==> exists|ord: Seq<usize>, os: Seq<Seq<Seq<usize>>>|
                (forall|l: int| 0 <= l < ord.len() ==> ord[l] == l) && levels_dealt(
                    self.data(),
                    ord,
                    os,
                    r->Ok_0@,
                    self.data().settings.luck_levels@.len() as int,
                ),
    {
        let n = self.splitter.luck_level_count();
        let ord = identity_order(n);
        proof {
            assert(is_order(ord@, n as int)) by {
                assert forall|a: int, b: int| 0 <= a < ord@.len() && 0 <= b < ord@.len() && a != b implies ord@[a] != ord@[b] by {}
            }
        }
        let r = self.splitter.deal_levels(&ord);
        proof {
            if r is Ok {
                let os = choose|os: Seq<Seq<Seq<usize>>>| levels_dealt(self.data(), ord@, os, r->Ok_0@, self.data().settings.luck_levels@.len() as int);
                assert(forall|l: int| 0 <= l < ord@.len() ==> ord@[l] == l);
            }
        }
        r
    }
}

} // verus!
