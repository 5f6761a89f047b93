//! The metadata index: the in-memory structures every analysis runs over,
//! built once from the accumulated pages. It models an id-to-record map with
//! last-write-wins on duplicate ids (not an expected case) and a
//! parent-id-to-children multimap in crawl order.

use vstd::prelude::*;
use crate::record::{flatten, flatten_pages, FileRecord, FileRecordView, Page};
use crate::tree::{child_positions, children_of};

verus! {

/// The id-to-record map of the records in crawl order; a duplicated id keeps
/// the later record.
pub open spec fn id_map(files: Seq<FileRecordView>) -> Map<Seq<char>, FileRecordView>
    decreases files.len(),
{
    if files.len() == 0 {
        Map::empty()
    } else {
        id_map(files.drop_last()).insert(files.last().id, files.last())
    }
}

/// The index over one crawl's records: both maps are functions of the
/// flattened record list it holds.
pub struct MetadataIndex {
    pub files: Vec<FileRecord>,
}

impl View for MetadataIndex {
    type V = Seq<FileRecordView>;

    open spec fn view(&self) -> Seq<FileRecordView> {
        self.files.deep_view()
    }
}

impl MetadataIndex {
    /// Builds the index from the accumulated pages: the records flattened in
    /// crawl order, from which both maps derive. Building is a pure function
    /// of the pages: the same pages always give the same index.
    pub fn build(pages: &Vec<Page>) -> (ix: MetadataIndex)
        ensures
            ix@ == flatten_pages(pages.deep_view()),
    {
        MetadataIndex { files: flatten(pages) }
    }

    /// The record carrying `id`, the later one if the id is duplicated.
    pub fn record_by_id(&self, id: &String) -> (r: Option<&FileRecord>)
        ensures
            match r {
                Some(f) => id_map(self@).contains_key(id@) && f@ == id_map(self@)[id@],
                None => !id_map(self@).contains_key(id@),
            },
    {
        let ghost all = self@;
        let mut j: usize = self.files.len();
        while j > 0
            invariant
                j <= self.files.len(),
                all == self@,
                forall|t: int| j <= t < all.len() ==> (#[trigger] all[t]).id != id@,
            decreases j,
        {
            j = j - 1;
            if self.files[j].id == *id {
                proof {
                    assert(all[j as int].id == id@);
                    lemma_id_map_frame(all, id@, j + 1);
                    assert(all.take(j + 1).drop_last() =~= all.take(j as int));
                    assert(all.take(j + 1).last() == all[j as int]);
                }
                return Some(&self.files[j]);
            }
        }
        proof {
            lemma_id_map_frame(all, id@, 0);
            assert(all.take(0) =~= Seq::<FileRecordView>::empty());
        }
        None
    }

    /// The positions of the children of the node with id `pid`, in crawl
    /// order: the single-parent records whose parent is `pid`.
    pub fn children_positions(&self, pid: &String) -> (kids: Vec<usize>)
        ensures
            kids@.map_values(|u: usize| u as int) == child_positions(self@, pid@),
            forall|t: int| 0 <= t < kids.len() ==> #[trigger] kids[t] < self.files.len(),
    {
        children_of(&self.files, pid)
    }
}

/// Looking a key up in the id map only depends on the records up to the last
/// one carrying it: records that do not carry `id` do not affect it.
proof fn lemma_id_map_frame(files: Seq<FileRecordView>, id: Seq<char>, j: int)
    requires
        0 <= j <= files.len(),
        forall|t: int| j <= t < files.len() ==> (#[trigger] files[t]).id != id,
    ensures
        id_map(files).contains_key(id) == id_map(files.take(j)).contains_key(id),
        id_map(files).contains_key(id) ==> id_map(files)[id] == id_map(files.take(j))[id],
    decreases files.len() - j,
{
    if j == files.len() {
        assert(files.take(j) =~= files);
    } else {
        let shorter = files.drop_last();
        assert(files.last().id != id);
        assert forall|t: int| j <= t < shorter.len() implies (#[trigger] shorter[t]).id != id by {
            assert(shorter[t] == files[t]);
        }
        lemma_id_map_frame(shorter, id, j);
        assert(shorter.take(j) =~= files.take(j));
    }
}

/// Idempotent index build: building from the same pages twice yields maps
/// with identical key sets, identical records for every key, and identical
/// child orderings under every parent id.
pub proof fn lemma_build_idempotent(a: Seq<crate::record::PageView>, b: Seq<crate::record::PageView>)
    requires
        a == b,
    ensures
        id_map(flatten_pages(a)).dom() == id_map(flatten_pages(b)).dom(),
        forall|id: Seq<char>|
            id_map(flatten_pages(a)).contains_key(id) ==> id_map(flatten_pages(a))[id] == id_map(
                flatten_pages(b),
            )[id],
        forall|pid: Seq<char>|
            child_positions(flatten_pages(a), pid) == child_positions(flatten_pages(b), pid),
{
}

} // verus!
