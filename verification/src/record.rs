//! The data model of one crawl: file records, fetched pages, and their
//! mathematical views.

use vstd::prelude::*;

verus! {

/// One drive entry, as accumulated by the crawl.
///
/// `id` is an opaque string, unique within one completed crawl. `parents`
/// holds the ids of the folders this entry is nested under: zero, one, or
/// (rejected by tree analysis) several. `quota_bytes_used` is the
/// quota-weighted byte count; it is absent for folders and some file kinds.
/// `size` and `sha256_checksum` are the raw content size and checksum,
/// present only when a later collection pass supplied them.
pub struct FileRecord {
    pub id: String,
    pub mime_type: String,
    pub parents: Vec<String>,
    pub name: String,
    pub quota_bytes_used: Option<u64>,
    pub size: Option<u64>,
    pub sha256_checksum: Option<String>,
}

/// The mathematical view of a `FileRecord`: every string as a `Seq<char>`.
pub struct FileRecordView {
    pub id: Seq<char>,
    pub mime_type: Seq<char>,
    pub parents: Seq<Seq<char>>,
    pub name: Seq<char>,
    pub quota_bytes_used: Option<u64>,
    pub size: Option<u64>,
    pub sha256_checksum: Option<Seq<char>>,
}

impl View for FileRecord {
    type V = FileRecordView;

    open spec fn view(&self) -> FileRecordView {
        FileRecordView {
            id: self.id@,
            mime_type: self.mime_type@,
            parents: self.parents.deep_view(),
            name: self.name@,
            quota_bytes_used: self.quota_bytes_used,
            size: self.size,
            sha256_checksum: self.sha256_checksum.deep_view(),
        }
    }
}

impl DeepView for FileRecord {
    type V = FileRecordView;

    open spec fn deep_view(&self) -> FileRecordView {
        self.view()
    }
}

/// One fetched batch of records. A present `next_page_token` means more pages
/// remain; its absence is the crawl's only terminal signal.
pub struct Page {
    pub files: Vec<FileRecord>,
    pub next_page_token: Option<String>,
}

/// The mathematical view of a `Page`.
pub struct PageView {
    pub files: Seq<FileRecordView>,
    pub next_page_token: Option<Seq<char>>,
}

impl View for Page {
    type V = PageView;

    open spec fn view(&self) -> PageView {
        PageView { files: self.files.deep_view(), next_page_token: self.next_page_token.deep_view() }
    }
}

impl DeepView for Page {
    type V = PageView;

    open spec fn deep_view(&self) -> PageView {
        self.view()
    }
}

/// All records of a sequence of pages, flattened in crawl order: page order
/// first, then within-page order.
pub open spec fn flatten_pages(pages: Seq<PageView>) -> Seq<FileRecordView>
    decreases pages.len(),
{
    if pages.len() == 0 {
        Seq::empty()
    } else {
        pages[0].files + flatten_pages(pages.skip(1))
    }
}

/// Flattens the pages' records into one list, in crawl order.
pub fn flatten(pages: &Vec<Page>) -> (out: Vec<FileRecord>)
    ensures
        out.deep_view() == flatten_pages(pages.deep_view()),
{
    let mut out: Vec<FileRecord> = Vec::new();
    let ghost all = pages.deep_view();
    proof {
        assert(all.skip(0) == all);
    }
    let mut p: usize = 0;
    while p < pages.len()
        invariant
            p <= pages.len(),
            all == pages.deep_view(),
            out.deep_view() + flatten_pages(all.skip(p as int)) == flatten_pages(all),
        decreases pages.len() - p,
    {
        let page = &pages[p];
        let ghost before = out.deep_view();
        let mut i: usize = 0;
        while i < page.files.len()
            invariant
                i <= page.files.len(),
                page == pages[p as int],
                p < pages.len(),
                all == pages.deep_view(),
                out.deep_view() == before + page.files.deep_view().take(i as int),
            decreases page.files.len() - i,
        {
            let ghost prev = out.deep_view();
            out.push(clone_record(&page.files[i]));
            proof {
                assert(out.deep_view() =~= prev.push(page.files.deep_view()[i as int]));
                assert(page.files.deep_view().take(i + 1)
                    =~= page.files.deep_view().take(i as int).push(page.files.deep_view()[i as int]));
            }
            i += 1;
        }
        proof {
            assert(page.files.deep_view().take(page.files.len() as int) =~= page.files.deep_view());
            assert(all.skip(p as int)[0] == all[p as int]);
            assert(all.skip(p as int).skip(1) == all.skip(p + 1));
            assert(flatten_pages(all.skip(p as int))
                == all[p as int].files + flatten_pages(all.skip(p + 1)));
            assert(out.deep_view() + flatten_pages(all.skip(p + 1))
                =~= (before + all[p as int].files) + flatten_pages(all.skip(p + 1)));
        }
        p += 1;
    }
    proof {
        assert(all.skip(pages.len() as int) =~= Seq::<PageView>::empty());
        assert(out.deep_view() + Seq::<FileRecordView>::empty() =~= out.deep_view());
    }
    out
}

/// Copies one record; the copy has the same view as the original.
pub fn clone_record(r: &FileRecord) -> (out: FileRecord)
    ensures
        out@ == r@,
{
    let mut parents: Vec<String> = Vec::new();
    let mut i: usize = 0;
    while i < r.parents.len()
        invariant
            i <= r.parents.len(),
            parents.deep_view() == r.parents.deep_view().take(i as int),
        decreases r.parents.len() - i,
    {
        let ghost prev = parents.deep_view();
        parents.push(r.parents[i].clone());
        proof {
            assert(parents.deep_view() =~= prev.push(r.parents.deep_view()[i as int]));
            assert(r.parents.deep_view().take(i + 1)
                =~= r.parents.deep_view().take(i as int).push(r.parents.deep_view()[i as int]));
        }
        i += 1;
    }
    proof {
        assert(r.parents.deep_view().take(r.parents.len() as int) =~= r.parents.deep_view());
    }
    let out = FileRecord {
        id: r.id.clone(),
        mime_type: r.mime_type.clone(),
        parents,
        name: r.name.clone(),
        quota_bytes_used: r.quota_bytes_used,
        size: r.size,
        sha256_checksum: match &r.sha256_checksum {
            Some(s) => Some(s.clone()),
            None => None,
        },
    };
    out
}

} // verus!
