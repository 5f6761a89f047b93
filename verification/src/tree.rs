//! The size-weighted containment tree: a depth-first roll-up of
//! quota-weighted sizes over the parent relation, printed post-order so a
//! parent's line already reflects all descendants, filtered to nodes whose
//! aggregate reaches a threshold.
//!
//! Traversal starts from every record without a parent, then from a
//! synthesized root for every distinct parent id that is referenced but not
//! itself crawled (a folder the crawling identity does not own). A record
//! with several parents makes the whole analysis fail before any traversal:
//! the parent-to-children multimap cannot represent it. The parent relation
//! is assumed acyclic, as the source system guarantees; as defense in depth
//! the walk carries fuel bounding its depth and checks every size addition,
//! and fails cleanly instead of looping or wrapping if the assumption is
//! violated.

use vstd::prelude::*;
use crate::format::{format_size, format_size_spec};
use crate::overview::{contains_id, id_known, quota_of};
use crate::record::{FileRecord, FileRecordView};

verus! {

/// A tree line is printed only when the node's aggregate size reaches this
/// many bytes (50 MiB).
pub const TREE_PRINT_MIN_BYTES: u64 = 0x3200000;

/// `n` spaces, the indentation of a node at depth `n`.
pub open spec fn spaces(n: nat) -> Seq<char> {
    Seq::new(n, |i: int| ' ')
}

/// One printed tree line: indentation, a bullet, the formatted aggregate
/// size, two spaces, and the node's display name.
pub open spec fn tree_line(depth: nat, size: nat, name: Seq<char>) -> Seq<char> {
    spaces(depth) + seq!['o', ' '] + format_size_spec(size) + seq![' ', ' '] + name
}

/// The display name of a synthesized root for an uncrawled parent id.
pub open spec fn root_label(id: Seq<char>) -> Seq<char> {
    seq!['R', 'o', 'o', 't', ' ', '('] + id + seq![')']
}

/// A node of the containment forest: a crawled record, or the synthesized
/// root standing for an uncrawled parent id.
pub enum TreeNode {
    Rec(int),
    Missing(Seq<char>),
}

/// The positions, among the first `n` records, of the children of the node
/// with id `pid`: the single-parent records whose parent is `pid`, in crawl
/// order.
pub open spec fn child_positions_upto(files: Seq<FileRecordView>, pid: Seq<char>, n: int) -> Seq<
    int,
>
    decreases n,
{
    if n <= 0 {
        Seq::empty()
    } else {
        child_positions_upto(files, pid, n - 1) + if files[n - 1].parents.len() == 1 && files[n
            - 1].parents[0] == pid {
            seq![n - 1]
        } else {
            Seq::empty()
        }
    }
}

/// The positions of all children of the node with id `pid`, in crawl order.
pub open spec fn child_positions(files: Seq<FileRecordView>, pid: Seq<char>) -> Seq<int> {
    child_positions_upto(files, pid, files.len() as int)
}

/// The positions, among the first `n` records, of the records without a
/// parent, in crawl order.
pub open spec fn parentless_positions_upto(files: Seq<FileRecordView>, n: int) -> Seq<int>
    decreases n,
{
    if n <= 0 {
        Seq::empty()
    } else {
        parentless_positions_upto(files, n - 1) + if files[n - 1].parents.len() == 0 {
            seq![n - 1]
        } else {
            Seq::empty()
        }
    }
}

/// The positions of all parentless records, in crawl order.
pub open spec fn parentless_positions(files: Seq<FileRecordView>) -> Seq<int> {
    parentless_positions_upto(files, files.len() as int)
}

/// The distinct parent ids referenced by the first `n` single-parent records
/// but crawled by no record, in order of first reference.
pub open spec fn missing_parent_ids_upto(files: Seq<FileRecordView>, n: int) -> Seq<Seq<char>>
    decreases n,
{
    if n <= 0 {
        Seq::empty()
    } else {
        let sofar = missing_parent_ids_upto(files, n - 1);
        sofar + if files[n - 1].parents.len() == 1 && !id_known(files, files[n - 1].parents[0])
            && !sofar.contains(files[n - 1].parents[0]) {
            seq![files[n - 1].parents[0]]
        } else {
            Seq::empty()
        }
    }
}

/// The distinct uncrawled parent ids, in order of first reference.
pub open spec fn missing_parent_ids(files: Seq<FileRecordView>) -> Seq<Seq<char>> {
    missing_parent_ids_upto(files, files.len() as int)
}

/// One node of the depth-first walk: `None` when the fuel runs out or an
/// aggregate would not fit in 64 bits (both can only happen if the parent
/// relation is cyclic or the data absurdly large); otherwise the lines this
/// subtree prints, post-order and already filtered, together with the
/// subtree's aggregate size.
pub open spec fn dfs_node(
    files: Seq<FileRecordView>,
    node: TreeNode,
    depth: nat,
    fuel: nat,
) -> Option<(Seq<Seq<char>>, nat)>
    decreases fuel, 0int, 0int,
{
    if fuel == 0 {
        None
    } else {
        let own: nat = match node {
            TreeNode::Rec(i) => quota_of(files[i]),
            TreeNode::Missing(_) => 0,
        };
        let id = match node {
            TreeNode::Rec(i) => files[i].id,
            TreeNode::Missing(s) => s,
        };
        let name = match node {
            TreeNode::Rec(i) => files[i].name,
            TreeNode::Missing(s) => root_label(s),
        };
        match dfs_children(files, child_positions(files, id), depth + 1, (fuel - 1) as nat) {
            None => None,
            Some(sub) => {
                let total = own + sub.1;
                if total > u64::MAX as nat {
                    None
                } else if total >= TREE_PRINT_MIN_BYTES as nat {
                    Some((sub.0.push(tree_line(depth, total, name)), total))
                } else {
                    Some((sub.0, total))
                }
            }
        }
    }
}

/// The walk over a list of child positions, left to right: lines are
/// concatenated, sizes summed.
pub open spec fn dfs_children(
    files: Seq<FileRecordView>,
    idxs: Seq<int>,
    depth: nat,
    fuel: nat,
) -> Option<(Seq<Seq<char>>, nat)>
    decreases fuel, idxs.len(), 1int,
{
    if idxs.len() == 0 {
        Some((Seq::empty(), 0))
    } else {
        match dfs_node(files, TreeNode::Rec(idxs[0]), depth, fuel) {
            None => None,
            Some(head) => match dfs_children(files, idxs.skip(1), depth, fuel) {
                None => None,
                Some(rest) => Some((head.0 + rest.0, head.1 + rest.1)),
            },
        }
    }
}

/// The walk over the parentless roots, at depth 0; only the lines matter.
pub open spec fn dfs_record_roots(
    files: Seq<FileRecordView>,
    idxs: Seq<int>,
    fuel: nat,
) -> Option<Seq<Seq<char>>>
    decreases fuel, idxs.len(), 1int,
{
    if idxs.len() == 0 {
        Some(Seq::empty())
    } else {
        match dfs_node(files, TreeNode::Rec(idxs[0]), 0, fuel) {
            None => None,
            Some(head) => match dfs_record_roots(files, idxs.skip(1), fuel) {
                None => None,
                Some(rest) => Some(head.0 + rest),
            },
        }
    }
}

/// The walk over the synthesized roots of uncrawled parent ids, at depth 0.
pub open spec fn dfs_missing_roots(
    files: Seq<FileRecordView>,
    ids: Seq<Seq<char>>,
    fuel: nat,
) -> Option<Seq<Seq<char>>>
    decreases fuel, ids.len(), 1int,
{
    if ids.len() == 0 {
        Some(Seq::empty())
    } else {
        match dfs_node(files, TreeNode::Missing(ids[0]), 0, fuel) {
            None => None,
            Some(head) => match dfs_missing_roots(files, ids.skip(1), fuel) {
                None => None,
                Some(rest) => Some(head.0 + rest),
            },
        }
    }
}

/// True when some record claims more than one parent, which the
/// parent-to-children multimap cannot represent.
pub open spec fn has_multiple_parents(files: Seq<FileRecordView>) -> bool {
    exists|j: int| 0 <= j < files.len() && (#[trigger] files[j]).parents.len() > 1
}

/// Everything the tree analysis can produce.
pub enum TreeOutcome {
    /// The printed report, one line per surviving node.
    Lines(Seq<Seq<char>>),
    /// A record with several parents: a structural violation, nothing prints.
    MultipleParents,
    /// A defense-in-depth guard fired: the walk ran out of fuel (a cycle) or
    /// an aggregate left 64 bits.
    Guarded,
}

/// The outcome of the tree analysis over the crawled records: the
/// multi-parent check first, then the parentless roots in crawl order, then
/// the synthesized roots in order of first reference, each walked with fuel
/// for one more level than there are records.
pub open spec fn tree_outcome(files: Seq<FileRecordView>) -> TreeOutcome {
    if has_multiple_parents(files) {
        TreeOutcome::MultipleParents
    } else {
        let fuel = files.len() + 1;
        match dfs_record_roots(files, parentless_positions(files), fuel) {
            None => TreeOutcome::Guarded,
            Some(rec_lines) => match dfs_missing_roots(files, missing_parent_ids(files), fuel) {
                None => TreeOutcome::Guarded,
                Some(missing_lines) => TreeOutcome::Lines(rec_lines + missing_lines),
            },
        }
    }
}

/// Why the tree analysis returned no report.
#[derive(PartialEq, Eq, Structural, Clone, Copy, Debug)]
pub enum TreeError {
    /// Some record has more than one parent.
    MultipleParents,
    /// A traversal guard fired: cyclic parents or an overflowing aggregate.
    Guarded,
}

/// Whether `v` holds a string equal to `s`.
fn contains_string(v: &Vec<String>, s: &String) -> (r: bool)
    ensures
        r == v.deep_view().contains(s@),
{
    let ghost all = v.deep_view();
    let mut j: usize = 0;
    while j < v.len()
        invariant
            j <= v.len(),
            all == v.deep_view(),
            forall|t: int| 0 <= t < j ==> #[trigger] all[t] != s@,
        decreases v.len() - j,
    {
        if v[j] == *s {
            proof {
                assert(all[j as int] == s@);
            }
            return true;
        }
        j += 1;
    }
    proof {
        assert(!all.contains(s@)) by {
            if all.contains(s@) {
                let w = choose|w: int| 0 <= w < all.len() && all[w] == s@;
                assert(all[w] != s@);
            }
        }
    }
    false
}

/// The positions of the children of the node with id `pid`, in crawl order.
pub(crate) fn children_of(files: &Vec<FileRecord>, pid: &String) -> (kids: Vec<usize>)
    ensures
        kids@.map_values(|u: usize| u as int) == child_positions(files.deep_view(), pid@),
        forall|t: int| 0 <= t < kids.len() ==> #[trigger] kids[t] < files.len(),
{
    let ghost all = files.deep_view();
    let mut kids: Vec<usize> = Vec::new();
    let mut j: usize = 0;
    proof {
        assert(kids@.map_values(|u: usize| u as int) =~= child_positions_upto(all, pid@, 0));
    }
    while j < files.len()
        invariant
            j <= files.len(),
            all == files.deep_view(),
            kids@.map_values(|u: usize| u as int) == child_positions_upto(all, pid@, j as int),
            forall|t: int| 0 <= t < kids.len() ==> #[trigger] kids[t] < j,
        decreases files.len() - j,
    {
        let f = &files[j];
        let ghost prevm = kids@.map_values(|u: usize| u as int);
        proof {
            assert(all[j as int].parents =~= f.parents.deep_view());
        }
        if f.parents.len() == 1 && f.parents[0] == *pid {
            kids.push(j);
            proof {
                assert(all[j as int].parents[0] == f.parents[0 as int]@);
                assert(kids@.map_values(|u: usize| u as int) =~= prevm.push(j as int));
                assert(child_positions_upto(all, pid@, j + 1) =~= prevm + seq![j as int]);
                assert(prevm.push(j as int) =~= prevm + seq![j as int]);
            }
        } else {
            proof {
                if all[j as int].parents.len() == 1 {
                    assert(all[j as int].parents[0] == f.parents[0 as int]@);
                }
                assert(child_positions_upto(all, pid@, j + 1) =~= prevm);
            }
        }
        j += 1;
    }
    kids
}

/// Builds one printed line for a node at `depth` with aggregate `size` and
/// display name `name`.
fn render_line(depth: u128, size: u64, name: &String) -> (line: String)
    ensures
        line@ == tree_line(depth as nat, size as nat, name@),
{
    let mut line = String::new();
    proof {
        assert(line@ =~= spaces(0));
    }
    let mut d: u128 = 0;
    while d < depth
        invariant
            d <= depth,
            line@ == spaces(d as nat),
        decreases depth - d,
    {
        crate::format::push_char(&mut line, ' ');
        proof {
            assert(line@ =~= spaces((d + 1) as nat));
        }
        d += 1;
    }
    crate::format::push_char(&mut line, 'o');
    crate::format::push_char(&mut line, ' ');
    let sized = format_size(size);
    line.append(sized.as_str());
    crate::format::push_char(&mut line, ' ');
    crate::format::push_char(&mut line, ' ');
    line.append(name.as_str());
    proof {
        assert(line@ =~= tree_line(depth as nat, size as nat, name@));
    }
    line
}

/// Builds the display name of the synthesized root for the uncrawled parent
/// id `id`.
fn render_root_label(id: &String) -> (s: String)
    ensures
        s@ == root_label(id@),
{
    let mut s = String::new();
    crate::format::push_char(&mut s, 'R');
    crate::format::push_char(&mut s, 'o');
    crate::format::push_char(&mut s, 'o');
    crate::format::push_char(&mut s, 't');
    crate::format::push_char(&mut s, ' ');
    crate::format::push_char(&mut s, '(');
    s.append(id.as_str());
    crate::format::push_char(&mut s, ')');
    proof {
        assert(s@ =~= root_label(id@));
    }
    s
}

/// Walks the subtree rooted at the record in position `j`, appending its
/// lines to `out` post-order and returning its aggregate size; fails exactly
/// when the fuel-and-overflow guard of [`dfs_node`] does.
fn dfs_record(files: &Vec<FileRecord>, j: usize, depth: u128, fuel: u128, out: &mut Vec<String>)
    -> (r: Result<u64, TreeError>)
    requires
        j < files.len(),
        depth as nat + fuel as nat <= files.deep_view().len() + 1,
    ensures
        ({
            let res = dfs_node(
                files.deep_view(),
                TreeNode::Rec(j as int),
                depth as nat,
                fuel as nat,
            );
            match r {
                Ok(size) => res matches Some(p) && final(out).deep_view() == old(out).deep_view()
                    + p.0 && size as nat == p.1,
                Err(e) => res is None && e == TreeError::Guarded,
            }
        }),
    decreases fuel,
{
    let ghost all = files.deep_view();
    if fuel == 0 {
        return Err(TreeError::Guarded);
    }
    let ghost base = out.deep_view();
    let ghost dd = (depth + 1) as nat;
    let ghost ff = (fuel - 1) as nat;
    let f = &files[j];
    let own: u64 = match f.quota_bytes_used {
        Some(b) => b,
        None => 0,
    };
    let kids = children_of(files, &f.id);
    let ghost cp = child_positions(all, all[j as int].id);
    proof {
        assert(all[j as int].id == f.id@);
        assert(all[j as int].name == f.name@);
        assert(quota_of(all[j as int]) == own as nat);
        assert(kids@.map_values(|u: usize| u as int) == cp);
        assert(cp.skip(0) =~= cp);
        assert(base.skip(base.len() as int) =~= Seq::<Seq<char>>::empty());
        assert(base.take(base.len() as int) =~= base);
        let sr = dfs_children(all, cp, dd, ff);
        if sr is Some {
            assert(Seq::<Seq<char>>::empty() + sr.unwrap().0 =~= sr.unwrap().0);
        }
    }
    let mut csum: u64 = 0;
    let mut k: usize = 0;
    while k < kids.len()
        invariant
            k <= kids.len(),
            all == files.deep_view(),
            j < files.len(),
            dd == (depth + 1) as nat,
            ff == (fuel - 1) as nat,
            depth as nat + fuel as nat <= all.len() + 1,
            fuel >= 1,
            cp == child_positions(all, all[j as int].id),
            kids@.map_values(|u: usize| u as int) == cp,
            forall|t: int| 0 <= t < kids.len() ==> #[trigger] kids[t] < files.len(),
            out.deep_view().len() >= base.len(),
            out.deep_view().take(base.len() as int) == base,
            ({
                let sr = dfs_children(all, cp.skip(k as int), dd, ff);
                &&& (sr is Some ==> dfs_children(all, cp, dd, ff) == Some(
                    (
                        out.deep_view().skip(base.len() as int) + sr.unwrap().0,
                        (csum as nat + sr.unwrap().1) as nat,
                    ),
                ))
                &&& (sr is None ==> dfs_children(all, cp, dd, ff) is None)
            }),
        decreases kids.len() - k,
    {
        let kid = kids[k];
        proof {
            assert(kids@.map_values(|u: usize| u as int)[k as int] == kid as int);
            assert(cp[k as int] == kid as int);
            assert(cp.skip(k as int).len() == cp.len() - k);
            assert(cp.skip(k as int)[0] == cp[k as int]);
            assert(cp.skip(k as int).skip(1) =~= cp.skip(k as int + 1));
        }
        let ghost out_before = out.deep_view();
        let rr = dfs_record(files, kid, depth + 1, fuel - 1, out);
        match rr {
            Err(_) => {
                proof {
                    assert(dfs_node(all, TreeNode::Rec(kid as int), dd, ff) is None);
                    assert(dfs_children(all, cp.skip(k as int), dd, ff) is None);
                }
                return Err(TreeError::Guarded);
            }
            Ok(s) => {
                proof {
                    let head = dfs_node(all, TreeNode::Rec(kid as int), dd, ff);
                    assert(head matches Some(hp) && out.deep_view() == out_before + hp.0
                        && s as nat == hp.1);
                }
                match csum.checked_add(s) {
                    None => {
                        proof {
                            let head = dfs_node(all, TreeNode::Rec(kid as int), dd, ff).unwrap();
                            let tail = dfs_children(all, cp.skip(k as int + 1), dd, ff);
                            if tail is Some {
                                assert(dfs_children(all, cp.skip(k as int), dd, ff) == Some(
                                    (head.0 + tail.unwrap().0, (head.1 + tail.unwrap().1) as nat),
                                ));
                                let full = dfs_children(all, cp, dd, ff);
                                assert(full is Some);
                                assert(full.unwrap().1 >= csum as nat + head.1);
                                assert(full.unwrap().1 > u64::MAX as nat);
                                assert(dfs_node(all, TreeNode::Rec(j as int), depth as nat, fuel as nat) is None);
                            } else {
                                assert(dfs_children(all, cp.skip(k as int), dd, ff) is None);
                                assert(dfs_children(all, cp, dd, ff) is None);
                                assert(dfs_node(all, TreeNode::Rec(j as int), depth as nat, fuel as nat) is None);
                            }
                        }
                        return Err(TreeError::Guarded);
                    }
                    Some(ns) => {
                        csum = ns;
                        proof {
                            let head = dfs_node(all, TreeNode::Rec(kid as int), dd, ff).unwrap();
                            let tail = dfs_children(all, cp.skip(k as int + 1), dd, ff);
                            assert(out.deep_view().skip(base.len() as int) =~= out_before.skip(
                                base.len() as int,
                            ) + head.0);
                            if tail is Some {
                                assert(dfs_children(all, cp.skip(k as int), dd, ff) == Some(
                                    (head.0 + tail.unwrap().0, (head.1 + tail.unwrap().1) as nat),
                                ));
                                assert(out_before.skip(base.len() as int) + (head.0
                                    + tail.unwrap().0) =~= out.deep_view().skip(base.len() as int)
                                    + tail.unwrap().0);
                            } else {
                                assert(dfs_children(all, cp.skip(k as int), dd, ff) is None);
                            }
                            assert(out.deep_view().take(base.len() as int) =~= base);
                        }
                    }
                }
            }
        }
        k += 1;
    }
    proof {
        assert(cp.skip(kids.len() as int) =~= Seq::<int>::empty());
        assert(dfs_children(all, cp.skip(kids.len() as int), dd, ff) == Some(
            (Seq::<Seq<char>>::empty(), 0nat),
        ));
        let full = dfs_children(all, cp, dd, ff);
        assert(full == Some(
            (out.deep_view().skip(base.len() as int) + Seq::<Seq<char>>::empty(), csum as nat),
        ));
        assert(out.deep_view().skip(base.len() as int) + Seq::<Seq<char>>::empty()
            =~= out.deep_view().skip(base.len() as int));
    }
    match own.checked_add(csum) {
        None => {
            proof {
                assert(quota_of(all[j as int]) + csum as nat > u64::MAX as nat);
            }
            Err(TreeError::Guarded)
        }
        Some(total) => {
            let ghost done = out.deep_view().skip(base.len() as int);
            if total >= TREE_PRINT_MIN_BYTES {
                let line = render_line(depth, total, &f.name);
                out.push(line);
                proof {
                    assert(out.deep_view() =~= (base + done.push(
                        tree_line(depth as nat, total as nat, all[j as int].name),
                    )));
                }
            } else {
                proof {
                    assert(out.deep_view() =~= base + done);
                }
            }
            Ok(total)
        }
    }
}

/// Walks the subtree rooted at the synthesized root for the uncrawled parent
/// id `id`, at depth 0, appending its lines to `out` post-order.
fn dfs_missing(files: &Vec<FileRecord>, id: &String, fuel: u128, out: &mut Vec<String>) -> (r:
    Result<u64, TreeError>)
    requires
        fuel as nat <= files.deep_view().len() + 1,
    ensures
        ({
            let res = dfs_node(files.deep_view(), TreeNode::Missing(id@), 0, fuel as nat);
            match r {
                Ok(size) => res matches Some(p) && final(out).deep_view() == old(out).deep_view()
                    + p.0 && size as nat == p.1,
                Err(e) => res is None && e == TreeError::Guarded,
            }
        }),
{
    let ghost all = files.deep_view();
    if fuel == 0 {
        return Err(TreeError::Guarded);
    }
    let ghost base = out.deep_view();
    let ghost dd = 1nat;
    let ghost ff = (fuel - 1) as nat;
    let kids = children_of(files, id);
    let ghost cp = child_positions(all, id@);
    proof {
        assert(kids@.map_values(|u: usize| u as int) == cp);
        assert(cp.skip(0) =~= cp);
        assert(base.take(base.len() as int) =~= base);
        let sr = dfs_children(all, cp, dd, ff);
        if sr is Some {
            assert(Seq::<Seq<char>>::empty() + sr.unwrap().0 =~= sr.unwrap().0);
        }
        assert(base.skip(base.len() as int) =~= Seq::<Seq<char>>::empty());
    }
    let mut csum: u64 = 0;
    let mut k: usize = 0;
    while k < kids.len()
        invariant
            k <= kids.len(),
            all == files.deep_view(),
            dd == 1nat,
            ff == (fuel - 1) as nat,
            fuel as nat <= all.len() + 1,
            fuel >= 1,
            cp == child_positions(all, id@),
            kids@.map_values(|u: usize| u as int) == cp,
            forall|t: int| 0 <= t < kids.len() ==> #[trigger] kids[t] < files.len(),
            out.deep_view().len() >= base.len(),
            out.deep_view().take(base.len() as int) == base,
            ({
                let sr = dfs_children(all, cp.skip(k as int), dd, ff);
                &&& (sr is Some ==> dfs_children(all, cp, dd, ff) == Some(
                    (
                        out.deep_view().skip(base.len() as int) + sr.unwrap().0,
                        (csum as nat + sr.unwrap().1) as nat,
                    ),
                ))
                &&& (sr is None ==> dfs_children(all, cp, dd, ff) is None)
            }),
        decreases kids.len() - k,
    {
        let kid = kids[k];
        proof {
            assert(kids@.map_values(|u: usize| u as int)[k as int] == kid as int);
            assert(cp[k as int] == kid as int);
            assert(cp.skip(k as int)[0] == cp[k as int]);
            assert(cp.skip(k as int).skip(1) =~= cp.skip(k as int + 1));
        }
        let ghost out_before = out.deep_view();
        let rr = dfs_record(files, kid, 1, fuel - 1, out);
        match rr {
            Err(_) => {
                proof {
                    assert(dfs_node(all, TreeNode::Rec(kid as int), dd, ff) is None);
                    assert(dfs_children(all, cp.skip(k as int), dd, ff) is None);
                }
                return Err(TreeError::Guarded);
            }
            Ok(s) => {
                proof {
                    let head = dfs_node(all, TreeNode::Rec(kid as int), dd, ff);
                    assert(head matches Some(hp) && out.deep_view() == out_before + hp.0
                        && s as nat == hp.1);
                }
                match csum.checked_add(s) {
                    None => {
                        proof {
                            let head = dfs_node(all, TreeNode::Rec(kid as int), dd, ff).unwrap();
                            let tail = dfs_children(all, cp.skip(k as int + 1), dd, ff);
                            if tail is Some {
                                assert(dfs_children(all, cp.skip(k as int), dd, ff) == Some(
                                    (head.0 + tail.unwrap().0, (head.1 + tail.unwrap().1) as nat),
                                ));
                                let full = dfs_children(all, cp, dd, ff);
                                assert(full is Some);
                                assert(full.unwrap().1 >= csum as nat + head.1);
                                assert(full.unwrap().1 > u64::MAX as nat);
                                assert(dfs_node(all, TreeNode::Missing(id@), 0, fuel as nat) is None);
                            } else {
                                assert(dfs_children(all, cp.skip(k as int), dd, ff) is None);
                                assert(dfs_children(all, cp, dd, ff) is None);
                                assert(dfs_node(all, TreeNode::Missing(id@), 0, fuel as nat) is None);
                            }
                        }
                        return Err(TreeError::Guarded);
                    }
                    Some(ns) => {
                        csum = ns;
                        proof {
                            let head = dfs_node(all, TreeNode::Rec(kid as int), dd, ff).unwrap();
                            let tail = dfs_children(all, cp.skip(k as int + 1), dd, ff);
                            assert(out.deep_view().skip(base.len() as int) =~= out_before.skip(
                                base.len() as int,
                            ) + head.0);
                            if tail is Some {
                                assert(dfs_children(all, cp.skip(k as int), dd, ff) == Some(
                                    (head.0 + tail.unwrap().0, (head.1 + tail.unwrap().1) as nat),
                                ));
                                assert(out_before.skip(base.len() as int) + (head.0
                                    + tail.unwrap().0) =~= out.deep_view().skip(base.len() as int)
                                    + tail.unwrap().0);
                            } else {
                                assert(dfs_children(all, cp.skip(k as int), dd, ff) is None);
                            }
                            assert(out.deep_view().take(base.len() as int) =~= base);
                        }
                    }
                }
            }
        }
        k += 1;
    }
    proof {
        assert(cp.skip(kids.len() as int) =~= Seq::<int>::empty());
        assert(dfs_children(all, cp.skip(kids.len() as int), dd, ff) == Some(
            (Seq::<Seq<char>>::empty(), 0nat),
        ));
        assert(dfs_children(all, cp, dd, ff) == Some(
            (out.deep_view().skip(base.len() as int) + Seq::<Seq<char>>::empty(), csum as nat),
        ));
        assert(out.deep_view().skip(base.len() as int) + Seq::<Seq<char>>::empty()
            =~= out.deep_view().skip(base.len() as int));
    }
    let total = csum;
    let ghost done = out.deep_view().skip(base.len() as int);
    if total >= TREE_PRINT_MIN_BYTES {
        let label = render_root_label(id);
        let line = render_line(0, total, &label);
        out.push(line);
        proof {
            assert(out.deep_view() =~= (base + done.push(
                tree_line(0, total as nat, root_label(id@)),
            )));
        }
    } else {
        proof {
            assert(out.deep_view() =~= base + done);
        }
    }
    Ok(total)
}

/// Runs the whole tree analysis over the records in crawl order and returns
/// the printed lines, or the reason nothing prints; the result is exactly
/// [`tree_outcome`] of the records.
pub fn tree_report(files: &Vec<FileRecord>) -> (r: Result<Vec<String>, TreeError>)
    ensures
        ({
            let oc = tree_outcome(files.deep_view());
            match r {
                Ok(lines) => oc == TreeOutcome::Lines(lines.deep_view()),
                Err(TreeError::MultipleParents) => oc == TreeOutcome::MultipleParents,
                Err(TreeError::Guarded) => oc == TreeOutcome::Guarded,
            }
        }),
{
    let ghost all = files.deep_view();
    let mut j: usize = 0;
    while j < files.len()
        invariant
            j <= files.len(),
            all == files.deep_view(),
            forall|t: int| 0 <= t < j ==> (#[trigger] all[t]).parents.len() <= 1,
        decreases files.len() - j,
    {
        if files[j].parents.len() > 1 {
            proof {
                assert(all[j as int].parents.len() > 1);
            }
            return Err(TreeError::MultipleParents);
        }
        j += 1;
    }
    proof {
        assert(!has_multiple_parents(all)) by {
            if has_multiple_parents(all) {
                let w = choose|w: int| 0 <= w < all.len() && (#[trigger] all[w]).parents.len() > 1;
                assert(all[w].parents.len() <= 1);
            }
        }
    }
    let fuel: u128 = files.len() as u128 + 1;
    proof {
        assert(fuel as nat == all.len() + 1);
    }

    // The parentless roots, in crawl order.
    let mut roots: Vec<usize> = Vec::new();
    let mut j: usize = 0;
    proof {
        assert(roots@.map_values(|u: usize| u as int) =~= parentless_positions_upto(all, 0));
    }
    while j < files.len()
        invariant
            j <= files.len(),
            all == files.deep_view(),
            roots@.map_values(|u: usize| u as int) == parentless_positions_upto(all, j as int),
            forall|t: int| 0 <= t < roots.len() ==> #[trigger] roots[t] < j,
        decreases files.len() - j,
    {
        let ghost prevm = roots@.map_values(|u: usize| u as int);
        if files[j].parents.len() == 0 {
            roots.push(j);
            proof {
                assert(all[j as int].parents.len() == 0);
                assert(roots@.map_values(|u: usize| u as int) =~= prevm.push(j as int));
                assert(parentless_positions_upto(all, j + 1) =~= prevm + seq![j as int]);
                assert(prevm.push(j as int) =~= prevm + seq![j as int]);
            }
        } else {
            proof {
                assert(all[j as int].parents.len() != 0);
                assert(parentless_positions_upto(all, j + 1) =~= prevm);
            }
        }
        j += 1;
    }
    let ghost pl = parentless_positions(all);
    proof {
        assert(roots@.map_values(|u: usize| u as int) == pl);
        assert(pl.skip(0) =~= pl);
    }

    let mut out: Vec<String> = Vec::new();
    proof {
        assert(out.deep_view() =~= Seq::<Seq<char>>::empty());
        let sr = dfs_record_roots(all, pl, fuel as nat);
        if sr is Some {
            assert(Seq::<Seq<char>>::empty() + sr.unwrap() =~= sr.unwrap());
        }
    }
    let mut k: usize = 0;
    while k < roots.len()
        invariant
            k <= roots.len(),
            all == files.deep_view(),
            !has_multiple_parents(all),
            fuel as nat == all.len() + 1,
            pl == parentless_positions(all),
            roots@.map_values(|u: usize| u as int) == pl,
            forall|t: int| 0 <= t < roots.len() ==> #[trigger] roots[t] < files.len(),
            ({
                let sr = dfs_record_roots(all, pl.skip(k as int), fuel as nat);
                &&& (sr is Some ==> dfs_record_roots(all, pl, fuel as nat) == Some(
                    out.deep_view() + sr.unwrap(),
                ))
                &&& (sr is None ==> dfs_record_roots(all, pl, fuel as nat) is None)
            }),
        decreases roots.len() - k,
    {
        let root = roots[k];
        proof {
            assert(roots@.map_values(|u: usize| u as int)[k as int] == root as int);
            assert(pl[k as int] == root as int);
            assert(pl.skip(k as int)[0] == pl[k as int]);
            assert(pl.skip(k as int).skip(1) =~= pl.skip(k as int + 1));
        }
        let ghost out_before = out.deep_view();
        let rr = dfs_record(files, root, 0, fuel, &mut out);
        match rr {
            Err(_) => {
                proof {
                    assert(dfs_node(all, TreeNode::Rec(root as int), 0, fuel as nat) is None);
                    assert(dfs_record_roots(all, pl.skip(k as int), fuel as nat) is None);
                }
                return Err(TreeError::Guarded);
            }
            Ok(_) => {
                proof {
                    let head = dfs_node(all, TreeNode::Rec(root as int), 0, fuel as nat).unwrap();
                    let tail = dfs_record_roots(all, pl.skip(k as int + 1), fuel as nat);
                    assert(out.deep_view() =~= out_before + head.0);
                    if tail is Some {
                        assert(dfs_record_roots(all, pl.skip(k as int), fuel as nat) == Some(
                            head.0 + tail.unwrap(),
                        ));
                        assert(out_before + (head.0 + tail.unwrap()) =~= out.deep_view()
                            + tail.unwrap());
                    } else {
                        assert(dfs_record_roots(all, pl.skip(k as int), fuel as nat) is None);
                    }
                }
            }
        }
        k += 1;
    }
    let ghost rec_lines = out.deep_view();
    proof {
        assert(pl.skip(roots.len() as int) =~= Seq::<int>::empty());
        assert(dfs_record_roots(all, pl.skip(roots.len() as int), fuel as nat) == Some(
            Seq::<Seq<char>>::empty(),
        ));
        assert(dfs_record_roots(all, pl, fuel as nat) == Some(
            rec_lines + Seq::<Seq<char>>::empty(),
        ));
        assert(rec_lines + Seq::<Seq<char>>::empty() =~= rec_lines);
    }

    // The uncrawled parent ids, in order of first reference.
    let mut missing: Vec<String> = Vec::new();
    let mut j: usize = 0;
    proof {
        assert(missing.deep_view() =~= missing_parent_ids_upto(all, 0));
    }
    while j < files.len()
        invariant
            j <= files.len(),
            all == files.deep_view(),
            missing.deep_view() == missing_parent_ids_upto(all, j as int),
        decreases files.len() - j,
    {
        let f = &files[j];
        let ghost prevm = missing.deep_view();
        proof {
            assert(all[j as int].parents =~= f.parents.deep_view());
        }
        if f.parents.len() == 1 {
            let pid = &f.parents[0];
            proof {
                assert(all[j as int].parents[0] == pid@);
            }
            if !contains_id(files, pid) && !contains_string(&missing, pid) {
                missing.push(pid.clone());
                proof {
                    assert(missing.deep_view() =~= prevm.push(pid@));
                    assert(missing_parent_ids_upto(all, j + 1) =~= prevm + seq![pid@]);
                    assert(prevm.push(pid@) =~= prevm + seq![pid@]);
                }
            } else {
                proof {
                    assert(missing_parent_ids_upto(all, j + 1) =~= prevm);
                }
            }
        } else {
            proof {
                assert(missing_parent_ids_upto(all, j + 1) =~= prevm);
            }
        }
        j += 1;
    }
    let ghost mi = missing_parent_ids(all);
    proof {
        assert(missing.deep_view() == mi);
        assert(mi.skip(0) =~= mi);
        let sr = dfs_missing_roots(all, mi, fuel as nat);
        if sr is Some {
            assert(Seq::<Seq<char>>::empty() + sr.unwrap() =~= sr.unwrap());
        }
        assert(out.deep_view().skip(rec_lines.len() as int) =~= Seq::<Seq<char>>::empty());
    }

    let mut k: usize = 0;
    while k < missing.len()
        invariant
            k <= missing.len(),
            all == files.deep_view(),
            !has_multiple_parents(all),
            fuel as nat == all.len() + 1,
            mi == missing_parent_ids(all),
            missing.deep_view() == mi,
            out.deep_view().len() >= rec_lines.len(),
            out.deep_view().take(rec_lines.len() as int) == rec_lines,
            ({
                let sr = dfs_missing_roots(all, mi.skip(k as int), fuel as nat);
                &&& (sr is Some ==> dfs_missing_roots(all, mi, fuel as nat) == Some(
                    out.deep_view().skip(rec_lines.len() as int) + sr.unwrap(),
                ))
                &&& (sr is None ==> dfs_missing_roots(all, mi, fuel as nat) is None)
            }),
        decreases missing.len() - k,
    {
        proof {
            assert(mi[k as int] == missing.deep_view()[k as int]);
            assert(mi.skip(k as int)[0] == mi[k as int]);
            assert(mi.skip(k as int).skip(1) =~= mi.skip(k as int + 1));
        }
        let ghost out_before = out.deep_view();
        let rr = dfs_missing(files, &missing[k], fuel, &mut out);
        match rr {
            Err(_) => {
                proof {
                    assert(dfs_node(all, TreeNode::Missing(mi[k as int]), 0, fuel as nat) is None);
                    assert(dfs_missing_roots(all, mi.skip(k as int), fuel as nat) is None);
                }
                return Err(TreeError::Guarded);
            }
            Ok(_) => {
                proof {
                    let head = dfs_node(all, TreeNode::Missing(mi[k as int]), 0, fuel as nat)
                        .unwrap();
                    let tail = dfs_missing_roots(all, mi.skip(k as int + 1), fuel as nat);
                    assert(out.deep_view() =~= out_before + head.0);
                    assert(out.deep_view().skip(rec_lines.len() as int) =~= out_before.skip(
                        rec_lines.len() as int,
                    ) + head.0);
                    if tail is Some {
                        assert(dfs_missing_roots(all, mi.skip(k as int), fuel as nat) == Some(
                            head.0 + tail.unwrap(),
                        ));
                        assert(out_before.skip(rec_lines.len() as int) + (head.0 + tail.unwrap())
                            =~= out.deep_view().skip(rec_lines.len() as int) + tail.unwrap());
                    } else {
                        assert(dfs_missing_roots(all, mi.skip(k as int), fuel as nat) is None);
                    }
                    assert(out.deep_view().take(rec_lines.len() as int) =~= rec_lines);
                }
            }
        }
        k += 1;
    }
    proof {
        assert(mi.skip(missing.len() as int) =~= Seq::<Seq<char>>::empty());
        assert(dfs_missing_roots(all, mi.skip(missing.len() as int), fuel as nat) == Some(
            Seq::<Seq<char>>::empty(),
        ));
        let tail_lines = out.deep_view().skip(rec_lines.len() as int);
        assert(dfs_missing_roots(all, mi, fuel as nat) == Some(
            tail_lines + Seq::<Seq<char>>::empty(),
        ));
        assert(tail_lines + Seq::<Seq<char>>::empty() =~= tail_lines);
        assert(rec_lines + tail_lines =~= out.deep_view());
    }
    Ok(out)
}

} // verus!
