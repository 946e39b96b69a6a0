//! Which files a job takes in, and in what order.
use vstd::prelude::*;
use vstd::string::StringExecFns;
use crate::scrub::path::{path_before, path_order_is_total, path_order_is_transitive, FilePath};
use crate::scrub::{is_supported, is_supported_extension};

verus! {

/// What was found at a place below the root of a job.
#[derive(Debug)]
pub struct Entry {
    pub path: FilePath,
    pub is_file: bool,
}

/// What was found at the root of a job.
#[derive(Debug)]
pub enum Root {
    /// A file.
    File(FilePath),
    /// Anything else, with what was found below it.
    Folder { path: FilePath, entries: Vec<Entry> },
}

/// Whether a job at `root` gets as deep as `path`: without `recursive` it stays at what lies
/// directly in the root.
pub open spec fn is_in_reach(root: Seq<Seq<u8>>, recursive: bool, path: Seq<Seq<u8>>) -> bool {
    recursive || path.len() <= root.len() + 1
}

/// Whether a job at `root` takes in this entry.
pub open spec fn is_taken(root: Seq<Seq<u8>>, recursive: bool, entry: Entry) -> bool {
    &&& entry.is_file
    &&& is_supported_extension(entry.path.ext())
    &&& is_in_reach(root, recursive, entry.path.names())
}

/// The indices of the entries that a job at `root` takes in.
pub open spec fn taken(root: Seq<Seq<u8>>, recursive: bool, entries: Seq<Entry>) -> Seq<usize>
    decreases entries.len(),
{
    if entries.len() == 0 {
        Seq::empty()
    } else {
        let before = taken(root, recursive, entries.drop_last());
        if is_taken(root, recursive, entries.last()) {
            before.push((entries.len() - 1) as usize)
        } else {
            before
        }
    }
}

/// That the entries with these indices stand in the order of their paths.
pub open spec fn in_path_order(entries: Seq<Entry>, order: Seq<usize>) -> bool {
    forall|i: int, j: int|
        0 <= i < j < order.len() ==> !path_before(
            entries[#[trigger] order[j] as int].path.names(),
            entries[#[trigger] order[i] as int].path.names(),
        )
}

/// What is said of a file that cannot be scrubbed.
pub open spec fn unsupported_text(ext: Option<Seq<char>>) -> Seq<char> {
    let shown = match ext {
        Some(e) => "."@ + e,
        None => "<none>"@,
    };
    "unsupported file type "@ + shown
        + " (supported: jpg, jpeg, png, webp, mp4, m4v, mov, avi)"@
}

fn unsupported_message(path: &FilePath) -> (s: String)
    ensures
        s@ == unsupported_text(path.ext()),
{
    let mut s = "unsupported file type ".to_owned();
    match path.extension() {
        Some(e) => {
            s.append(".");
            s.append(e.as_str());
        },
        None => {
            s.append("<none>");
        },
    }
    s.append(" (supported: jpg, jpeg, png, webp, mp4, m4v, mov, avi)");
    assert(s@ =~= unsupported_text(path.ext()));
    s
}

proof fn lemma_taken_bound(root: Seq<Seq<u8>>, recursive: bool, entries: Seq<Entry>)
    requires
        entries.len() <= usize::MAX,
    ensures
        ({
            let all = taken(root, recursive, entries);
            &&& forall|k: int| 0 <= k < all.len() ==> all[k] < entries.len()
            &&& forall|k: int|
                0 <= k < all.len() ==> is_taken(
                    root,
                    recursive,
                    entries[#[trigger] all[k] as int],
                )
            &&& forall|i: int, j: int| 0 <= i < j < all.len() ==> all[i] < all[j]
        }),
    decreases entries.len(),
{
    if entries.len() > 0 {
        let entries1 = entries.drop_last();
        let all = taken(root, recursive, entries);
        let before = taken(root, recursive, entries1);
        lemma_taken_bound(root, recursive, entries1);
        assert forall|k: int| 0 <= k < all.len() implies is_taken(
            root,
            recursive,
            entries[#[trigger] all[k] as int],
        ) by {
            if k < before.len() {
                assert(all[k] == before[k]);
                assert(entries1[before[k] as int] == entries[before[k] as int]);
            }
        }
    }
}

/// Two runs in path order as one.
fn merge(entries: &Vec<Entry>, a: &Vec<usize>, b: &Vec<usize>) -> (r: Vec<usize>)
    requires
        forall|k: int| 0 <= k < a.len() ==> a[k] < entries.len(),
        forall|k: int| 0 <= k < b.len() ==> b[k] < entries.len(),
        in_path_order(entries@, a@),
        in_path_order(entries@, b@),
    ensures
        in_path_order(entries@, r@),
        r@.to_multiset() == a@.to_multiset().add(b@.to_multiset()),
{
    broadcast use vstd::seq_lib::group_to_multiset_ensures;

    let mut r: Vec<usize> = Vec::new();
    let mut i: usize = 0;
    let mut j: usize = 0;
    let ghost es = entries@;
    assert(a@.take(0) =~= Seq::<usize>::empty());
    assert(b@.take(0) =~= Seq::<usize>::empty());
    while i < a.len() || j < b.len()
        invariant
            es == entries@,
            i <= a.len(),
            j <= b.len(),
            forall|k: int| 0 <= k < a.len() ==> a[k] < entries.len(),
            forall|k: int| 0 <= k < b.len() ==> b[k] < entries.len(),
            in_path_order(es, a@),
            in_path_order(es, b@),
            in_path_order(es, r@),
            r@.to_multiset() == a@.take(i as int).to_multiset().add(
                b@.take(j as int).to_multiset(),
            ),
            forall|k: int, m: int|
                0 <= k < r.len() && i <= m < a.len() ==> !path_before(
                    es[#[trigger] a@[m] as int].path.names(),
                    es[#[trigger] r@[k] as int].path.names(),
                ),
            forall|k: int, m: int|
                0 <= k < r.len() && j <= m < b.len() ==> !path_before(
                    es[#[trigger] b@[m] as int].path.names(),
                    es[#[trigger] r@[k] as int].path.names(),
                ),
        decreases a.len() - i + b.len() - j,
    {
        let from_b = if i == a.len() {
            true
        } else if j == b.len() {
            false
        } else {
            entries[b[j]].path.is_before(&entries[a[i]].path)
        };
        let next = if from_b {
            b[j]
        } else {
            a[i]
        };
        proof {
            let n = es[next as int].path.names();
            assert forall|m: int| i <= m < a.len() implies !path_before(
                es[#[trigger] a@[m] as int].path.names(),
                n,
            ) by {
                let am = es[a@[m] as int].path.names();
                let ai = es[a@[i as int] as int].path.names();
                path_order_is_total(am, ai);
                path_order_is_total(ai, n);
                path_order_is_total(am, n);
                if path_before(am, n) {
                    if from_b {
                        path_order_is_transitive(am, n, ai);
                    }
                }
            }
            assert forall|m: int| j <= m < b.len() implies !path_before(
                es[#[trigger] b@[m] as int].path.names(),
                n,
            ) by {
                let bm = es[b@[m] as int].path.names();
                let bj = es[b@[j as int] as int].path.names();
                path_order_is_total(bm, bj);
                path_order_is_total(bj, n);
                path_order_is_total(bm, n);
                if path_before(bm, n) {
                    if !from_b {
                        if bm == bj {
                        } else {
                            path_order_is_transitive(bj, bm, n);
                        }
                    }
                }
            }
        }
        proof {
            let taken_a = a@.take(i as int);
            let taken_b = b@.take(j as int);
            vstd::seq_lib::to_multiset_build(r@, next);
            if from_b {
                vstd::seq_lib::to_multiset_build(taken_b, next);
                assert(b@.take(j + 1) =~= taken_b.push(next));
                assert(r@.to_multiset().insert(next) =~= taken_a.to_multiset().add(
                    taken_b.to_multiset().insert(next),
                ));
            } else {
                vstd::seq_lib::to_multiset_build(taken_a, next);
                assert(a@.take(i + 1) =~= taken_a.push(next));
                assert(r@.to_multiset().insert(next) =~= taken_a.to_multiset().insert(next).add(
                    taken_b.to_multiset(),
                ));
            }
        }
        r.push(next);
        if from_b {
            j = j + 1;
        } else {
            i = i + 1;
        }
    }
    assert(a@.take(i as int) =~= a@);
    assert(b@.take(j as int) =~= b@);
    r
}

/// The entries with these indices in the order of their paths.
fn sort(entries: &Vec<Entry>, order: &Vec<usize>, from: usize, to: usize) -> (r: Vec<usize>)
    requires
        from <= to <= order.len(),
        forall|k: int| 0 <= k < order.len() ==> order[k] < entries.len(),
    ensures
        in_path_order(entries@, r@),
        r@.to_multiset() == order@.subrange(from as int, to as int).to_multiset(),
    decreases to - from,
{
    broadcast use vstd::seq_lib::group_to_multiset_ensures;

    if to - from <= 1 {
        let mut r: Vec<usize> = Vec::new();
        if from < to {
            r.push(order[from]);
        }
        assert(r@ =~= order@.subrange(from as int, to as int));
        return r;
    }
    let middle = from + (to - from) / 2;
    let a = sort(entries, order, from, middle);
    let b = sort(entries, order, middle, to);
    proof {
        let left = order@.subrange(from as int, middle as int);
        let right = order@.subrange(middle as int, to as int);
        assert(order@.subrange(from as int, to as int) =~= left + right);
        vstd::seq_lib::lemma_multiset_commutative(left, right);
        lemma_bound_from_multiset(a@, left, entries.len() as int);
        lemma_bound_from_multiset(b@, right, entries.len() as int);
    }
    merge(entries, &a, &b)
}

proof fn lemma_bound_from_multiset(a: Seq<usize>, b: Seq<usize>, n: int)
    requires
        a.to_multiset() == b.to_multiset(),
        forall|k: int| 0 <= k < b.len() ==> b[k] < n,
    ensures
        forall|k: int| 0 <= k < a.len() ==> a[k] < n,
{
    broadcast use vstd::seq_lib::group_to_multiset_ensures;

    assert forall|k: int| 0 <= k < a.len() implies a[k] < n by {
        assert(a.contains(a[k]));
        assert(a.to_multiset().count(a[k]) > 0);
        assert(b.contains(a[k]));
    }
}

/// That `r` gives the files that a job takes in: the root itself if that is a file, or the
/// supported files directly in it, with `recursive` at any depth below it, in the order of their
/// paths. Each is given by its index; the root is the first of one.
pub open spec fn is_collected(root: Root, recursive: bool, r: Result<Vec<usize>, String>) -> bool {
    match root {
        Root::File(path) => if is_supported_extension(path.ext()) {
            r matches Ok(files) && files@ == seq![0usize]
        } else {
            r matches Err(message) && message@ == unsupported_text(path.ext())
        },
        Root::Folder { path, entries } => {
            &&& r matches Ok(files)
            &&& files@.to_multiset() == taken(path.names(), recursive, entries@).to_multiset()
            &&& in_path_order(entries@, files@)
        },
    }
}

/// The files that a job takes in.
pub fn collect_files(root: &Root, recursive: bool) -> (r: Result<Vec<usize>, String>)
    ensures
        is_collected(*root, recursive, r),
{
    match root {
        Root::File(path) => {
            if is_supported(path) {
                let mut files: Vec<usize> = Vec::new();
                files.push(0);
                assert(files@ =~= seq![0usize]);
                Ok(files)
            } else {
                Err(unsupported_message(path))
            }
        },
        Root::Folder { path, entries } => {
            let mut order: Vec<usize> = Vec::new();
            let mut i: usize = 0;
            let ghost names = path.names();
            assert(entries@.take(0) =~= Seq::<Entry>::empty());
            while i < entries.len()
                invariant
                    i <= entries.len(),
                    names == path.names(),
                    order@ == taken(names, recursive, entries@.take(i as int)),
                decreases entries.len() - i,
            {
                assert(entries@.take(i + 1).drop_last() =~= entries@.take(i as int));
                let depth = entries[i].path.components.len();
                let near = depth == 0 || depth - 1 <= path.components.len();
                if entries[i].is_file && (recursive || near) && is_supported(&entries[i].path) {
                    order.push(i);
                }
                i = i + 1;
            }
            assert(entries@.take(i as int) =~= entries@);
            proof {
                lemma_taken_bound(names, recursive, entries@);
            }
            let files = sort(entries, &order, 0, order.len());
            assert(order@.subrange(0, order@.len() as int) =~= order@);
            Ok(files)
        },
    }
}

/// A job takes in each supported file in its reach once, and nothing else.
pub proof fn each_supported_file_is_taken_once(
    root: Seq<Seq<u8>>,
    recursive: bool,
    entries: Seq<Entry>,
    files: Seq<usize>,
)
    requires
        entries.len() <= usize::MAX,
        files.to_multiset() == taken(root, recursive, entries).to_multiset(),
    ensures
        files.no_duplicates(),
        forall|k: int|
            0 <= k < files.len() ==> (#[trigger] files[k]) < entries.len() && is_taken(
                root,
                recursive,
                entries[files[k] as int],
            ),
        forall|i: usize|
            i < entries.len() && #[trigger] is_taken(root, recursive, entries[i as int])
                ==> files.contains(i),
{
    broadcast use vstd::seq_lib::group_to_multiset_ensures;

    let all = taken(root, recursive, entries);
    lemma_taken_bound(root, recursive, entries);
    assert(all.no_duplicates());
    all.lemma_multiset_has_no_duplicates();
    assert forall|x: usize| files.to_multiset().contains(x) implies files.to_multiset().count(x)
        == 1 by {}
    files.lemma_multiset_has_no_duplicates_conv();
    assert forall|k: int| 0 <= k < files.len() implies (#[trigger] files[k]) < entries.len()
        && is_taken(root, recursive, entries[files[k] as int]) by {
        assert(files.contains(files[k]));
        assert(files.to_multiset().count(files[k]) > 0);
        assert(all.contains(files[k]));
        let m = choose|m: int| 0 <= m < all.len() && all[m] == files[k];
        assert(is_taken(root, recursive, entries[all[m] as int]));
    }
    assert forall|i: usize|
        i < entries.len() && #[trigger] is_taken(
            root,
            recursive,
            entries[i as int],
        ) implies files.contains(i) by {
        lemma_taken_contains(root, recursive, entries, i);
        assert(all.to_multiset().count(i) > 0);
    }
}

proof fn lemma_taken_contains(
    root: Seq<Seq<u8>>,
    recursive: bool,
    entries: Seq<Entry>,
    i: usize,
)
    requires
        entries.len() <= usize::MAX,
        i < entries.len(),
        is_taken(root, recursive, entries[i as int]),
    ensures
        taken(root, recursive, entries).contains(i),
    decreases entries.len(),
{
    let entries1 = entries.drop_last();
    let all = taken(root, recursive, entries);
    if i == entries.len() - 1 {
        assert(all[all.len() - 1] == i);
    } else {
        lemma_taken_contains(root, recursive, entries1, i);
        let before = taken(root, recursive, entries1);
        let m = choose|m: int| 0 <= m < before.len() && before[m] == i;
        assert(all[m] == i);
    }
}

/// Whether `path` lies below `root`, at any depth.
pub open spec fn lies_below(root: Seq<Seq<u8>>, path: Seq<Seq<u8>>) -> bool {
    root.is_prefix_of(path) && root.len() < path.len()
}

/// Whether `path` lies directly in `root`.
pub open spec fn lies_directly_in(root: Seq<Seq<u8>>, path: Seq<Seq<u8>>) -> bool {
    root.is_prefix_of(path) && path.len() == root.len() + 1
}

/// That no two of `entries` have the same path.
pub open spec fn lists_no_path_twice(entries: Seq<Entry>) -> bool {
    forall|i: int, j: int|
        0 <= i < j < entries.len() ==> (#[trigger] entries[i]).path.names() != (
        #[trigger] entries[j]).path.names()
}

/// What a folder gives: exactly its supported files, those directly in it, or with `recursive`
/// those at any depth below it, in strictly ascending order of their paths. A folder lists no path
/// twice, and what it lists lies below it.
pub proof fn folder_gives_its_supported_files(
    root: Seq<Seq<u8>>,
    recursive: bool,
    entries: Seq<Entry>,
    files: Seq<usize>,
)
    requires
        entries.len() <= usize::MAX,
        lists_no_path_twice(entries),
        forall|i: int|
            0 <= i < entries.len() && (#[trigger] entries[i]).is_file ==> lies_below(
                root,
                entries[i].path.names(),
            ),
        files.to_multiset() == taken(root, recursive, entries).to_multiset(),
        in_path_order(entries, files),
    ensures
        forall|i: int, j: int|
            0 <= i < j < files.len() ==> path_before(
                entries[#[trigger] files[i] as int].path.names(),
                entries[#[trigger] files[j] as int].path.names(),
            ),
        forall|i: usize|
            i < entries.len() ==> (#[trigger] files.contains(i) <==> {
                let entry = entries[i as int];
                &&& entry.is_file
                &&& is_supported_extension(entry.path.ext())
                &&& recursive || lies_directly_in(root, entry.path.names())
            }),
{
    each_supported_file_is_taken_once(root, recursive, entries, files);
    assert forall|i: int, j: int| 0 <= i < j < files.len() implies path_before(
        entries[#[trigger] files[i] as int].path.names(),
        entries[#[trigger] files[j] as int].path.names(),
    ) by {
        let a = files[i];
        let b = files[j];
        assert(a != b);
        assert(entries[a as int].path.names() != entries[b as int].path.names());
        path_order_is_total(entries[a as int].path.names(), entries[b as int].path.names());
    }
    assert forall|i: usize| i < entries.len() implies (#[trigger] files.contains(i) <==> {
        let entry = entries[i as int];
        &&& entry.is_file
        &&& is_supported_extension(entry.path.ext())
        &&& recursive || lies_directly_in(root, entry.path.names())
    }) by {
        let entry = entries[i as int];
        if files.contains(i) {
            let k = choose|k: int| 0 <= k < files.len() && files[k] == i;
            assert(is_taken(root, recursive, entries[files[k] as int]));
        }
        if entry.is_file {
            assert(lies_below(root, entry.path.names()));
        }
        assert(is_taken(root, recursive, entry) ==> files.contains(i));
    }
}

/// What a job takes in without `recursive` it takes in with it.
pub proof fn recursive_job_takes_in_more(
    root: Seq<Seq<u8>>,
    entries: Seq<Entry>,
    near: Seq<usize>,
    all: Seq<usize>,
    i: usize,
)
    requires
        entries.len() <= usize::MAX,
        near.to_multiset() == taken(root, false, entries).to_multiset(),
        all.to_multiset() == taken(root, true, entries).to_multiset(),
        near.contains(i),
    ensures
        all.contains(i),
{
    each_supported_file_is_taken_once(root, false, entries, near);
    each_supported_file_is_taken_once(root, true, entries, all);
    let k = choose|k: int| 0 <= k < near.len() && near[k] == i;
    assert(is_taken(root, false, entries[near[k] as int]));
    assert(is_taken(root, true, entries[i as int]));
}

} // verus!
