//! What holds of paths: their extensions, their order, and their places in an output folder.
use vstd::prelude::*;
use vstd::utf8::{decode_utf8, valid_utf8};
use crate::scrub::is_supported_extension;
use crate::scrub::files::{
    folder_gives_its_supported_files, is_collected, lies_below, lies_directly_in,
    lists_no_path_twice, unsupported_text, Root,
};
use crate::scrub::path::{
    last_dot, name_before, names_to_skip, path_before, path_extension, path_order_is_total,
};

verus! {

/// The extension of a file is what follows the last dot of its name, unless nothing comes before
/// that dot, or the name has none.
pub proof fn extensions_follow_the_last_dot(folder: Seq<Seq<u8>>, stem: Seq<u8>, ext: Seq<u8>)
    requires
        forall|i: int| 0 <= i < ext.len() ==> ext[i] != 0x2E,
    ensures
        ({
            let named = path_extension(folder.push(stem + seq![0x2Eu8] + ext));
            &&& stem.len() > 0 && stem + seq![0x2Eu8] + ext != seq![0x2Eu8, 0x2E] ==> named == if
            valid_utf8(ext) {
                Some(decode_utf8(ext))
            } else {
                None
            }
            &&& stem.len() == 0 ==> named is None
            &&& path_extension(folder.push(ext)) is None
        }),
{
    let name = stem + seq![0x2Eu8] + ext;
    lemma_last_dot(stem, ext);
    lemma_no_dot(ext);
    assert(folder.push(name).last() == name);
    assert(folder.push(ext).last() == ext);
    assert(name.skip(stem.len() + 1int) =~= ext);
}

proof fn lemma_no_dot(name: Seq<u8>)
    requires
        forall|i: int| 0 <= i < name.len() ==> name[i] != 0x2E,
    ensures
        last_dot(name) == -1,
    decreases name.len(),
{
    if name.len() > 0 {
        lemma_no_dot(name.drop_last());
    }
}

proof fn lemma_last_dot(stem: Seq<u8>, ext: Seq<u8>)
    requires
        forall|i: int| 0 <= i < ext.len() ==> ext[i] != 0x2E,
    ensures
        last_dot(stem + seq![0x2Eu8] + ext) == stem.len(),
    decreases ext.len(),
{
    let name = stem + seq![0x2Eu8] + ext;
    if ext.len() > 0 {
        assert(name.last() == ext.last());
        assert(name.drop_last() =~= stem + seq![0x2Eu8] + ext.drop_last());
        lemma_last_dot(stem, ext.drop_last());
    } else {
        assert(name.last() == 0x2E);
    }
}

/// Names are ordered by the first byte in which they differ, and a name comes before all that it
/// begins.
pub proof fn names_are_ordered_by_their_first_difference(
    common: Seq<u8>,
    x: u8,
    a: Seq<u8>,
    y: u8,
    b: Seq<u8>,
)
    requires
        x != y,
    ensures
        name_before(common + seq![x] + a, common + seq![y] + b) <==> x < y,
        name_before(common, common + seq![x] + a),
    decreases common.len(),
{
    let p = common + seq![x] + a;
    let q = common + seq![y] + b;
    if common.len() > 0 {
        let rest = common.skip(1);
        names_are_ordered_by_their_first_difference(rest, x, a, y, b);
        assert(p.skip(1) =~= rest + seq![x] + a);
        assert(q.skip(1) =~= rest + seq![y] + b);
        assert(p[0] == common[0] && q[0] == common[0]);
    } else {
        assert(p[0] == x && q[0] == y);
    }
}

/// Paths are ordered by the first name in which they differ, and a folder comes before all that is
/// in it.
pub proof fn paths_are_ordered_by_their_first_difference(
    common: Seq<Seq<u8>>,
    x: Seq<u8>,
    a: Seq<Seq<u8>>,
    y: Seq<u8>,
    b: Seq<Seq<u8>>,
)
    requires
        x != y,
    ensures
        path_before(common + seq![x] + a, common + seq![y] + b) <==> name_before(x, y),
        path_before(common, common + seq![x] + a),
    decreases common.len(),
{
    let p = common + seq![x] + a;
    let q = common + seq![y] + b;
    if common.len() > 0 {
        let rest = common.skip(1);
        paths_are_ordered_by_their_first_difference(rest, x, a, y, b);
        assert(p.skip(1) =~= rest + seq![x] + a);
        assert(q.skip(1) =~= rest + seq![y] + b);
        assert(p[0] == common[0] && q[0] == common[0]);
    } else {
        assert(p[0] == x && q[0] == y);
    }
}

/// A file below the root has the same place below an output folder. The root itself, if it is a
/// file, stands directly in it, and a path that is not under the root is placed as it is.
pub proof fn files_keep_their_place_below_the_root(
    root: Seq<Seq<u8>>,
    below: Seq<Seq<u8>>,
    other: Seq<Seq<u8>>,
)
    ensures
        below.len() > 0 ==> (root + below).skip(names_to_skip(root, root + below)) == below,
        root.len() > 0 ==> root.skip(names_to_skip(root, root)) == seq![root.last()],
        !root.is_prefix_of(other) ==> other.skip(names_to_skip(root, other)) == other,
{
    let path = root + below;
    assert(root =~= path.subrange(0, root.len() as int));
    assert(path.skip(root.len() as int) =~= below);
    assert(root =~= root.subrange(0, root.len() as int));
    if root.len() > 0 {
        assert(root.skip(root.len() - 1) =~= seq![root.last()]);
    }
    assert(other.skip(0) =~= other);
}

/// A job on one file takes in that file if it can be scrubbed by its name, and else none, with a
/// reason that gives its extension.
pub proof fn a_file_is_taken_in_by_its_extension(
    root: Root,
    recursive: bool,
    r: Result<Vec<usize>, String>,
)
    requires
        is_collected(root, recursive, r),
        root is File,
    ensures
        is_supported_extension(root->File_0.ext()) ==> (r matches Ok(files) && files@
            == seq![0usize]),
        !is_supported_extension(root->File_0.ext()) ==> r is Err,
        !is_supported_extension(root->File_0.ext()) && root->File_0.ext() is Some ==> {
            let ext = root->File_0.ext()->0;
            let text = r->Err_0@;
            &&& 23 + ext.len() < text.len()
            &&& text[22] == '.'
            &&& text.subrange(23, 23int + ext.len()) == ext
            &&& text[23int + ext.len()] == ' '
        },
{
    reveal_strlit("unsupported file type ");
    reveal_strlit(".");
    reveal_strlit(" (supported: jpg, jpeg, png, webp, mp4, m4v, mov, avi)");
    if let Some(ext) = root->File_0.ext() {
        let text = unsupported_text(Some(ext));
        assert(text.subrange(23, 23int + ext.len()) =~= ext);
    }
}

/// A job on a folder takes in the supported files directly in it, with `recursive` those at any
/// depth below it, each once, and each before all whose paths come after its own.
pub proof fn a_folder_is_taken_in_by_its_files(
    root: Root,
    recursive: bool,
    r: Result<Vec<usize>, String>,
)
    requires
        is_collected(root, recursive, r),
        root matches Root::Folder { path, entries } && {
            &&& entries@.len() <= usize::MAX
            &&& lists_no_path_twice(entries@)
            &&& forall|i: int|
                0 <= i < entries@.len() && (#[trigger] entries@[i]).is_file ==> lies_below(
                    path.names(),
                    entries@[i].path.names(),
                )
        },
    ensures
        r is Ok,
        root matches Root::Folder { path, entries } && {
            let files = r->Ok_0@;
            &&& files.no_duplicates()
            &&& forall|i: int, j: int|
                0 <= i < j < files.len() ==> path_before(
                    entries@[#[trigger] files[i] as int].path.names(),
                    entries@[#[trigger] files[j] as int].path.names(),
                )
            &&& forall|i: usize|
                i < entries@.len() ==> (#[trigger] files.contains(i) <==> {
                    let entry = entries@[i as int];
                    &&& entry.is_file
                    &&& is_supported_extension(entry.path.ext())
                    &&& recursive || lies_directly_in(path.names(), entry.path.names())
                })
        },
{
    match root {
        Root::Folder { path, entries } => {
            let files = r->Ok_0@;
            folder_gives_its_supported_files(path.names(), recursive, entries@, files);
            assert forall|i: int, j: int| 0 <= i < j < files.len() implies files[i]
                != files[j] by {
                let a = entries@[files[i] as int].path.names();
                path_order_is_total(a, a);
            }
        },
        _ => {},
    }
}

} // verus!
