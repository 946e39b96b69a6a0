//! Paths: what of a path the decisions here depend on, and the order of paths.
use vstd::prelude::*;
use vstd::slice::slice_subrange;
use vstd::utf8::{decode_utf8, valid_utf8};
use crate::text::as_text;

verus! {

/// A path in plain values.
#[derive(Debug)]
pub struct FilePath {
    /// The names that the path is made of, from the outermost folder in.
    pub components: Vec<Vec<u8>>,
}

/// "."
pub const DOT: u8 = 0x2E;

/// Where the last dot of `name` stands, or -1.
pub open spec fn last_dot(name: Seq<u8>) -> int
    decreases name.len(),
{
    if name.len() == 0 {
        -1
    } else if name.last() == DOT {
        name.len() - 1
    } else {
        last_dot(name.drop_last())
    }
}

/// What follows the last dot of `name`. There is nothing for a name without a dot, for one whose
/// only dot comes first, and for "..", which names a folder.
pub open spec fn name_extension(name: Seq<u8>) -> Option<Seq<u8>> {
    if last_dot(name) <= 0 || name == seq![DOT, DOT] {
        None
    } else {
        Some(name.skip(last_dot(name) + 1))
    }
}

/// The extension of a path: that of its last name, if it is text.
pub open spec fn path_extension(path: Seq<Seq<u8>>) -> Option<Seq<char>> {
    if path.len() == 0 {
        None
    } else {
        match name_extension(path.last()) {
            Some(ext) if valid_utf8(ext) => Some(decode_utf8(ext)),
            _ => None,
        }
    }
}

impl FilePath {
    /// The names that the path is made of.
    pub open spec fn names(self) -> Seq<Seq<u8>> {
        Seq::new(self.components@.len(), |i: int| self.components@[i]@)
    }

    /// The extension.
    pub open spec fn ext(self) -> Option<Seq<char>> {
        path_extension(self.names())
    }

    /// The extension.
    pub fn extension(&self) -> (r: Option<String>)
        ensures
            match r {
                Some(e) => self.ext() == Some(e@),
                None => self.ext() is None,
            },
    {
        if self.components.len() == 0 {
            return None;
        }
        let name = &self.components[self.components.len() - 1];
        assert(self.names().last() == name@);
        let mut end: usize = name.len();
        assert(name@.take(end as int) =~= name@);
        while end > 0 && name[end - 1] != DOT
            invariant
                end <= name.len(),
                last_dot(name@) == last_dot(name@.take(end as int)),
            ensures
                end <= name.len(),
                last_dot(name@) == end - 1,
            decreases end,
        {
            assert(name@.take(end as int).drop_last() =~= name@.take(end - 1));
            end = end - 1;
        }
        if end <= 1 {
            return None;
        }
        if name.len() == 2 && name[0] == DOT && name[1] == DOT {
            assert(name@ =~= seq![DOT, DOT]);
            return None;
        }
        let ext = slice_subrange(name.as_slice(), end, name.len());
        assert(ext@ =~= name@.skip(end as int));
        match as_text(ext) {
            Some(e) => Some(e.to_owned()),
            None => None,
        }
    }
}

/// Whether the name `a` comes before the name `b`: byte by byte, and a name before all that it
/// begins.
pub open spec fn name_before(a: Seq<u8>, b: Seq<u8>) -> bool
    decreases a.len(),
{
    if a.len() == 0 || b.len() == 0 {
        a.len() < b.len()
    } else if a[0] != b[0] {
        a[0] < b[0]
    } else {
        name_before(a.skip(1), b.skip(1))
    }
}

/// Whether the path `a` comes before the path `b`: name by name, and a folder before all in it.
pub open spec fn path_before(a: Seq<Seq<u8>>, b: Seq<Seq<u8>>) -> bool
    decreases a.len(),
{
    if a.len() == 0 || b.len() == 0 {
        a.len() < b.len()
    } else if a[0] != b[0] {
        name_before(a[0], b[0])
    } else {
        path_before(a.skip(1), b.skip(1))
    }
}

/// Of two different names one comes before the other.
pub proof fn name_order_is_total(a: Seq<u8>, b: Seq<u8>)
    ensures
        a == b || name_before(a, b) || name_before(b, a),
        !(name_before(a, b) && name_before(b, a)),
        !name_before(a, a),
    decreases a.len(),
{
    if a.len() > 0 {
        name_order_is_total(a.skip(1), a.skip(1));
    }
    if a.len() == 0 && b.len() == 0 {
        assert(a =~= b);
    } else if a.len() > 0 && b.len() > 0 && a[0] == b[0] {
        name_order_is_total(a.skip(1), b.skip(1));
        if a.skip(1) == b.skip(1) {
            assert(a =~= seq![a[0]] + a.skip(1));
            assert(b =~= seq![b[0]] + b.skip(1));
        }
    }
}

/// A name before one that comes before a third comes before that.
pub proof fn name_order_is_transitive(a: Seq<u8>, b: Seq<u8>, c: Seq<u8>)
    requires
        name_before(a, b),
        name_before(b, c),
    ensures
        name_before(a, c),
    decreases a.len(),
{
    if a.len() > 0 && b.len() > 0 && c.len() > 0 && a[0] == b[0] && b[0] == c[0] {
        name_order_is_transitive(a.skip(1), b.skip(1), c.skip(1));
    }
}

/// Of two different paths one comes before the other.
pub proof fn path_order_is_total(a: Seq<Seq<u8>>, b: Seq<Seq<u8>>)
    ensures
        a == b || path_before(a, b) || path_before(b, a),
        !(path_before(a, b) && path_before(b, a)),
        !path_before(a, a),
    decreases a.len(),
{
    if a.len() > 0 {
        path_order_is_total(a.skip(1), a.skip(1));
    }
    if a.len() == 0 && b.len() == 0 {
        assert(a =~= b);
    } else if a.len() > 0 && b.len() > 0 {
        name_order_is_total(a[0], b[0]);
        if a[0] == b[0] {
            path_order_is_total(a.skip(1), b.skip(1));
            if a.skip(1) == b.skip(1) {
                assert(a =~= seq![a[0]] + a.skip(1));
                assert(b =~= seq![b[0]] + b.skip(1));
            }
        }
    }
}

/// A path before one that comes before a third comes before that.
pub proof fn path_order_is_transitive(a: Seq<Seq<u8>>, b: Seq<Seq<u8>>, c: Seq<Seq<u8>>)
    requires
        path_before(a, b),
        path_before(b, c),
    ensures
        path_before(a, c),
    decreases a.len(),
{
    if a.len() > 0 && b.len() > 0 && c.len() > 0 {
        if a[0] == b[0] && b[0] == c[0] {
            path_order_is_transitive(a.skip(1), b.skip(1), c.skip(1));
        } else if a[0] != b[0] && b[0] != c[0] {
            name_order_is_transitive(a[0], b[0], c[0]);
            name_order_is_total(a[0], a[0]);
            name_order_is_total(a[0], b[0]);
        }
    }
}

fn is_name_before(a: &Vec<u8>, b: &Vec<u8>) -> (yes: bool)
    ensures
        yes == name_before(a@, b@),
{
    let mut i: usize = 0;
    assert(a@.skip(0) =~= a@);
    assert(b@.skip(0) =~= b@);
    while i < a.len() && i < b.len()
        invariant
            i <= a.len(),
            i <= b.len(),
            name_before(a@, b@) == name_before(a@.skip(i as int), b@.skip(i as int)),
        decreases a.len() - i,
    {
        if a[i] != b[i] {
            return a[i] < b[i];
        }
        proof {
            assert(a@.skip(i as int).skip(1) =~= a@.skip(i + 1));
            assert(b@.skip(i as int).skip(1) =~= b@.skip(i + 1));
        }
        i = i + 1;
    }
    a.len() < b.len()
}

fn is_same_name(a: &Vec<u8>, b: &Vec<u8>) -> (yes: bool)
    ensures
        yes == (a@ == b@),
{
    if a.len() != b.len() {
        return false;
    }
    let mut i: usize = 0;
    while i < a.len()
        invariant
            a.len() == b.len(),
            i <= a.len(),
            forall|k: int| 0 <= k < i ==> a@[k] == b@[k],
        decreases a.len() - i,
    {
        if a[i] != b[i] {
            return false;
        }
        i = i + 1;
    }
    assert(a@ =~= b@);
    true
}

impl FilePath {
    /// Whether this path comes before `other`.
    pub fn is_before(&self, other: &FilePath) -> (yes: bool)
        ensures
            yes == path_before(self.names(), other.names()),
    {
        let a = &self.components;
        let b = &other.components;
        let mut i: usize = 0;
        let ghost an = self.names();
        let ghost bn = other.names();
        assert(an.skip(0) =~= an);
        assert(bn.skip(0) =~= bn);
        while i < a.len() && i < b.len()
            invariant
                a == self.components,
                b == other.components,
                an == self.names(),
                bn == other.names(),
                i <= a.len(),
                i <= b.len(),
                path_before(an, bn) == path_before(an.skip(i as int), bn.skip(i as int)),
            decreases a.len() - i,
        {
            if !is_same_name(&a[i], &b[i]) {
                return is_name_before(&a[i], &b[i]);
            }
            proof {
                assert(an.skip(i as int).skip(1) =~= an.skip(i + 1));
                assert(bn.skip(i as int).skip(1) =~= bn.skip(i + 1));
            }
            i = i + 1;
        }
        a.len() < b.len()
    }

    /// Whether this path is `root` or lies below it.
    pub fn is_under(&self, root: &FilePath) -> (yes: bool)
        ensures
            yes == root.names().is_prefix_of(self.names()),
    {
        let ghost mine = self.names();
        let ghost upper = root.names();
        if root.components.len() > self.components.len() {
            return false;
        }
        let mut i: usize = 0;
        while i < root.components.len()
            invariant
                mine == self.names(),
                upper == root.names(),
                root.components.len() <= self.components.len(),
                i <= root.components.len(),
                forall|k: int| 0 <= k < i ==> upper[k] == mine[k],
            decreases root.components.len() - i,
        {
            if !is_same_name(&root.components[i], &self.components[i]) {
                assert(mine.subrange(0, upper.len() as int)[i as int] != upper[i as int]);
                return false;
            }
            i = i + 1;
        }
        assert(upper =~= mine.subrange(0, upper.len() as int));
        true
    }
}

/// How many names of `path` to leave out to place it in an output folder: those of `root`, or, for
/// `root` itself, all but the file name. A path that is not under `root` is placed as it is.
pub open spec fn names_to_skip(root: Seq<Seq<u8>>, path: Seq<Seq<u8>>) -> int {
    if !root.is_prefix_of(path) || path.len() == 0 {
        0
    } else if path.len() > root.len() {
        root.len() as int
    } else {
        path.len() - 1
    }
}

/// How many names of `path` to leave out to place it in an output folder.
pub fn skip_for_output(root: &FilePath, path: &FilePath) -> (n: usize)
    ensures
        n == names_to_skip(root.names(), path.names()),
        path.names().len() > 0 ==> n < path.names().len(),
{
    if !path.is_under(root) || path.components.len() == 0 {
        0
    } else if path.components.len() > root.components.len() {
        root.components.len()
    } else {
        path.components.len() - 1
    }
}

/// Different files below a root keep different places in an output folder.
pub proof fn outputs_do_not_collide(root: Seq<Seq<u8>>, a: Seq<Seq<u8>>, b: Seq<Seq<u8>>)
    requires
        root.is_prefix_of(a),
        root.is_prefix_of(b),
        root.len() < a.len(),
        root.len() < b.len(),
        a != b,
    ensures
        a.skip(names_to_skip(root, a)) != b.skip(names_to_skip(root, b)),
{
    let n = root.len() as int;
    if a.skip(n) == b.skip(n) {
        assert(a =~= a.subrange(0, n) + a.skip(n));
        assert(b =~= b.subrange(0, n) + b.skip(n));
    }
}

} // verus!
