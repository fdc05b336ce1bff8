//! Topological paths as sequences of characters.
use vstd::prelude::*;

verus! {

/// The order of strings: by the first character in which they differ, a string before every
/// longer one that begins with it.
pub open spec fn precedes(a: Seq<char>, b: Seq<char>) -> bool {
    exists|k: int| is_smaller_at(a, b, k)
}

/// `a` and `b` agree on their first `k` characters, and there `a` ends or has the smaller one.
pub open spec fn is_smaller_at(a: Seq<char>, b: Seq<char>, k: int) -> bool {
    &&& 0 <= k <= a.len()
    &&& k < b.len()
    &&& forall|i: int| 0 <= i < k ==> a[i] == b[i]
    &&& (k == a.len() || a[k] < b[k])
}

/// `name` is a single path component.
pub open spec fn is_component(name: Seq<char>) -> bool {
    !name.contains('/')
}

/// The path of the partition `name` of the device at `parent`.
pub open spec fn partition_path(
    parent: Seq<char>,
    suffix: Seq<char>,
    name: Seq<char>,
) -> Seq<char> {
    parent + suffix + seq!['/'] + name + seq!['/'] + "block"@
}

/// `path` is the path of some partition of the device at `parent`:
/// `<parent><suffix>/<partition-name>/block`.
pub open spec fn is_partition_of(path: Seq<char>, parent: Seq<char>, suffix: Seq<char>) -> bool {
    exists|name: Seq<char>|
        is_component(name) && path == #[trigger] partition_path(parent, suffix, name)
}

/// The characters of `s`.
pub(crate) fn chars_of(s: &str) -> (v: Vec<char>)
    ensures
        v@ == s@,
{
    let mut v: Vec<char> = Vec::new();
    for c in it: s.chars()
        invariant
            it.seq() == s@,
            v@ == it.seq().take(it.index()),
    {
        v.push(c);
    }
    v
}

/// Whether the characters of `part` stand in `whole` from `at` on.
fn stands_at(whole: &Vec<char>, at: usize, part: &Vec<char>) -> (r: bool)
    requires
        at <= whole@.len(),
    ensures
        r == (at + part@.len() <= whole@.len() && whole@.subrange(at as int, at + part@.len())
            == part@),
{
    let room: usize = whole.len() - at;
    if part.len() > room {
        return false;
    }
    let mut i: usize = 0;
    while i < part.len()
        invariant
            i <= part@.len() <= room,
            at + room == whole.len(),
            forall|j: int| 0 <= j < i ==> whole@[at + j] == part@[j],
        decreases part@.len() - i,
    {
        if whole[at + i] != part[i] {
            assert(whole@.subrange(at as int, at + part@.len())[i as int] != part@[i as int]);
            return false;
        }
        i += 1;
    }
    assert(whole@.subrange(at as int, at + part@.len()) =~= part@);
    true
}

/// Whether `a` and `b` are the same text.
pub(crate) fn equal(a: &str, b: &str) -> (r: bool)
    ensures
        r == (a@ == b@),
{
    let x = chars_of(a);
    let y = chars_of(b);
    let r = x.len() == y.len() && stands_at(&x, 0, &y);
    assert(x@.subrange(0, x@.len() as int) =~= x@);
    r
}

/// Whether `text` begins with `prefix`.
pub(crate) fn starts_with(text: &str, prefix: &str) -> (r: bool)
    ensures
        r == prefix@.is_prefix_of(text@),
{
    let x = chars_of(text);
    let y = chars_of(prefix);
    stands_at(&x, 0, &y)
}

/// Whether `a` comes before `b` in the order of strings.
pub(crate) fn sorts_before(a: &str, b: &str) -> (r: bool)
    ensures
        r == precedes(a@, b@),
{
    let x = chars_of(a);
    let y = chars_of(b);
    let mut k: usize = 0;
    while k < x.len() && k < y.len() && x[k] == y[k]
        invariant
            k <= x@.len(),
            k <= y@.len(),
            forall|i: int| 0 <= i < k ==> x@[i] == y@[i],
        decreases x@.len() - k,
    {
        k += 1;
    }
    let r = k < y.len() && (k == x.len() || x[k] < y[k]);
    proof {
        if r {
            assert(is_smaller_at(a@, b@, k as int));
        } else if precedes(a@, b@) {
            let n = choose|n: int| is_smaller_at(a@, b@, n);
            if n < k {
                assert(a@[n] == b@[n]);
            }
            assert(false);
        }
    }
    r
}

/// The last `/` before `end`, if there is one.
fn last_slash(path: &Vec<char>, end: usize) -> (r: Option<usize>)
    requires
        end <= path@.len(),
    ensures
        match r {
            Some(at) => at < end && path@[at as int] == '/' && forall|i: int|
                at < i < end ==> path@[i] != '/',
            None => forall|i: int| 0 <= i < end ==> path@[i] != '/',
        },
{
    let mut i: usize = end;
    while i > 0
        invariant
            i <= end <= path@.len(),
            forall|j: int| i <= j < end ==> path@[j] != '/',
        decreases i,
    {
        i -= 1;
        if path[i] == '/' {
            return Some(i);
        }
    }
    None
}

/// Whether `path` has the form `<parent><suffix>/<partition-name>/block`.
pub(crate) fn is_partition(path: &str, parent: &str, suffix: &str) -> (r: bool)
    ensures
        r == is_partition_of(path@, parent@, suffix@),
{
    let block = chars_of("block");
    let whole = chars_of(path);
    let parent_part = chars_of(parent);
    let suffix_part = chars_of(suffix);
    proof {
        reveal_strlit("block");
        lemma_partition_slashes(path@, parent@, suffix@);
    }
    // The last component is `block`, the one before it the name of the partition.
    let head: usize = match last_slash(&whole, whole.len()) {
        Some(at) => at,
        None => return false,
    };
    if whole.len() - head - 1 != block.len() || !stands_at(&whole, head + 1, &block) {
        return false;
    }
    let stem: usize = match last_slash(&whole, head) {
        Some(at) => at,
        None => return false,
    };
    // What is left is the parent's path followed by the suffix.
    if suffix_part.len() > stem || stem - suffix_part.len() != parent_part.len() {
        return false;
    }
    let r = stands_at(&whole, 0, &parent_part) && stands_at(
        &whole,
        parent_part.len(),
        &suffix_part,
    );
    proof {
        let name = path@.subrange(stem + 1, head as int);
        assert(is_component(name));
        if r {
            assert(path@.subrange(0, parent@.len() as int) == parent@);
            assert(path@.subrange(parent@.len() as int, stem as int) == suffix@);
            assert(path@.subrange(head + 1, path@.len() as int) == "block"@);
            assert forall|i: int| 0 <= i < path@.len() implies path@[i] == partition_path(
                parent@,
                suffix@,
                name,
            )[i] by {
                if i < parent@.len() {
                    assert(path@[i] == path@.subrange(0, parent@.len() as int)[i]);
                } else if i < stem {
                    assert(path@[i] == path@.subrange(parent@.len() as int, stem as int)[i
                        - parent@.len()]);
                } else if i > head {
                    assert(path@[i] == path@.subrange(head + 1, path@.len() as int)[i - head - 1]);
                }
            }
            assert(path@ =~= partition_path(parent@, suffix@, name));
        }
    }
    r
}

/// Every path of the form `<parent><suffix>/<partition-name>/block` is that of a partition,
/// whatever the parent, the suffix and the name are, as long as the name is a single component.
pub proof fn law_partition_form_is_recognised(
    parent: Seq<char>,
    suffix: Seq<char>,
    name: Seq<char>,
)
    requires
        !name.contains('/'),
    ensures
        is_partition_of(parent + suffix + "/"@ + name + "/block"@, parent, suffix),
{
    reveal_strlit("/");
    reveal_strlit("block");
    reveal_strlit("/block");
    assert(parent + suffix + "/"@ + name + "/block"@ =~= partition_path(parent, suffix, name));
}

/// A path is that of a partition exactly if the parent's path and the suffix stand first, then a
/// slash, then characters other than slashes, or none, and then `/block`.
pub proof fn law_partition_form(path: Seq<char>, parent: Seq<char>, suffix: Seq<char>)
    ensures
        is_partition_of(path, parent, suffix) <==> {
            let stem = (parent.len() + suffix.len()) as int;
            let head = path.len() - 6;
            &&& stem < head
            &&& path.take(stem) == parent + suffix
            &&& path[stem] == '/'
            &&& forall|i: int| stem < i < head ==> path[i] != '/'
            &&& path.skip(head) == "/block"@
        },
{
    let stem = (parent.len() + suffix.len()) as int;
    let head = path.len() - 6;
    reveal_strlit("/");
    reveal_strlit("block");
    reveal_strlit("/block");
    lemma_partition_slashes(path, parent, suffix);
    if is_partition_of(path, parent, suffix) {
        assert(path.take(stem) =~= path.subrange(0, parent.len() as int) + path.subrange(
            parent.len() as int,
            stem,
        ));
        assert(path.skip(head) =~= seq!['/'] + path.subrange(head + 1, path.len() as int));
        assert("/block"@ =~= seq!['/'] + "block"@);
    }
    if stem < head && path.take(stem) == parent + suffix && path[stem] == '/' && path.skip(head)
        == "/block"@ && (forall|i: int| stem < i < head ==> path[i] != '/') {
        let name = path.subrange(stem + 1, head);
        assert(!name.contains('/'));
        assert forall|i: int| 0 <= i < path.len() implies path[i] == (parent + suffix + "/"@ + name
            + "/block"@)[i] by {
            if i < stem {
                assert(path[i] == path.take(stem)[i]);
            } else if i >= head {
                assert(path[i] == path.skip(head)[i - head]);
            }
        }
        assert(path =~= parent + suffix + "/"@ + name + "/block"@);
        law_partition_form_is_recognised(parent, suffix, name);
    }
}

/// A path is that of a partition of at most one device, for a given suffix.
pub proof fn law_partition_has_one_parent(
    path: Seq<char>,
    parent: Seq<char>,
    other: Seq<char>,
    suffix: Seq<char>,
)
    requires
        is_partition_of(path, parent, suffix),
        is_partition_of(path, other, suffix),
    ensures
        parent == other,
{
    lemma_partition_slashes(path, parent, suffix);
    lemma_partition_slashes(path, other, suffix);
    if parent.len() < other.len() {
        assert(path[(other.len() + suffix.len()) as int] == '/');
    } else if other.len() < parent.len() {
        assert(path[(parent.len() + suffix.len()) as int] == '/');
    }
}

/// A device whose path is that of a partition lies below the device that it is a partition of.
pub proof fn law_partition_extends_parent(path: Seq<char>, parent: Seq<char>, suffix: Seq<char>)
    requires
        is_partition_of(path, parent, suffix),
    ensures
        parent.len() < path.len(),
        parent.is_prefix_of(path),
{
    lemma_partition_slashes(path, parent, suffix);
}

/// Where the slashes of a partition's path stand, and what stands around them.
proof fn lemma_partition_slashes(path: Seq<char>, parent: Seq<char>, suffix: Seq<char>)
    ensures
        is_partition_of(path, parent, suffix) ==> {
            let head = path.len() - 6;
            let stem = parent.len() + suffix.len();
            &&& stem < head
            &&& path[head] == '/'
            &&& path[stem as int] == '/'
            &&& forall|i: int| stem < i < head ==> path[i] != '/'
            &&& forall|i: int| head < i < path.len() ==> path[i] != '/'
            &&& path.subrange(head + 1, path.len() as int) == "block"@
            &&& path.subrange(0, parent.len() as int) == parent
            &&& path.subrange(parent.len() as int, stem as int) == suffix
        },
{
    reveal_strlit("block");
    if is_partition_of(path, parent, suffix) {
        let name = choose|name: Seq<char>|
            is_component(name) && path == #[trigger] partition_path(parent, suffix, name);
        let head = path.len() - 6;
        let stem = parent.len() + suffix.len();
        assert forall|i: int| stem < i < head implies path[i] != '/' by {
            assert(path[i] == name[i - stem - 1]);
            assert(name.contains(name[i - stem - 1]));
        }
        assert forall|i: int| head < i < path.len() implies path[i] != '/' by {
            assert(path[i] == "block"@[i - head - 1]);
        }
        assert(path.subrange(head + 1, path.len() as int) =~= "block"@);
        assert(path.subrange(0, parent.len() as int) =~= parent);
        assert(path.subrange(parent.len() as int, stem as int) =~= suffix);
    }
}

} // verus!
