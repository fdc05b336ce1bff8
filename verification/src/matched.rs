//! The paths of the devices that were matched, each with the matcher that took the device.
use crate::text::{is_smaller_at, equal, precedes, sorts_before, starts_with};
use vstd::prelude::*;

verus! {

broadcast use vstd::seq_lib::group_seq_properties;

/// A matched device: its topological path and the index of the matcher that matched it.
pub struct Entry {
    pub path: String,
    pub index: usize,
}

impl View for Entry {
    type V = (Seq<char>, int);

    open spec fn view(&self) -> (Seq<char>, int) {
        (self.path@, self.index as int)
    }
}

impl Entry {
    fn copy(&self) -> (e: Entry)
        ensures
            e@ == self@,
    {
        Entry { path: self.path.clone(), index: self.index }
    }
}

/// The views of some entries.
pub open spec fn entry_views(entries: Seq<Entry>) -> Seq<(Seq<char>, int)> {
    entries.map_values(|e: Entry| e@)
}

/// The matched paths with fewer than `n` characters that `path` begins with, the longest first,
/// each with its index.
pub open spec fn ancestors_below(
    matched: Map<Seq<char>, int>,
    path: Seq<char>,
    n: nat,
) -> Seq<(Seq<char>, int)>
    decreases n,
{
    if n == 0 {
        seq![]
    } else {
        let shorter = path.take(n - 1);
        let rest = ancestors_below(matched, path, (n - 1) as nat);
        if matched.contains_key(shorter) {
            seq![(shorter, matched[shorter])] + rest
        } else {
            rest
        }
    }
}

/// The matched paths that `path` properly extends, the longest first.
pub open spec fn ancestors(matched: Map<Seq<char>, int>, path: Seq<char>) -> Seq<
    (Seq<char>, int),
> {
    ancestors_below(matched, path, path.len())
}

/// A map from topological paths to matcher indices, kept in the order of the paths.
pub struct MatchedPaths {
    entries: Vec<Entry>,
}

impl View for MatchedPaths {
    type V = Map<Seq<char>, int>;

    closed spec fn view(&self) -> Map<Seq<char>, int> {
        Map::new(
            |p: Seq<char>| exists|i: int| self.holds(i, p),
            |p: Seq<char>| self.entries@[choose|i: int| self.holds(i, p)].index as int,
        )
    }
}

impl MatchedPaths {
    spec fn holds(&self, i: int, p: Seq<char>) -> bool {
        0 <= i < self.entries@.len() && self.entries@[i].path@ == p
    }

    /// The entries stand in strictly ascending order, so that no path occurs twice.
    pub closed spec fn wf(&self) -> bool {
        forall|i: int, j: int|
            0 <= i < j < self.entries@.len() ==> precedes(
                (#[trigger] self.entries@[i]).path@,
                (#[trigger] self.entries@[j]).path@,
            )
    }

    pub fn new() -> (m: Self)
        ensures
            m.wf(),
            m@ == Map::<Seq<char>, int>::empty(),
    {
        let m = MatchedPaths { entries: Vec::new() };
        assert(m@ =~= Map::<Seq<char>, int>::empty());
        m
    }

    /// An entry is what the map holds for its path.
    proof fn lemma_entry(&self, i: int)
        requires
            self.wf(),
            0 <= i < self.entries@.len(),
        ensures
            self@.contains_key(self.entries@[i].path@),
            self@[self.entries@[i].path@] == self.entries@[i].index as int,
    {
        let p = self.entries@[i].path@;
        assert(self.holds(i, p));
        let k = choose|k: int| self.holds(k, p);
        lemma_irreflexive(p);
        if k < i {
            assert(precedes(self.entries@[k].path@, self.entries@[i].path@));
        } else if i < k {
            assert(precedes(self.entries@[i].path@, self.entries@[k].path@));
        }
    }

    /// Records that the matcher at `index` took the device at `path`, in place of what stood
    /// there for `path` before.
    pub fn insert(&mut self, path: &str, index: usize)
        requires
            old(self).wf(),
        ensures
            final(self).wf(),
            final(self)@ == old(self)@.insert(path@, index as int),
    {
        let mut at: usize = 0;
        while at < self.entries.len() && sorts_before(self.entries[at].path.as_str(), path)
            invariant
                *self == *old(self),
                at <= self.entries@.len(),
                forall|i: int| 0 <= i < at ==> precedes((#[trigger] self.entries@[i]).path@, path@),
            decreases self.entries@.len() - at,
        {
            at += 1;
        }
        let ghost before = *self;
        let entry = Entry { path: path.to_owned(), index };
        if at < self.entries.len() && equal(self.entries[at].path.as_str(), path) {
            self.entries.set(at, entry);
            proof {
                assert forall|i: int, j: int| 0 <= i < j < self.entries@.len() implies precedes(
                    (#[trigger] self.entries@[i]).path@,
                    (#[trigger] self.entries@[j]).path@,
                ) by {
                    assert(self.entries@[i].path@ == before.entries@[i].path@);
                    assert(self.entries@[j].path@ == before.entries@[j].path@);
                }
            }
        } else {
            proof {
                if at < before.entries@.len() {
                    lemma_total(before.entries@[at as int].path@, path@);
                }
                assert forall|j: int| at <= j < before.entries@.len() implies precedes(
                    path@,
                    (#[trigger] before.entries@[j]).path@,
                ) by {
                    if j > at {
                        lemma_transitive(
                            path@,
                            before.entries@[at as int].path@,
                            before.entries@[j].path@,
                        );
                    }
                }
            }
            self.entries.insert(at, entry);
            proof {
                assert forall|i: int, j: int| 0 <= i < j < self.entries@.len() implies precedes(
                    (#[trigger] self.entries@[i]).path@,
                    (#[trigger] self.entries@[j]).path@,
                ) by {
                    let a = if i < at { i } else { i - 1 };
                    let b = if j < at { j } else { j - 1 };
                    if i != at && j != at {
                        assert(self.entries@[i] == before.entries@[a]);
                        assert(self.entries@[j] == before.entries@[b]);
                    } else if i == at {
                        assert(self.entries@[j] == before.entries@[b]);
                    } else {
                        assert(self.entries@[i] == before.entries@[a]);
                    }
                }
            }
        }
        proof {
            self.lemma_entry(at as int);
            assert(self.entries@[at as int]@ == (path@, index as int));
            assert(self@.contains_key(path@) && self@[path@] == index as int);
            assert forall|p: Seq<char>| p != path@ implies #[trigger] self@.contains_key(p)
                == before@.contains_key(p) && (before@.contains_key(p) ==> self@[p]
                == before@[p]) by {
                let shift: int = self.entries@.len() - before.entries@.len();
                if before@.contains_key(p) {
                    let i = choose|i: int| before.holds(i, p);
                    let k = if i < at { i } else { i + shift };
                    assert(self.entries@[k] == before.entries@[i]);
                    before.lemma_entry(i);
                    self.lemma_entry(k);
                }
                if self@.contains_key(p) {
                    let k = choose|k: int| self.holds(k, p);
                    let i = if k < at { k } else { k - shift };
                    assert(self.entries@[k] == before.entries@[i]);
                    before.lemma_entry(i);
                }
            }
            assert(self@ =~= before@.insert(path@, index as int));
        }
    }

    /// The matched paths that `path` properly extends, from the last in the order of strings to
    /// the first.
    pub fn ancestors(&self, path: &str) -> (found: Vec<Entry>)
        requires
            self.wf(),
        ensures
            entry_views(found@) == ancestors(self@, path@),
    {
        let mut found: Vec<Entry> = Vec::new();
        let mut i: usize = self.entries.len();
        let ghost mut n: nat = path@.len();
        while i > 0
            invariant
                self.wf(),
                i <= self.entries@.len(),
                n <= path@.len(),
                entry_views(found@) + ancestors_below(self@, path@, n) == ancestors(self@, path@),
                forall|j: int|
                    0 <= j < self.entries@.len() && is_ancestor(
                        (#[trigger] self.entries@[j]).path@,
                        path@,
                    ) ==> (j < i <==> self.entries@[j].path@.len() < n),
            decreases i,
        {
            i -= 1;
            let entry = &self.entries[i];
            if sorts_before(entry.path.as_str(), path) && starts_with(path, entry.path.as_str()) {
                proof {
                    let p = entry.path@;
                    lemma_irreflexive(p);
                    assert(p.len() < path@.len()) by {
                        if p.len() == path@.len() {
                            assert(p =~= path@);
                        }
                    }
                    assert(is_ancestor(self.entries@[i as int].path@, path@));
                    self.lemma_entry(i as int);
                    assert(path@.take(p.len() as int) =~= p);
                    assert forall|k: nat| p.len() < k < n implies !self@.contains_key(
                        #[trigger] path@.take(k as int),
                    ) by {
                        if self@.contains_key(path@.take(k as int)) {
                            let j = choose|j: int| self.holds(j, path@.take(k as int));
                            assert(is_ancestor(self.entries@[j].path@, path@));
                            assert(j < i);
                            lemma_prefix_order(self.entries@[j].path@, p, path@);
                        }
                    }
                    lemma_gap(self@, path@, (p.len() + 1) as nat, n);
                    assert(ancestors_below(self@, path@, n) == seq![entry@] + ancestors_below(
                        self@,
                        path@,
                        p.len(),
                    ));
                    assert forall|j: int|
                        0 <= j < self.entries@.len() && is_ancestor(
                            (#[trigger] self.entries@[j]).path@,
                            path@,
                        ) implies (j < i <==> self.entries@[j].path@.len() < p.len()) by {
                        if j < i {
                            lemma_prefix_order(self.entries@[j].path@, p, path@);
                        }
                        if i < j {
                            lemma_prefix_order(p, self.entries@[j].path@, path@);
                        }
                    }
                    n = p.len();
                }
                let ghost so_far = found@;
                found.push(entry.copy());
                proof {
                    assert(entry_views(found@) =~= entry_views(so_far) + seq![entry@]);
                    assert(entry_views(found@) + ancestors_below(self@, path@, n) =~= entry_views(
                        so_far,
                    ) + (seq![entry@] + ancestors_below(self@, path@, n)));
                }
            } else {
                proof {
                    let p = entry.path@;
                    if is_ancestor(p, path@) {
                        lemma_prefix_precedes(p, path@);
                    }
                }
            }
        }
        proof {
            assert forall|k: nat| 0 <= k < n implies !self@.contains_key(
                #[trigger] path@.take(k as int),
            ) by {
                if self@.contains_key(path@.take(k as int)) {
                    let j = choose|j: int| self.holds(j, path@.take(k as int));
                    assert(is_ancestor(self.entries@[j].path@, path@));
                }
            }
            lemma_gap(self@, path@, 0, n);
            assert(entry_views(found@) + ancestors_below(self@, path@, n) =~= entry_views(found@));
        }
        found
    }
}

/// `path` properly extends `p`.
pub open spec fn is_ancestor(p: Seq<char>, path: Seq<char>) -> bool {
    p.len() < path.len() && p.is_prefix_of(path)
}

/// The ancestors of a path are the matched paths that it properly extends, each with its index,
/// and a nearer one stands before one further up.
pub proof fn law_ancestors_nearest_first(matched: Map<Seq<char>, int>, path: Seq<char>)
    ensures
        ({
            let found = ancestors(matched, path);
            &&& forall|j: int|
                0 <= j < found.len() ==> {
                    &&& is_ancestor((#[trigger] found[j]).0, path)
                    &&& matched.contains_key(found[j].0)
                    &&& found[j].1 == matched[found[j].0]
                }
            &&& forall|p: Seq<char>| #[trigger]
                matched.contains_key(p) && is_ancestor(p, path) ==> found.contains((p, matched[p]))
            &&& forall|j: int, k: int|
                0 <= j < k < found.len() ==> (#[trigger] found[j]).0.len() > (
                #[trigger] found[k]).0.len()
        }),
{
    lemma_ancestors_below(matched, path, path.len());
}

/// A matched path is found from every longer one that begins with it, and from no other.
pub proof fn law_matched_path_is_found(
    matched: Map<Seq<char>, int>,
    path: Seq<char>,
    rest: Seq<char>,
    other: Seq<char>,
)
    requires
        matched.contains_key(path),
    ensures
        rest.len() > 0 ==> ancestors(matched, path + rest).contains((path, matched[path])),
        forall|index: int| #[trigger]
            ancestors(matched, other).contains((path, index)) ==> index == matched[path] && exists|
                rest: Seq<char>,
            | rest.len() > 0 && other == #[trigger] (path + rest),
{
    law_ancestors_nearest_first(matched, path + rest);
    law_ancestors_nearest_first(matched, other);
    assert(path =~= (path + rest).subrange(0, path.len() as int));
    if rest.len() > 0 {
        assert(is_ancestor(path, path + rest));
    }
    assert forall|index: int| #[trigger]
        ancestors(matched, other).contains((path, index)) implies index == matched[path] && exists|
        rest: Seq<char>,
    | rest.len() > 0 && other == #[trigger] (path + rest) by {
        assert(other =~= path + other.skip(path.len() as int));
    }
}

proof fn lemma_ancestors_below(matched: Map<Seq<char>, int>, path: Seq<char>, n: nat)
    requires
        n <= path.len(),
    ensures
        ({
            let found = ancestors_below(matched, path, n);
            &&& forall|j: int|
                0 <= j < found.len() ==> {
                    &&& is_ancestor((#[trigger] found[j]).0, path)
                    &&& found[j].0.len() < n
                    &&& matched.contains_key(found[j].0)
                    &&& found[j].1 == matched[found[j].0]
                }
            &&& forall|p: Seq<char>| #[trigger]
                matched.contains_key(p) && is_ancestor(p, path) && p.len() < n ==> found.contains(
                    (p, matched[p]),
                )
            &&& forall|j: int, k: int|
                0 <= j < k < found.len() ==> (#[trigger] found[j]).0.len() > (
                #[trigger] found[k]).0.len()
        }),
    decreases n,
{
    if n > 0 {
        let shorter = path.take(n - 1);
        let rest = ancestors_below(matched, path, (n - 1) as nat);
        let found = ancestors_below(matched, path, n);
        lemma_ancestors_below(matched, path, (n - 1) as nat);
        if matched.contains_key(shorter) {
            assert(forall|j: int| 0 < j < found.len() ==> found[j] == rest[j - 1]);
            assert forall|p: Seq<char>| #[trigger]
                matched.contains_key(p) && is_ancestor(p, path) && p.len()
                    < n implies found.contains((p, matched[p])) by {
                if p.len() == n - 1 {
                    assert(p =~= shorter);
                    assert(found[0] == (p, matched[p]));
                } else {
                    let k = rest.index_of((p, matched[p]));
                    assert(found[k + 1] == (p, matched[p]));
                }
            }
        } else {
            assert forall|p: Seq<char>| #[trigger]
                matched.contains_key(p) && is_ancestor(p, path) && p.len()
                    < n implies found.contains((p, matched[p])) by {
                if p.len() == n - 1 {
                    assert(p =~= shorter);
                }
            }
        }
    }
}

proof fn lemma_irreflexive(a: Seq<char>)
    ensures
        !precedes(a, a),
{
}

proof fn lemma_total(a: Seq<char>, b: Seq<char>)
    requires
        a != b,
    ensures
        precedes(a, b) || precedes(b, a),
{
    lemma_total_from(a, b, 0);
}

proof fn lemma_total_from(a: Seq<char>, b: Seq<char>, k: nat)
    requires
        a != b,
        k <= a.len(),
        k <= b.len(),
        forall|i: int| 0 <= i < k ==> a[i] == b[i],
    ensures
        precedes(a, b) || precedes(b, a),
    decreases a.len() - k,
{
    if k == a.len() && k == b.len() {
        assert(a =~= b);
    } else if k < a.len() && k < b.len() && a[k as int] == b[k as int] {
        lemma_total_from(a, b, k + 1);
    } else {
        assert(is_smaller_at(a, b, k as int) || is_smaller_at(b, a, k as int));
    }
}

proof fn lemma_transitive(a: Seq<char>, b: Seq<char>, c: Seq<char>)
    requires
        precedes(a, b),
        precedes(b, c),
    ensures
        precedes(a, c),
{
    let j = choose|j: int| is_smaller_at(a, b, j);
    let k = choose|k: int| is_smaller_at(b, c, k);
    assert(is_smaller_at(a, c, if j < k { j } else { k }));
}

proof fn lemma_prefix_precedes(p: Seq<char>, path: Seq<char>)
    requires
        is_ancestor(p, path),
    ensures
        precedes(p, path),
{
    assert(is_smaller_at(p, path, p.len() as int));
}

proof fn lemma_prefix_order(p: Seq<char>, q: Seq<char>, path: Seq<char>)
    requires
        p.is_prefix_of(path),
        q.is_prefix_of(path),
        precedes(p, q),
    ensures
        p.len() < q.len(),
{
}

proof fn lemma_gap(matched: Map<Seq<char>, int>, path: Seq<char>, low: nat, high: nat)
    requires
        low <= high,
        forall|k: nat| low <= k < high ==> !matched.contains_key(#[trigger] path.take(k as int)),
    ensures
        ancestors_below(matched, path, high) == ancestors_below(matched, path, low),
    decreases high,
{
    if low < high {
        assert(!matched.contains_key(path.take((high - 1) as nat as int)));
        lemma_gap(matched, path, low, (high - 1) as nat);
    }
}

} // verus!
