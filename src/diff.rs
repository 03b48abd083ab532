//! Building one tree per root from what a walk yields, assembling the trees
//! in root order, and computing which relative paths differ across them.
use vstd::prelude::*;

use crate::entry::{columns_differ, entries_differ, is_dir, is_dir_column, Entry, ErrorKind, FileKind};
use crate::path::{
    ancestor_of, compare_paths, is_ancestor, lemma_path_transitive, path_lt, strictly_sorted, PathKey,
};

verus! {

/// One item yielded by walking a root, reduced to plain values.
#[derive(Debug)]
pub enum WalkItem {
    /// The walk reached `path`; `metadata` holds its kind and length, or the
    /// failure met while reading them.
    Found { path: PathKey, metadata: Result<(FileKind, u64), Option<ErrorKind>> },
    /// The walk failed, at `at` where that is known, with an I/O error
    /// where there was one.
    Failed { at: Option<PathKey>, io_error: Option<ErrorKind> },
}

/// The absolute path an item stands at, if it has one.
pub open spec fn item_path(item: WalkItem) -> Option<Seq<Seq<u8>>> {
    match item {
        WalkItem::Found { path, .. } => Some(path@),
        WalkItem::Failed { at, .. } => match at {
            Some(p) => Some(p@),
            None => None,
        },
    }
}

/// The entry an item is classified as.
pub open spec fn classified(item: WalkItem) -> Entry {
    match item {
        WalkItem::Found { metadata, .. } => match metadata {
            Ok((k, len)) => Entry::Metadata(k, len),
            Err(e) => Entry::MetadataError(e),
        },
        WalkItem::Failed { io_error, .. } => match io_error {
            Some(e) => Entry::EntryIoError(e),
            None => Entry::EntryError,
        },
    }
}

/// `p` lies under `root`, or is `root` itself.
pub open spec fn is_within(root: Seq<Seq<u8>>, p: Seq<Seq<u8>>) -> bool {
    root.len() <= p.len() && p.subrange(0, root.len() as int) == root
}

/// Turns one walk item into the entry recorded for it.
pub fn classify(item: &WalkItem) -> (r: Entry)
    ensures
        r == classified(*item),
{
    match item {
        WalkItem::Found { metadata, .. } => match metadata {
            Ok((k, len)) => Entry::Metadata(*k, *len),
            Err(e) => Entry::MetadataError(*e),
        },
        WalkItem::Failed { io_error, .. } => match io_error {
            Some(e) => Entry::EntryIoError(*e),
            None => Entry::EntryError,
        },
    }
}

/// The walk of one root: its path, and what was recorded under each path
/// relative to it.
pub struct RootTree {
    root: PathKey,
    entries: Vec<(PathKey, Entry)>,
    model: Ghost<Map<Seq<Seq<u8>>, Entry>>,
}

impl View for RootTree {
    type V = Map<Seq<Seq<u8>>, Entry>;

    closed spec fn view(&self) -> Map<Seq<Seq<u8>>, Entry> {
        self.model@
    }
}

impl RootTree {
    /// The tree's relative paths are unique, and the model maps each to
    /// its entry.
    pub closed spec fn wf(&self) -> bool {
        &&& forall|i: int, j: int|
            0 <= i < j < self.entries@.len() ==> #[trigger] self.entries@[i].0@
                != #[trigger] self.entries@[j].0@
        &&& forall|i: int|
            0 <= i < self.entries@.len() ==> self.model@.contains_key(#[trigger] self.entries@[i].0@)
                && self.model@[self.entries@[i].0@] == self.entries@[i].1
        &&& forall|p: Seq<Seq<u8>>|
            #[trigger] self.model@.contains_key(p) ==> exists|i: int|
                0 <= i < self.entries@.len() && #[trigger] self.entries@[i].0@ == p
    }

    /// The root path of the tree.
    pub closed spec fn root_path(&self) -> Seq<Seq<u8>> {
        self.root@
    }

    /// A tree for `root` with nothing recorded yet.
    pub fn new(root: PathKey) -> (r: RootTree)
        ensures
            r.wf(),
            r@ == Map::<Seq<Seq<u8>>, Entry>::empty(),
            r.root_path() == root@,
    {
        RootTree { root, entries: Vec::new(), model: Ghost(Map::empty()) }
    }

    /// The root path.
    pub fn root(&self) -> (r: &PathKey)
        ensures
            r@ == self.root_path(),
    {
        &self.root
    }

    /// Whether `item` can be recorded: it has no path, or its path lies
    /// under the root.
    pub fn admits(&self, item: &WalkItem) -> (r: bool)
        ensures
            r == match item_path(*item) {
                Some(p) => is_within(self.root_path(), p),
                None => true,
            },
    {
        let path = match item {
            WalkItem::Found { path, .. } => path,
            WalkItem::Failed { at, .. } => match at {
                Some(p) => p,
                None => {
                    return true;
                },
            },
        };
        if compare_paths(&self.root, path) == 0 {
            assert(path@.subrange(0, path@.len() as int) =~= path@);
            true
        } else {
            let r = ancestor_of(&self.root, path);
            proof {
                if is_within(self.root@, path@) && self.root@.len() == path@.len() {
                    assert(path@.subrange(0, path@.len() as int) =~= path@);
                }
            }
            r
        }
    }

    /// What is recorded at relative path `p`, if anything.
    pub fn get(&self, p: &PathKey) -> (r: Option<Entry>)
        requires
            self.wf(),
        ensures
            r == column(self@, p@),
    {
        let mut i: usize = 0;
        while i < self.entries.len()
            invariant
                self.wf(),
                i <= self.entries@.len(),
                forall|k: int| 0 <= k < i ==> self.entries@[k].0@ != p@,
            decreases self.entries.len() - i,
        {
            if compare_paths(&self.entries[i].0, p) == 0 {
                return Some(self.entries[i].1);
            }
            i = i + 1;
        }
        None
    }

    /// Records `e` at relative path `p`, replacing what was there.
    fn insert(&mut self, p: PathKey, e: Entry)
        requires
            old(self).wf(),
        ensures
            final(self).wf(),
            final(self)@ == old(self)@.insert(p@, e),
            final(self).root_path() == old(self).root_path(),
    {
        let ghost m = self.model@.insert(p@, e);
        let mut i: usize = 0;
        while i < self.entries.len()
            invariant
                self.wf(),
                self.model@ == old(self).model@,
                self.entries@ == old(self).entries@,
                self.root == old(self).root,
                m == old(self).model@.insert(p@, e),
                i <= self.entries@.len(),
                forall|k: int| 0 <= k < i ==> self.entries@[k].0@ != p@,
            decreases self.entries.len() - i,
        {
            if compare_paths(&self.entries[i].0, &p) == 0 {
                let ghost pv = p@;
                let ghost before = self.entries@;
                assert(before[i as int].0@ == pv);
                self.entries.set(i, (p, e));
                self.model = Ghost(m);
                assert(self.model@ == old(self).model@.insert(pv, e));
                assert(self.entries@ == before.update(i as int, (self.entries@[i as int].0, e)));
                assert(self.entries@[i as int].0@ == pv);
                assert forall|a: int, b: int|
                    0 <= a < b < self.entries@.len() implies #[trigger] self.entries@[a].0@
                        != #[trigger] self.entries@[b].0@ by {
                    assert(before[a].0@ != before[b].0@);
                }
                assert forall|k: int|
                    0 <= k < self.entries@.len() implies self.model@.contains_key(#[trigger] self.entries@[k].0@)
                        && self.model@[self.entries@[k].0@] == self.entries@[k].1 by {
                    if k != i {
                        assert(before[k].0@ != pv);
                    }
                }
                assert forall|q: Seq<Seq<u8>>| #[trigger] self.model@.contains_key(q) implies exists|j: int|
                    0 <= j < self.entries@.len() && #[trigger] self.entries@[j].0@ == q by {
                    if q != pv {
                        assert(old(self).model@.contains_key(q));
                        let j = choose|j: int| 0 <= j < old(self).entries@.len() && #[trigger] old(self).entries@[j].0@ == q;
                        assert(self.entries@[j].0@ == q);
                    } else {
                        assert(self.entries@[i as int].0@ == q);
                    }
                }
                return;
            }
            i = i + 1;
        }
        self.entries.push((p, e));
        self.model = Ghost(m);
        assert forall|q: Seq<Seq<u8>>| #[trigger] self.model@.contains_key(q) implies exists|j: int|
            0 <= j < self.entries@.len() && #[trigger] self.entries@[j].0@ == q by {
            if q != p@ {
                let j = choose|j: int| 0 <= j < old(self).entries@.len() && #[trigger] old(self).entries@[j].0@ == q;
                assert(self.entries@[j].0@ == q);
            } else {
                assert(self.entries@[i as int].0@ == q);
            }
        }
    }

    /// Records one walk item: an item without a path is dropped; otherwise
    /// its entry is stored under its path relative to the root, replacing
    /// what an earlier item left there.
    pub fn record(&mut self, item: &WalkItem)
        requires
            old(self).wf(),
            item_path(*item) matches Some(p) ==> is_within(old(self).root_path(), p),
        ensures
            final(self).wf(),
            final(self).root_path() == old(self).root_path(),
            final(self)@ == match item_path(*item) {
                Some(p) => old(self)@.insert(
                    p.subrange(old(self).root_path().len() as int, p.len() as int),
                    classified(*item),
                ),
                None => old(self)@,
            },
    {
        let path = match item {
            WalkItem::Found { path, .. } => path,
            WalkItem::Failed { at, .. } => match at {
                Some(p) => p,
                None => {
                    return;
                },
            },
        };
        let rel = path.subpath(self.root.len());
        let e = classify(item);
        self.insert(rel, e);
    }
}

/// What a tree's map holds at `p`, or `None` where it holds nothing.
pub open spec fn column(m: Map<Seq<Seq<u8>>, Entry>, p: Seq<Seq<u8>>) -> Option<Entry> {
    if m.contains_key(p) {
        Some(m[p])
    } else {
        None
    }
}

/// Some tree among `ms` records something at `p`.
pub open spec fn in_union(ms: Seq<Map<Seq<Seq<u8>>, Entry>>, p: Seq<Seq<u8>>) -> bool {
    exists|t: int| 0 <= t < ms.len() && #[trigger] ms[t].contains_key(p)
}

/// The row for `p`: each tree's column, in tree order.
pub open spec fn row(ms: Seq<Map<Seq<Seq<u8>>, Entry>>, p: Seq<Seq<u8>>) -> Seq<Option<Entry>> {
    Seq::new(ms.len(), |t: int| column(ms[t], p))
}

/// A row differs when some column is absent or two neighbouring columns
/// differ.
pub open spec fn row_differs(r: Seq<Option<Entry>>) -> bool {
    (exists|t: int| 0 <= t < r.len() && #[trigger] r[t] is None)
    || (exists|t: int| 0 <= t < r.len() - 1 && #[trigger] columns_differ(r[t], r[t + 1]))
}

/// Some column of the row holds a directory.
pub open spec fn row_has_dir(r: Seq<Option<Entry>>) -> bool {
    exists|t: int| 0 <= t < r.len() && #[trigger] is_dir_column(r[t])
}

/// `p` is a directory somewhere whose row differs: with filtering on,
/// nothing below it is reported.
pub open spec fn differing_dir(ms: Seq<Map<Seq<Seq<u8>>, Entry>>, p: Seq<Seq<u8>>) -> bool {
    in_union(ms, p) && row_differs(row(ms, p)) && row_has_dir(row(ms, p))
}

/// `p` is reported: its row differs and, with filtering on, no ancestor of
/// it is a differing directory.
pub open spec fn reported(ms: Seq<Map<Seq<Seq<u8>>, Entry>>, filter: bool, p: Seq<Seq<u8>>) -> bool {
    &&& in_union(ms, p)
    &&& row_differs(row(ms, p))
    &&& !(filter && exists|q: Seq<Seq<u8>>| is_ancestor(q, p) && #[trigger] differing_dir(ms, q))
}

/// The views of a sequence of paths.
pub open spec fn keys(u: Seq<PathKey>) -> Seq<Seq<Seq<u8>>> {
    u.map_values(|k: PathKey| k@)
}

/// Inserts `p` into the strictly sorted `u`, unless it is there already.
fn insert_sorted(u: &mut Vec<PathKey>, p: &PathKey)
    requires
        strictly_sorted(keys(old(u)@)),
    ensures
        strictly_sorted(keys(final(u)@)),
        forall|q: Seq<Seq<u8>>| #[trigger] keys(final(u)@).contains(q) <==> (keys(old(u)@).contains(q) || q == p@),
{
    let mut i: usize = 0;
    let mut found = false;
    let mut done = false;
    while !done && i < u.len()
        invariant
            u@ == old(u)@,
            i <= u@.len(),
            forall|k: int| 0 <= k < i ==> path_lt(#[trigger] keys(u@)[k], p@),
            found ==> done && i < u@.len() && keys(u@)[i as int] == p@,
            done && !found ==> i < u@.len() && path_lt(p@, keys(u@)[i as int]),
        decreases u.len() - i + (if done { 0int } else { 1int }),
    {
        let c = compare_paths(&u[i], p);
        if c == 0 {
            found = true;
            done = true;
        } else if c > 0 {
            done = true;
        } else {
            i = i + 1;
        }
    }
    if found {
        assert(keys(u@)[i as int] == p@);
        return;
    }
    let ghost ks = keys(u@);
    u.insert(i, p.duplicate());
    let ghost nk = keys(u@);
    assert(nk =~= ks.insert(i as int, p@));
    assert forall|a: int, b: int| 0 <= a < b < nk.len() implies path_lt(#[trigger] nk[a], #[trigger] nk[b]) by {
        if b < i {
        } else if a < i && b == i {
        } else if a < i {
            assert(path_lt(ks[a], ks[b - 1]));
        } else if a == i {
            if b - 1 > i {
                assert(path_lt(ks[i as int], ks[b - 1]));
                lemma_path_transitive(p@, ks[i as int], ks[b - 1]);
            }
        } else {
            assert(path_lt(ks[a - 1], ks[b - 1]));
        }
    }
    assert forall|q: Seq<Seq<u8>>| #[trigger] nk.contains(q) <==> (ks.contains(q) || q == p@) by {
        if nk.contains(q) {
            let k = choose|k: int| 0 <= k < nk.len() && nk[k] == q;
            if k < i {
                assert(ks[k] == q);
            } else if k > i {
                assert(ks[k - 1] == q);
            }
        }
        if ks.contains(q) {
            let k = choose|k: int| 0 <= k < ks.len() && ks[k] == q;
            if k < i {
                assert(nk[k] == q);
            } else {
                assert(nk[k + 1] == q);
            }
        }
        if q == p@ {
            assert(nk[i as int] == q);
        }
    }
}

/// The failure of a whole comparison run.
#[derive(Debug, PartialEq, Eq, Structural)]
pub enum Error {
    /// A walk could not be brought to an end; nothing is returned.
    ThreadError,
}

/// The trees of one comparison run, in the order their roots were given.
pub struct Diff {
    trees: Vec<RootTree>,
}

/// One reported row: a relative path and each tree's column, in tree order.
#[derive(Debug)]
pub struct DiffRecord {
    pub path: PathKey,
    pub columns: Vec<Option<Entry>>,
}

/// The paths of a sequence of records.
pub open spec fn record_paths(r: Seq<DiffRecord>) -> Seq<Seq<Seq<u8>>> {
    r.map_values(|d: DiffRecord| d.path@)
}

/// `r` lists exactly the reported paths of `ms`, in strictly increasing
/// order, each with its row.
pub open spec fn records_match(ms: Seq<Map<Seq<Seq<u8>>, Entry>>, filter: bool, r: Seq<DiffRecord>) -> bool {
    &&& strictly_sorted(record_paths(r))
    &&& forall|k: int|
        0 <= k < r.len() ==> reported(ms, filter, #[trigger] r[k].path@) && r[k].columns@ == row(
            ms,
            r[k].path@,
        )
    &&& forall|p: Seq<Seq<u8>>| reported(ms, filter, p) ==> #[trigger] record_paths(r).contains(p)
}

impl View for Diff {
    type V = Seq<Map<Seq<Seq<u8>>, Entry>>;

    closed spec fn view(&self) -> Seq<Map<Seq<Seq<u8>>, Entry>> {
        Seq::new(self.trees@.len(), |t: int| self.trees@[t]@)
    }
}

/// The walks that ended; `None` for one that did not.
pub open spec fn walks_view(walks: Seq<Option<RootTree>>) -> bool {
    forall|t: int| 0 <= t < walks.len() ==> (#[trigger] walks[t] matches Some(tree) ==> tree.wf())
}

/// Every walk ended.
pub open spec fn all_ended(walks: Seq<Option<RootTree>>) -> bool {
    forall|t: int| 0 <= t < walks.len() ==> #[trigger] walks[t] is Some
}

/// Assembles the trees of the walks, in the order of the walks, or fails as
/// a whole when some walk did not end.
pub fn diff(walks: Vec<Option<RootTree>>) -> (r: Result<Diff, Error>)
    requires
        walks_view(walks@),
    ensures
        (r is Ok) <==> all_ended(walks@),
        r is Err ==> r == Err::<Diff, Error>(Error::ThreadError),
        r matches Ok(d) ==> d.wf() && d@.len() == walks@.len() && forall|t: int|
            0 <= t < walks@.len() ==> (#[trigger] walks@[t] matches Some(tree) && d@[t] == tree@
                && d.root_path(t) == tree.root_path()),
{
    let ghost all = walks@;
    let mut rest = walks;
    let mut trees: Vec<RootTree> = Vec::new();
    while rest.len() > 0
        invariant
            all == walks@,
            walks_view(all),
            all.len() == trees@.len() + rest@.len(),
            rest@ == all.subrange(trees@.len() as int, all.len() as int),
            forall|t: int| 0 <= t < trees@.len() ==> (#[trigger] all[t] matches Some(tree) && trees@[t] == tree),
        decreases rest.len(),
    {
        let w = rest.remove(0);
        assert(all[trees@.len() as int] == w);
        match w {
            Some(tree) => {
                trees.push(tree);
            },
            None => {
                assert(!(all[trees@.len() as int] is Some));
                assert(!all_ended(all));
                return Err(Error::ThreadError);
            },
        }
        assert(rest@ =~= all.subrange(trees@.len() as int, all.len() as int));
    }
    let d = Diff { trees };
    assert(d@.len() == all.len());
    assert forall|t: int| 0 <= t < d.trees@.len() implies #[trigger] d.trees@[t].wf() by {
        assert(all[t] matches Some(tree) && d.trees@[t] == tree);
    }
    assert forall|t: int| 0 <= t < all.len() implies (#[trigger] all[t] matches Some(tree) && d@[t] == tree@
        && d.root_path(t) == tree.root_path()) by {
        assert(all[t] matches Some(tree) && d.trees@[t] == tree);
    }
    Ok(d)
}

/// Whether a row differs.
fn differs(r: &Vec<Option<Entry>>) -> (b: bool)
    ensures
        b == row_differs(r@),
{
    let mut t: usize = 0;
    while t < r.len()
        invariant
            t <= r@.len(),
            forall|k: int| 0 <= k < t ==> !(#[trigger] r@[k] is None),
            forall|k: int| 0 <= k < t && k < r@.len() - 1 ==> !#[trigger] columns_differ(r@[k], r@[k + 1]),
        decreases r.len() - t,
    {
        if r[t].is_none() {
            return true;
        }
        if t + 1 < r.len() && entries_differ(r[t], r[t + 1]) {
            return true;
        }
        t = t + 1;
    }
    false
}

/// Whether some column of a row holds a directory.
fn has_dir(r: &Vec<Option<Entry>>) -> (b: bool)
    ensures
        b == row_has_dir(r@),
{
    let mut t: usize = 0;
    while t < r.len()
        invariant
            t <= r@.len(),
            forall|k: int| 0 <= k < t ==> !#[trigger] is_dir_column(r@[k]),
        decreases r.len() - t,
    {
        if is_dir(r[t]) {
            return true;
        }
        t = t + 1;
    }
    false
}

/// Whether some path of `dirs` is an ancestor of `p`.
fn under_any(dirs: &Vec<PathKey>, p: &PathKey) -> (b: bool)
    ensures
        b == exists|k: int| 0 <= k < dirs@.len() && is_ancestor(#[trigger] keys(dirs@)[k], p@),
{
    let mut k: usize = 0;
    while k < dirs.len()
        invariant
            k <= dirs@.len(),
            forall|j: int| 0 <= j < k ==> !is_ancestor(#[trigger] keys(dirs@)[j], p@),
        decreases dirs.len() - k,
    {
        let a = ancestor_of(&dirs[k], p);
        assert(keys(dirs@)[k as int] == dirs@[k as int]@);
        if a {
            return true;
        }
        k = k + 1;
    }
    false
}

impl Diff {
    /// Every tree is well formed.
    pub closed spec fn wf(&self) -> bool {
        forall|t: int| 0 <= t < self.trees@.len() ==> #[trigger] self.trees@[t].wf()
    }

    /// The root path of tree `t`.
    pub closed spec fn root_path(&self, t: int) -> Seq<Seq<u8>> {
        self.trees@[t].root_path()
    }

    /// The number of trees.
    pub fn tree_count(&self) -> (r: usize)
        ensures
            r == self@.len(),
    {
        self.trees.len()
    }

    /// The root path of tree `t`.
    pub fn root(&self, t: usize) -> (r: &PathKey)
        requires
            t < self@.len(),
        ensures
            r@ == self.root_path(t as int),
    {
        self.trees[t].root()
    }

    /// Each tree's column at `p`, in tree order.
    fn row_of(&self, p: &PathKey) -> (r: Vec<Option<Entry>>)
        requires
            self.wf(),
        ensures
            r@ == row(self@, p@),
    {
        let mut r: Vec<Option<Entry>> = Vec::new();
        let mut t: usize = 0;
        while t < self.trees.len()
            invariant
                self.wf(),
                t <= self.trees@.len(),
                r@.len() == t,
                forall|k: int| 0 <= k < t ==> #[trigger] r@[k] == column(self@[k], p@),
            decreases self.trees.len() - t,
        {
            assert(self.trees@[t as int].wf());
            let c = self.trees[t].get(p);
            r.push(c);
            t = t + 1;
        }
        assert(r@ =~= row(self@, p@));
        r
    }

    /// Every relative path some tree records, each once, in increasing order.
    fn all_paths(&self) -> (r: Vec<PathKey>)
        requires
            self.wf(),
        ensures
            strictly_sorted(keys(r@)),
            forall|q: Seq<Seq<u8>>| #[trigger] keys(r@).contains(q) <==> in_union(self@, q),
    {
        let mut u: Vec<PathKey> = Vec::new();
        let mut t: usize = 0;
        while t < self.trees.len()
            invariant
                self.wf(),
                t <= self.trees@.len(),
                strictly_sorted(keys(u@)),
                forall|q: Seq<Seq<u8>>| #[trigger] keys(u@).contains(q) <==> in_union(self@.subrange(0, t as int), q),
            decreases self.trees.len() - t,
        {
            let tree = &self.trees[t];
            assert(tree.wf());
            let mut j: usize = 0;
            while j < tree.entries.len()
                invariant
                    tree.wf(),
                    tree == self.trees@[t as int],
                    t < self.trees@.len(),
                    j <= tree.entries@.len(),
                    strictly_sorted(keys(u@)),
                    forall|q: Seq<Seq<u8>>| #[trigger] keys(u@).contains(q) <==> (in_union(self@.subrange(0, t as int), q)
                        || exists|k: int| 0 <= k < j && #[trigger] tree.entries@[k].0@ == q),
                decreases tree.entries.len() - j,
            {
                insert_sorted(&mut u, &tree.entries[j].0);
                assert forall|q: Seq<Seq<u8>>| #[trigger] keys(u@).contains(q) <==> (in_union(self@.subrange(0, t as int), q)
                    || exists|k: int| 0 <= k < j + 1 && #[trigger] tree.entries@[k].0@ == q) by {
                    if q == tree.entries@[j as int].0@ {
                    }
                }
                j = j + 1;
            }
            assert forall|q: Seq<Seq<u8>>| #[trigger] keys(u@).contains(q) <==> in_union(self@.subrange(0, t + 1), q) by {
                let pre = self@.subrange(0, t as int);
                let nxt = self@.subrange(0, t + 1);
                if in_union(pre, q) {
                    let w = choose|w: int| 0 <= w < pre.len() && #[trigger] pre[w].contains_key(q);
                    assert(nxt[w].contains_key(q));
                }
                if in_union(nxt, q) {
                    let w = choose|w: int| 0 <= w < nxt.len() && #[trigger] nxt[w].contains_key(q);
                    if w < t {
                        assert(pre[w].contains_key(q));
                    } else {
                        assert(tree@.contains_key(q));
                    }
                }
                if exists|k: int| 0 <= k < tree.entries@.len() && #[trigger] tree.entries@[k].0@ == q {
                    let k = choose|k: int| 0 <= k < tree.entries@.len() && #[trigger] tree.entries@[k].0@ == q;
                    assert(tree@.contains_key(q));
                    assert(nxt[t as int].contains_key(q));
                }
            }
            t = t + 1;
        }
        assert(self@.subrange(0, t as int) =~= self@);
        u
    }
    /// The rows that differ, in increasing order of relative path. With
    /// `filter_dirs`, nothing below a directory whose row differs is
    /// reported.
    pub fn diff_paths(&self, filter_dirs: bool) -> (r: Vec<DiffRecord>)
        requires
            self.wf(),
        ensures
            records_match(self@, filter_dirs, r@),
    {
        let u = self.all_paths();
        let ghost ms = self@;
        let mut dirs: Vec<PathKey> = Vec::new();
        if filter_dirs {
            let mut i: usize = 0;
            while i < u.len()
                invariant
                    self.wf(),
                    ms == self@,
                    i <= u@.len(),
                    forall|k: int| 0 <= k < dirs@.len() ==> differing_dir(ms, #[trigger] keys(dirs@)[k]),
                    forall|k: int| 0 <= k < i && differing_dir(ms, #[trigger] keys(u@)[k]) ==> keys(dirs@).contains(keys(u@)[k]),
                decreases u.len() - i,
            {
                let row = self.row_of(&u[i]);
                assert(keys(u@).contains(keys(u@)[i as int]));
                if differs(&row) && has_dir(&row) {
                    let ghost before = keys(dirs@);
                    dirs.push(u[i].duplicate());
                    assert(keys(dirs@) =~= before.push(keys(u@)[i as int]));
                    assert forall|k: int| 0 <= k < i + 1 && differing_dir(ms, #[trigger] keys(u@)[k]) implies keys(dirs@).contains(keys(u@)[k]) by {
                        if k < i {
                            let j = choose|j: int| 0 <= j < before.len() && before[j] == keys(u@)[k];
                            assert(keys(dirs@)[j] == keys(u@)[k]);
                        } else {
                            assert(keys(dirs@)[before.len() as int] == keys(u@)[k]);
                        }
                    }
                }
                i = i + 1;
            }
        }
        proof {
            assert forall|q: Seq<Seq<u8>>| filter_dirs && differing_dir(ms, q) implies #[trigger] keys(dirs@).contains(q) by {
                assert(keys(u@).contains(q));
                let k = choose|k: int| 0 <= k < keys(u@).len() && keys(u@)[k] == q;
                assert(differing_dir(ms, keys(u@)[k]));
            }
        }
        let mut out: Vec<DiffRecord> = Vec::new();
        let mut i: usize = 0;
        while i < u.len()
            invariant
                self.wf(),
                ms == self@,
                i <= u@.len(),
                strictly_sorted(keys(u@)),
                forall|q: Seq<Seq<u8>>| #[trigger] keys(u@).contains(q) <==> in_union(ms, q),
                forall|k: int| 0 <= k < dirs@.len() ==> differing_dir(ms, #[trigger] keys(dirs@)[k]),
                !filter_dirs ==> dirs@.len() == 0,
                forall|q: Seq<Seq<u8>>| filter_dirs && differing_dir(ms, q) ==> #[trigger] keys(dirs@).contains(q),
                strictly_sorted(record_paths(out@)),
                forall|k: int, m: int| 0 <= k < out@.len() && i <= m < u@.len() ==> path_lt(#[trigger] record_paths(out@)[k], #[trigger] keys(u@)[m]),
                forall|k: int|
                    0 <= k < out@.len() ==> reported(ms, filter_dirs, #[trigger] out@[k].path@) && out@[k].columns@ == row(ms, out@[k].path@),
                forall|m: int| 0 <= m < i && reported(ms, filter_dirs, #[trigger] keys(u@)[m]) ==> record_paths(out@).contains(keys(u@)[m]),
            decreases u.len() - i,
        {
            let p = &u[i];
            let ghost pv = keys(u@)[i as int];
            assert(p@ == pv);
            assert(keys(u@).contains(pv));
            let row = self.row_of(p);
            let d = differs(&row);
            let hidden = filter_dirs && under_any(&dirs, p);
            proof {
                if filter_dirs && (exists|q: Seq<Seq<u8>>| is_ancestor(q, pv) && #[trigger] differing_dir(ms, q)) {
                    let q = choose|q: Seq<Seq<u8>>| is_ancestor(q, pv) && #[trigger] differing_dir(ms, q);
                    assert(keys(dirs@).contains(q));
                    let k = choose|k: int| 0 <= k < keys(dirs@).len() && keys(dirs@)[k] == q;
                    assert(is_ancestor(keys(dirs@)[k], p@));
                }
                if hidden {
                    let k = choose|k: int| 0 <= k < dirs@.len() && is_ancestor(#[trigger] keys(dirs@)[k], p@);
                    assert(differing_dir(ms, keys(dirs@)[k]));
                }
            }
            if d && !hidden {
                let ghost before = record_paths(out@);
                let rec = DiffRecord { path: p.duplicate(), columns: row };
                out.push(rec);
                assert(record_paths(out@) =~= before.push(pv));
                assert forall|k: int, m: int| 0 <= k < out@.len() && i + 1 <= m < u@.len() implies path_lt(#[trigger] record_paths(out@)[k], #[trigger] keys(u@)[m]) by {
                    if k < before.len() {
                        assert(path_lt(before[k], keys(u@)[m]));
                    } else {
                        assert(path_lt(keys(u@)[i as int], keys(u@)[m]));
                    }
                }
                assert forall|a: int, b: int| 0 <= a < b < record_paths(out@).len() implies path_lt(#[trigger] record_paths(out@)[a], #[trigger] record_paths(out@)[b]) by {
                    if b < before.len() {
                        assert(path_lt(before[a], before[b]));
                    } else {
                        assert(path_lt(before[a], keys(u@)[i as int]));
                    }
                }
                assert forall|m: int| 0 <= m < i + 1 && reported(ms, filter_dirs, #[trigger] keys(u@)[m]) implies record_paths(out@).contains(keys(u@)[m]) by {
                    if m < i {
                        let j = choose|j: int| 0 <= j < before.len() && before[j] == keys(u@)[m];
                        assert(record_paths(out@)[j] == keys(u@)[m]);
                    } else {
                        assert(record_paths(out@)[before.len() as int] == keys(u@)[m]);
                    }
                }
                assert(out@[out@.len() - 1].path@ == pv);
            } else {
                assert forall|k: int, m: int| 0 <= k < out@.len() && i + 1 <= m < u@.len() implies path_lt(#[trigger] record_paths(out@)[k], #[trigger] keys(u@)[m]) by {
                    assert(path_lt(record_paths(out@)[k], keys(u@)[m]));
                }
            }
            i = i + 1;
        }
        proof {
            assert forall|p: Seq<Seq<u8>>| reported(ms, filter_dirs, p) implies #[trigger] record_paths(out@).contains(p) by {
                assert(keys(u@).contains(p));
                let m = choose|m: int| 0 <= m < keys(u@).len() && keys(u@)[m] == p;
                assert(reported(ms, filter_dirs, keys(u@)[m]));
            }
        }
        out
    }
}

} // verus!