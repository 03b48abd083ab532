//! Properties that hold of every comparison run.
use vstd::prelude::*;

use crate::diff::{
    differing_dir, in_union, record_paths, records_match, reported, row, row_differs,
    row_has_dir,
};
use crate::entry::{
    columns_differ, is_dir_column, lemma_columns_differ_symmetric, lemma_same_column_no_difference,
    Entry, FileKind,
};
use crate::path::{lemma_path_asymmetric, lemma_path_irreflexive, path_lt, strictly_sorted};

verus! {

/// Two strictly sorted sequences of paths with the same elements are equal.
pub proof fn lemma_sorted_same_elements(a: Seq<Seq<Seq<u8>>>, b: Seq<Seq<Seq<u8>>>)
    requires
        strictly_sorted(a),
        strictly_sorted(b),
        forall|x: Seq<Seq<u8>>| a.contains(x) <==> b.contains(x),
    ensures
        a == b,
    decreases a.len(),
{
    if a.len() == 0 {
        if b.len() > 0 {
            assert(b.contains(b[0]));
        }
        assert(a =~= b);
    } else {
        assert(a.contains(a[0]));
        assert(b.len() > 0);
        assert(b.contains(b[0]));
        let j = choose|j: int| 0 <= j < b.len() && b[j] == a[0];
        let i = choose|i: int| 0 <= i < a.len() && a[i] == b[0];
        if j > 0 && i > 0 {
            assert(path_lt(b[0], b[j]));
            assert(path_lt(a[0], a[i]));
            lemma_path_asymmetric(a[0], b[0]);
        } else if j > 0 {
            assert(path_lt(b[0], b[j]));
            lemma_path_irreflexive(a[0]);
        } else if i > 0 {
            assert(path_lt(a[0], a[i]));
            lemma_path_irreflexive(a[0]);
        }
        assert(a[0] == b[0]);
        let at = a.drop_first();
        let bt = b.drop_first();
        assert forall|x: Seq<Seq<u8>>| at.contains(x) <==> bt.contains(x) by {
            if at.contains(x) {
                let k = choose|k: int| 0 <= k < at.len() && at[k] == x;
                assert(path_lt(a[0], a[k + 1]));
                lemma_path_irreflexive(a[0]);
                assert(b.contains(x));
                let m = choose|m: int| 0 <= m < b.len() && b[m] == x;
                assert(m != 0);
                assert(bt[m - 1] == x);
            }
            if bt.contains(x) {
                let k = choose|k: int| 0 <= k < bt.len() && bt[k] == x;
                assert(path_lt(b[0], b[k + 1]));
                lemma_path_irreflexive(b[0]);
                assert(a.contains(x));
                let m = choose|m: int| 0 <= m < a.len() && a[m] == x;
                assert(m != 0);
                assert(at[m - 1] == x);
            }
        }
        assert forall|p: int, q: int| 0 <= p < q < at.len() implies path_lt(#[trigger] at[p], #[trigger] at[q]) by {
            assert(path_lt(a[p + 1], a[q + 1]));
        }
        assert forall|p: int, q: int| 0 <= p < q < bt.len() implies path_lt(#[trigger] bt[p], #[trigger] bt[q]) by {
            assert(path_lt(b[p + 1], b[q + 1]));
        }
        lemma_sorted_same_elements(at, bt);
        assert(a =~= seq![a[0]] + at);
        assert(b =~= seq![b[0]] + bt);
    }
}

/// The result of a run is determined by the trees and the filter switch:
/// two results that both meet the contract list the same paths with the
/// same rows.
pub proof fn lemma_records_determined(
    ms: Seq<Map<Seq<Seq<u8>>, Entry>>,
    filter: bool,
    r1: Seq<crate::diff::DiffRecord>,
    r2: Seq<crate::diff::DiffRecord>,
)
    requires
        records_match(ms, filter, r1),
        records_match(ms, filter, r2),
    ensures
        record_paths(r1) == record_paths(r2),
        r1.len() == r2.len(),
        forall|k: int| 0 <= k < r1.len() ==> #[trigger] r1[k].columns@ == r2[k].columns@,
{
    let a = record_paths(r1);
    let b = record_paths(r2);
    assert forall|x: Seq<Seq<u8>>| a.contains(x) <==> b.contains(x) by {
        if a.contains(x) {
            let k = choose|k: int| 0 <= k < a.len() && a[k] == x;
            assert(reported(ms, filter, r1[k].path@));
        }
        if b.contains(x) {
            let k = choose|k: int| 0 <= k < b.len() && b[k] == x;
            assert(reported(ms, filter, r2[k].path@));
        }
    }
    lemma_sorted_same_elements(a, b);
    assert(a.len() == r1.len() && b.len() == r2.len());
    assert forall|k: int| 0 <= k < r1.len() implies #[trigger] r1[k].columns@ == r2[k].columns@ by {
        assert(a[k] == b[k]);
        assert(r1[k].columns@ == row(ms, r1[k].path@));
        assert(r2[k].columns@ == row(ms, r2[k].path@));
    }
}

/// Trees that all record the same thing report no path: a root compared
/// with itself shows no difference.
pub proof fn lemma_identical_trees_report_nothing(
    ms: Seq<Map<Seq<Seq<u8>>, Entry>>,
    filter: bool,
    p: Seq<Seq<u8>>,
)
    requires
        forall|t: int| 0 <= t < ms.len() ==> #[trigger] ms[t] == ms[0],
    ensures
        !reported(ms, filter, p),
{
    if in_union(ms, p) {
        let r = row(ms, p);
        let w = choose|w: int| 0 <= w < ms.len() && #[trigger] ms[w].contains_key(p);
        assert(ms[w] == ms[0]);
        assert forall|t: int| 0 <= t < r.len() implies !(#[trigger] r[t] is None) by {
            assert(ms[t] == ms[0]);
        }
        assert forall|t: int| 0 <= t < r.len() - 1 implies !#[trigger] columns_differ(r[t], r[t + 1]) by {
            assert(ms[t] == ms[0]);
            assert(ms[t + 1] == ms[0]);
            lemma_same_column_no_difference(r[t]);
        }
    }
}

/// A path that the first tree records and the second lacks always has a
/// differing row; it is reported unless filtering is on and an ancestor of
/// it is a differing directory.
pub proof fn lemma_absent_path_differs(
    ms: Seq<Map<Seq<Seq<u8>>, Entry>>,
    filter: bool,
    p: Seq<Seq<u8>>,
)
    requires
        ms.len() >= 2,
        ms[0].contains_key(p),
        !ms[1].contains_key(p),
    ensures
        row_differs(row(ms, p)),
        reported(ms, filter, p) <==> !(filter && exists|q: Seq<Seq<u8>>|
            crate::path::is_ancestor(q, p) && #[trigger] differing_dir(ms, q)),
        !filter ==> reported(ms, filter, p),
{
    assert(ms[0].contains_key(p));
    assert(row(ms, p)[1] is None);
}

/// With filtering on, nothing below a directory whose row differs is
/// reported.
pub proof fn lemma_nothing_below_differing_dir(
    ms: Seq<Map<Seq<Seq<u8>>, Entry>>,
    dir: Seq<Seq<u8>>,
    p: Seq<Seq<u8>>,
)
    requires
        differing_dir(ms, dir),
        crate::path::is_ancestor(dir, p),
    ensures
        !reported(ms, true, p),
{
}

/// Two trees that both failed without detail at `p` show no difference
/// there; one such failure against inspected metadata is reported unless
/// an ancestor hides it.
pub proof fn lemma_entry_error_rows(
    ms: Seq<Map<Seq<Seq<u8>>, Entry>>,
    filter: bool,
    p: Seq<Seq<u8>>,
    k: FileKind,
    len: u64,
)
    requires
        ms.len() == 2,
        ms[0].contains_key(p),
        ms[0][p] == Entry::EntryError,
        ms[1].contains_key(p),
        ms[1][p] == Entry::EntryError || ms[1][p] == Entry::Metadata(k, len),
    ensures
        ms[1][p] == Entry::EntryError ==> !reported(ms, filter, p),
        ms[1][p] == Entry::Metadata(k, len) ==> row_differs(row(ms, p)),
{
    let r = row(ms, p);
    assert(r[0] == Some(ms[0][p]));
    assert(r[1] == Some(ms[1][p]));
    if ms[1][p] == Entry::Metadata(k, len) {
        assert(columns_differ(r[0int], r[0int + 1]));
    }
}

/// The trees in reverse order.
pub open spec fn reversed(ms: Seq<Map<Seq<Seq<u8>>, Entry>>) -> Seq<Map<Seq<Seq<u8>>, Entry>> {
    Seq::new(ms.len(), |t: int| ms[ms.len() - 1 - t])
}

proof fn lemma_reversed_row(ms: Seq<Map<Seq<Seq<u8>>, Entry>>, p: Seq<Seq<u8>>)
    ensures
        in_union(reversed(ms), p) == in_union(ms, p),
        row_differs(row(reversed(ms), p)) == row_differs(row(ms, p)),
        row_has_dir(row(reversed(ms), p)) == row_has_dir(row(ms, p)),
{
    let n = ms.len();
    let rs = reversed(ms);
    let a = row(ms, p);
    let b = row(rs, p);
    assert forall|t: int| 0 <= t < n implies #[trigger] b[t] == a[n - 1 - t] by {}
    if in_union(ms, p) {
        let w = choose|w: int| 0 <= w < n && #[trigger] ms[w].contains_key(p);
        assert(rs[n - 1 - w].contains_key(p));
    }
    if in_union(rs, p) {
        let w = choose|w: int| 0 <= w < n && #[trigger] rs[w].contains_key(p);
        assert(ms[n - 1 - w].contains_key(p));
    }
    if exists|t: int| 0 <= t < n && #[trigger] a[t] is None {
        let t = choose|t: int| 0 <= t < n && #[trigger] a[t] is None;
        assert(b[n - 1 - t] is None);
    }
    if exists|t: int| 0 <= t < n && #[trigger] b[t] is None {
        let t = choose|t: int| 0 <= t < n && #[trigger] b[t] is None;
        assert(a[n - 1 - t] is None);
    }
    if exists|t: int| 0 <= t < n - 1 && #[trigger] columns_differ(a[t], a[t + 1]) {
        let t = choose|t: int| 0 <= t < n - 1 && #[trigger] columns_differ(a[t], a[t + 1]);
        let s = n - 2 - t;
        assert(b[s] == a[t + 1] && b[s + 1] == a[t]);
        lemma_columns_differ_symmetric(a[t], a[t + 1]);
        assert(columns_differ(b[s], b[s + 1]));
    }
    if exists|t: int| 0 <= t < n - 1 && #[trigger] columns_differ(b[t], b[t + 1]) {
        let t = choose|t: int| 0 <= t < n - 1 && #[trigger] columns_differ(b[t], b[t + 1]);
        let s = n - 2 - t;
        assert(a[s] == b[t + 1] && a[s + 1] == b[t]);
        lemma_columns_differ_symmetric(b[t], b[t + 1]);
        assert(columns_differ(a[s], a[s + 1]));
    }
    if exists|t: int| 0 <= t < n && #[trigger] is_dir_column(a[t]) {
        let t = choose|t: int| 0 <= t < n && #[trigger] is_dir_column(a[t]);
        assert(is_dir_column(b[n - 1 - t]));
    }
    if exists|t: int| 0 <= t < n && #[trigger] is_dir_column(b[t]) {
        let t = choose|t: int| 0 <= t < n && #[trigger] is_dir_column(b[t]);
        assert(is_dir_column(a[n - 1 - t]));
    }
}

/// The order of the roots decides which trees are compared as neighbours
/// and the order of the columns; reversing it reports the same paths, each
/// with its columns reversed.
pub proof fn lemma_reversed_roots(ms: Seq<Map<Seq<Seq<u8>>, Entry>>, filter: bool, p: Seq<Seq<u8>>)
    ensures
        reported(reversed(ms), filter, p) == reported(ms, filter, p),
        row(reversed(ms), p) == Seq::new(ms.len(), |t: int| row(ms, p)[ms.len() - 1 - t]),
{
    lemma_reversed_row(ms, p);
    assert forall|q: Seq<Seq<u8>>| #[trigger] differing_dir(reversed(ms), q) == differing_dir(ms, q) by {
        lemma_reversed_row(ms, q);
    }
    if exists|q: Seq<Seq<u8>>| crate::path::is_ancestor(q, p) && #[trigger] differing_dir(ms, q) {
        let q = choose|q: Seq<Seq<u8>>| crate::path::is_ancestor(q, p) && #[trigger] differing_dir(ms, q);
        assert(differing_dir(reversed(ms), q));
    }
    if exists|q: Seq<Seq<u8>>| crate::path::is_ancestor(q, p) && #[trigger] differing_dir(reversed(ms), q) {
        let q = choose|q: Seq<Seq<u8>>| crate::path::is_ancestor(q, p) && #[trigger] differing_dir(reversed(ms), q);
        assert(differing_dir(ms, q));
    }
    assert(row(reversed(ms), p) =~= Seq::new(ms.len(), |t: int| row(ms, p)[ms.len() - 1 - t]));
}

} // verus!
