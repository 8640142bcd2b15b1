//! The file list of a merged backup, built from the file lists of the backups
//! that are merged (newest first).
use vstd::prelude::*;

use crate::files::FileInfo;
use crate::lists::{pairs_view, record_entries, FileListVec};
use crate::config::texts;
use crate::text::{
    copy_string, lemma_text_lt_asymmetric, lemma_text_lt_irreflexive, lemma_text_lt_transitive,
    lemma_text_trichotomy, str_equal, str_less, text_lt,
};

verus! {

/// Lists of entries (an included flag and a path), as views.
pub open spec fn lists_view(lists: Seq<Vec<(bool, String)>>) -> Seq<Seq<(bool, Seq<char>)>> {
    lists.map_values(|l: Vec<(bool, String)>| pairs_view(l@))
}

/// Each list has a position in it, at most its length.
pub open spec fn valid_cursors(lists: Seq<Seq<(bool, Seq<char>)>>, cur: Seq<int>) -> bool {
    &&& cur.len() == lists.len()
    &&& forall|k: int| 0 <= k < cur.len() ==> 0 <= #[trigger] cur[k] <= lists[k].len()
}

/// List `i` still has an entry at its position.
pub open spec fn has_head(lists: Seq<Seq<(bool, Seq<char>)>>, cur: Seq<int>, i: int) -> bool {
    0 <= i < lists.len() && 0 <= cur[i] < lists[i].len()
}

/// The least path at the positions of the first `i` lists (the first of equal ones).
pub open spec fn min_head(lists: Seq<Seq<(bool, Seq<char>)>>, cur: Seq<int>, i: int) -> Option<
    Seq<char>,
>
    decreases i,
{
    if i <= 0 {
        None
    } else {
        let m = min_head(lists, cur, i - 1);
        if has_head(lists, cur, i - 1) {
            let h = lists[i - 1][cur[i - 1]].1;
            match m {
                None => Some(h),
                Some(x) => if text_lt(h, x) {
                    Some(h)
                } else {
                    Some(x)
                },
            }
        } else {
            m
        }
    }
}

/// The path the next merged entry is for: the least path at the positions
/// of all lists (when keeping all files), else the next path of the newest list.
pub open spec fn pick(lists: Seq<Seq<(bool, Seq<char>)>>, cur: Seq<int>, all: bool) -> Option<
    Seq<char>,
> {
    if all {
        min_head(lists, cur, lists.len() as int)
    } else if has_head(lists, cur, 0) {
        Some(lists[0][cur[0]].1)
    } else {
        None
    }
}

/// The first position of a list, from `c` on, whose path does not come before `s`.
pub open spec fn skip_below(l: Seq<(bool, Seq<char>)>, c: int, s: Seq<char>) -> int
    decreases l.len() - c,
{
    if c < 0 || c >= l.len() {
        c
    } else if text_lt(l[c].1, s) {
        skip_below(l, c + 1, s)
    } else {
        c
    }
}

/// The position of a list after merging path `s`: past the entries before
/// `s`, and past an entry of `s` itself.
pub open spec fn step_cursor(l: Seq<(bool, Seq<char>)>, c: int, s: Seq<char>) -> int {
    let p = skip_below(l, c, s);
    if 0 <= p < l.len() && l[p].1 == s {
        p + 1
    } else {
        p
    }
}

/// Whether the list, from position `c` on (past the entries before `s`),
/// holds `s` marked as included.
pub open spec fn holds_included(l: Seq<(bool, Seq<char>)>, c: int, s: Seq<char>) -> bool {
    let p = skip_below(l, c, s);
    0 <= p < l.len() && l[p].1 == s && l[p].0
}

/// Whether one of the first `i` lists holds `s` marked as included (see `holds_included`).
pub open spec fn any_included(
    lists: Seq<Seq<(bool, Seq<char>)>>,
    cur: Seq<int>,
    s: Seq<char>,
    i: int,
) -> bool
    decreases i,
{
    if i <= 0 {
        false
    } else {
        any_included(lists, cur, s, i - 1) || holds_included(lists[i - 1], cur[i - 1], s)
    }
}

/// The positions after merging path `s` (see `step_cursor`).
pub open spec fn next_cursors(lists: Seq<Seq<(bool, Seq<char>)>>, cur: Seq<int>, s: Seq<char>) -> Seq<
    int,
> {
    Seq::new(
        cur.len(),
        |i: int|
            if 0 <= i < lists.len() {
                step_cursor(lists[i], cur[i], s)
            } else {
                cur[i]
            },
    )
}

pub proof fn lemma_skip_below_range(l: Seq<(bool, Seq<char>)>, c: int, s: Seq<char>)
    requires
        0 <= c <= l.len(),
    ensures
        c <= skip_below(l, c, s) <= l.len(),
        forall|j: int| c <= j < skip_below(l, c, s) ==> text_lt(#[trigger] l[j].1, s),
        skip_below(l, c, s) < l.len() ==> !text_lt(l[skip_below(l, c, s)].1, s),
    decreases l.len() - c,
{
    if c < l.len() && text_lt(l[c].1, s) {
        lemma_skip_below_range(l, c + 1, s);
    }
}

/// The number of entries of the first `i` lists not yet merged.
pub open spec fn remaining(lists: Seq<Seq<(bool, Seq<char>)>>, cur: Seq<int>, i: int) -> int
    decreases i,
{
    if i <= 0 {
        0
    } else {
        remaining(lists, cur, i - 1) + (lists[i - 1].len() - cur[i - 1])
    }
}

pub proof fn lemma_min_head_is_a_head(lists: Seq<Seq<(bool, Seq<char>)>>, cur: Seq<int>, i: int)
    requires
        0 <= i <= lists.len(),
    ensures
        min_head(lists, cur, i) matches Some(h) ==> exists|j: int|
            0 <= j < i && has_head(lists, cur, j) && #[trigger] lists[j][cur[j]].1 == h,
        min_head(lists, cur, i) is None ==> forall|j: int| 0 <= j < i ==> !has_head(lists, cur, j),
    decreases i,
{
    if i > 0 {
        lemma_min_head_is_a_head(lists, cur, i - 1);
    }
}

pub proof fn lemma_remaining_nonneg(lists: Seq<Seq<(bool, Seq<char>)>>, cur: Seq<int>, i: int)
    requires
        valid_cursors(lists, cur),
        0 <= i <= lists.len(),
    ensures
        remaining(lists, cur, i) >= 0,
    decreases i,
{
    if i > 0 {
        lemma_remaining_nonneg(lists, cur, i - 1);
    }
}

pub proof fn lemma_remaining_decreases(
    lists: Seq<Seq<(bool, Seq<char>)>>,
    cur: Seq<int>,
    next: Seq<int>,
    i: int,
    j: int,
)
    requires
        valid_cursors(lists, cur),
        valid_cursors(lists, next),
        0 <= i <= lists.len(),
        forall|k: int| 0 <= k < lists.len() ==> cur[k] <= #[trigger] next[k],
        0 <= j < i,
        cur[j] < next[j],
    ensures
        remaining(lists, next, i) < remaining(lists, cur, i),
    decreases i,
{
    if i - 1 > j {
        lemma_remaining_decreases(lists, cur, next, i - 1, j);
    } else {
        lemma_remaining_le(lists, cur, next, i - 1);
    }
}

pub proof fn lemma_remaining_le(
    lists: Seq<Seq<(bool, Seq<char>)>>,
    cur: Seq<int>,
    next: Seq<int>,
    i: int,
)
    requires
        valid_cursors(lists, cur),
        valid_cursors(lists, next),
        0 <= i <= lists.len(),
        forall|k: int| 0 <= k < lists.len() ==> cur[k] <= #[trigger] next[k],
    ensures
        remaining(lists, next, i) <= remaining(lists, cur, i),
    decreases i,
{
    if i > 0 {
        lemma_remaining_le(lists, cur, next, i - 1);
    }
}

/// Merging a path moves at least one list on and keeps the positions valid.
pub proof fn lemma_merge_step(
    lists: Seq<Seq<(bool, Seq<char>)>>,
    cur: Seq<int>,
    all: bool,
    s: Seq<char>,
)
    requires
        valid_cursors(lists, cur),
        pick(lists, cur, all) == Some(s),
    ensures
        valid_cursors(lists, next_cursors(lists, cur, s)),
        remaining(lists, next_cursors(lists, cur, s), lists.len() as int) < remaining(
            lists,
            cur,
            lists.len() as int,
        ),
{
    let next = next_cursors(lists, cur, s);
    let j = if all {
        lemma_min_head_is_a_head(lists, cur, lists.len() as int);
        choose|j: int|
            0 <= j < lists.len() && has_head(lists, cur, j) && #[trigger] lists[j][cur[j]].1 == s
    } else {
        0
    };
    assert(has_head(lists, cur, j));
    assert(lists[j][cur[j]].1 == s);
    lemma_text_lt_irreflexive(s);
    assert(skip_below(lists[j], cur[j], s) == cur[j]);
    assert(next[j] == cur[j] + 1);
    assert forall|k: int| 0 <= k < next.len() implies cur[k] <= #[trigger] next[k] <= lists[k].len() by {
        assert(0 <= cur[k] <= lists[k].len());
        lemma_skip_below_range(lists[k], cur[k], s);
    }
    assert forall|k: int| 0 <= k < lists.len() implies cur[k] <= #[trigger] next[k] by {}
    lemma_remaining_decreases(lists, cur, next, lists.len() as int, j);
}

/// The entries of the merged list from the given positions on: for each path
/// picked, whether a list holds it marked as included, and the path.
pub open spec fn merge_from(lists: Seq<Seq<(bool, Seq<char>)>>, cur: Seq<int>, all: bool) -> Seq<
    (bool, Seq<char>),
>
    decreases remaining(lists, cur, lists.len() as int),
{
    if !valid_cursors(lists, cur) {
        Seq::<(bool, Seq<char>)>::empty()
    } else {
        match pick(lists, cur, all) {
            None => Seq::<(bool, Seq<char>)>::empty(),
            Some(s) => {
                proof {
                    lemma_merge_step(lists, cur, all, s);
                    lemma_remaining_nonneg(lists, next_cursors(lists, cur, s), lists.len() as int);
                }
                seq![(any_included(lists, cur, s, lists.len() as int), s)] + merge_from(
                    lists,
                    next_cursors(lists, cur, s),
                    all,
                )
            },
        }
    }
}

/// The paths of entries.
pub open spec fn paths_of(entries: Seq<(bool, Seq<char>)>) -> Seq<Seq<char>> {
    entries.map_values(|e: (bool, Seq<char>)| e.1)
}

/// Keeping only the files of the newest backup, the merge from any positions
/// gives the paths of the newest list from its position on, in order.
pub proof fn lemma_merge_from_newest(lists: Seq<Seq<(bool, Seq<char>)>>, cur: Seq<int>)
    requires
        lists.len() >= 1,
        valid_cursors(lists, cur),
    ensures
        paths_of(merge_from(lists, cur, false)) == paths_of(lists[0].skip(cur[0])),
    decreases remaining(lists, cur, lists.len() as int),
{
    match pick(lists, cur, false) {
        None => {
            assert(lists[0].skip(cur[0]) =~= Seq::<(bool, Seq<char>)>::empty());
            assert(paths_of(merge_from(lists, cur, false)) =~= Seq::<Seq<char>>::empty());
        },
        Some(s) => {
            lemma_merge_step(lists, cur, false, s);
            lemma_remaining_nonneg(lists, next_cursors(lists, cur, s), lists.len() as int);
            let next = next_cursors(lists, cur, s);
            lemma_merge_from_newest(lists, next);
            lemma_text_lt_irreflexive(s);
            assert(skip_below(lists[0], cur[0], s) == cur[0]);
            assert(next[0] == cur[0] + 1);
            assert(lists[0].skip(cur[0]) =~= seq![lists[0][cur[0]]] + lists[0].skip(cur[0] + 1));
            assert(paths_of(merge_from(lists, cur, false)) =~= seq![s] + paths_of(
                merge_from(lists, next, false),
            ));
            assert(paths_of(lists[0].skip(cur[0])) =~= seq![s] + paths_of(
                lists[0].skip(cur[0] + 1),
            ));
        },
    }
}

/// A merge that keeps only the files of the newest backup holds exactly the
/// paths of the newest backup's list, in the same order.
pub proof fn lemma_merge_keeps_newest(lists: Seq<Seq<(bool, Seq<char>)>>)
    requires
        lists.len() >= 1,
    ensures
        paths_of(spec_merge(lists, false)) == paths_of(lists[0]),
{
    let cur = start_cursors(lists.len() as int);
    assert(valid_cursors(lists, cur));
    lemma_merge_from_newest(lists, cur);
    assert(lists[0].skip(0) =~= lists[0]);
}

/// A list of entries whose paths strictly increase.
pub open spec fn strictly_sorted_entries(l: Seq<(bool, Seq<char>)>) -> bool {
    forall|i: int, j: int| #![trigger l[i], l[j]] 0 <= i < j < l.len() ==> text_lt(l[i].1, l[j].1)
}

/// Some list holds path `n` at or after its position.
pub open spec fn some_holds(lists: Seq<Seq<(bool, Seq<char>)>>, cur: Seq<int>, n: Seq<char>) -> bool {
    exists|k: int, j: int|
        0 <= k < lists.len() && cur[k] <= j < lists[k].len() && (#[trigger] lists[k][j]).1 == n
}

/// Some list holds path `n`, marked as included, at or after its position.
pub open spec fn some_includes(lists: Seq<Seq<(bool, Seq<char>)>>, cur: Seq<int>, n: Seq<char>) -> bool {
    exists|k: int, j: int|
        0 <= k < lists.len() && cur[k] <= j < lists[k].len() && #[trigger] lists[k][j] == (true, n)
}

/// The paths of entries strictly increase.
pub open spec fn increasing_paths(m: Seq<(bool, Seq<char>)>) -> bool {
    forall|i: int, j: int| #![trigger m[i], m[j]] 0 <= i < j < m.len() ==> text_lt(m[i].1, m[j].1)
}

proof fn lemma_text_order(a: Seq<char>, b: Seq<char>)
    ensures
        text_lt(a, b) || a == b || text_lt(b, a),
        !(text_lt(a, b) && text_lt(b, a)),
        !text_lt(a, a),
{
    lemma_text_trichotomy(a, b);
    lemma_text_lt_asymmetric(a, b);
    lemma_text_lt_irreflexive(a);
}

proof fn lemma_any_included(lists: Seq<Seq<(bool, Seq<char>)>>, cur: Seq<int>, s: Seq<char>, i: int)
    requires
        0 <= i <= lists.len(),
    ensures
        any_included(lists, cur, s, i) <==> exists|k: int|
            0 <= k < i && #[trigger] holds_included(lists[k], cur[k], s),
    decreases i,
{
    if i > 0 {
        lemma_any_included(lists, cur, s, i - 1);
    }
}

/// The least path is at most every path at the positions.
proof fn lemma_min_head_least(lists: Seq<Seq<(bool, Seq<char>)>>, cur: Seq<int>, i: int)
    requires
        0 <= i <= lists.len(),
    ensures
        min_head(lists, cur, i) matches Some(x) ==> forall|j: int|
            0 <= j < i && has_head(lists, cur, j) ==> !text_lt(#[trigger] lists[j][cur[j]].1, x),
    decreases i,
{
    if i > 0 {
        lemma_min_head_least(lists, cur, i - 1);
        lemma_min_head_is_a_head(lists, cur, i - 1);
        if let Some(x) = min_head(lists, cur, i) {
            assert forall|j: int| 0 <= j < i && has_head(lists, cur, j) implies !text_lt(
                #[trigger] lists[j][cur[j]].1,
                x,
            ) by {
                let lj = lists[j][cur[j]].1;
                lemma_text_order(lj, x);
                if j < i - 1 {
                    let y = min_head(lists, cur, i - 1)->0;
                    assert(!text_lt(lj, y));
                    if has_head(lists, cur, i - 1) {
                        let h = lists[i - 1][cur[i - 1]].1;
                        lemma_text_order(h, y);
                        if text_lt(h, y) {
                            assert(x == h);
                            if text_lt(lj, h) {
                                lemma_text_lt_transitive(lj, h, y);
                            }
                        }
                    }
                } else {
                    let h = lj;
                    match min_head(lists, cur, i - 1) {
                        None => {},
                        Some(y) => {
                            lemma_text_order(h, y);
                        },
                    }
                }
            }
        }
    }
}

/// A path after `s` that a list holds at or after its position stays there
/// after the list moves on from `s`.
proof fn lemma_kept_after(l: Seq<(bool, Seq<char>)>, c: int, s: Seq<char>, j: int)
    requires
        0 <= c <= l.len(),
        c <= j < l.len(),
        text_lt(s, l[j].1),
    ensures
        step_cursor(l, c, s) <= j,
{
    lemma_skip_below_range(l, c, s);
    let p = skip_below(l, c, s);
    lemma_text_order(s, l[j].1);
    if j < p {
        assert(text_lt(l[j].1, s));
    }
}

/// In a list in order, the list holds `s` marked as included at or after
/// position `c` exactly when its entry for `s` is included; that entry is
/// where the list stops past the paths before `s`.
proof fn lemma_holds_included(l: Seq<(bool, Seq<char>)>, c: int, s: Seq<char>)
    requires
        0 <= c <= l.len(),
        strictly_sorted_entries(l),
    ensures
        holds_included(l, c, s) <==> exists|j: int| c <= j < l.len() && #[trigger] l[j] == (true, s),
        forall|j: int| c <= j < l.len() && (#[trigger] l[j]).1 == s ==> j == skip_below(l, c, s),
{
    lemma_skip_below_range(l, c, s);
    let p = skip_below(l, c, s);
    assert forall|j: int| c <= j < l.len() && (#[trigger] l[j]).1 == s implies j == p by {
        lemma_text_order(s, s);
        if j < p {
            assert(text_lt(l[j].1, s));
        } else if j > p {
            assert(text_lt(l[p].1, l[j].1));
        }
    }
    if exists|j: int| c <= j < l.len() && #[trigger] l[j] == (true, s) {
        let j = choose|j: int| c <= j < l.len() && #[trigger] l[j] == (true, s);
        assert(l[j].1 == s);
    }
}

/// Merging all files of lists in order, from any positions: the paths come
/// in strictly increasing order, and they are exactly the paths the lists
/// hold at or after their positions.
proof fn lemma_merge_all_from(lists: Seq<Seq<(bool, Seq<char>)>>, cur: Seq<int>)
    requires
        valid_cursors(lists, cur),
        forall|k: int| 0 <= k < lists.len() ==> strictly_sorted_entries(#[trigger] lists[k]),
    ensures
        increasing_paths(merge_from(lists, cur, true)),
        forall|n: Seq<char>|
            (exists|i: int|
                0 <= i < merge_from(lists, cur, true).len() && (#[trigger] merge_from(
                    lists,
                    cur,
                    true,
                )[i]).1 == n) <==> some_holds(lists, cur, n),
    decreases remaining(lists, cur, lists.len() as int),
{
    let m = merge_from(lists, cur, true);
    lemma_min_head_is_a_head(lists, cur, lists.len() as int);
    match pick(lists, cur, true) {
        None => {
            assert forall|n: Seq<char>| !some_holds(lists, cur, n) by {
                if some_holds(lists, cur, n) {
                    let (k, j) = choose|k: int, j: int|
                        0 <= k < lists.len() && cur[k] <= j < lists[k].len() && (#[trigger] lists[k][j]).1 == n;
                    assert(has_head(lists, cur, k));
                }
            }
        },
        Some(s) => {
            lemma_merge_step(lists, cur, true, s);
            let next = next_cursors(lists, cur, s);
            lemma_remaining_nonneg(lists, next, lists.len() as int);
            lemma_merge_all_from(lists, next);
            lemma_min_head_least(lists, cur, lists.len() as int);
            let rest = merge_from(lists, next, true);
            assert(m == seq![(any_included(lists, cur, s, lists.len() as int), s)] + rest);
            // Every path still held after moving on comes after `s`, and `s` is no longer held.
            assert forall|k: int, j: int|
                0 <= k < lists.len() && next[k] <= j < lists[k].len() implies text_lt(
                s,
                (#[trigger] lists[k][j]).1,
            ) by {
                let l = lists[k];
                lemma_skip_below_range(l, cur[k], s);
                assert(has_head(lists, cur, k));
                let h = l[cur[k]].1;
                assert(!text_lt(h, s));
                lemma_text_order(h, s);
                assert(skip_below(l, cur[k], s) == cur[k]);
                if j > cur[k] {
                    assert(text_lt(l[cur[k]].1, l[j].1));
                    if h == s {
                    } else {
                        lemma_text_lt_transitive(s, h, l[j].1);
                    }
                } else {
                    assert(h != s);
                }
            }
            assert forall|n: Seq<char>|
                (exists|i: int| 0 <= i < m.len() && (#[trigger] m[i]).1 == n) <==> some_holds(
                    lists,
                    cur,
                    n,
                ) by {
                if exists|i: int| 0 <= i < m.len() && (#[trigger] m[i]).1 == n {
                    let i = choose|i: int| 0 <= i < m.len() && (#[trigger] m[i]).1 == n;
                    if i == 0 {
                        let k = choose|k: int|
                            0 <= k < lists.len() && has_head(lists, cur, k) && #[trigger] lists[k][cur[k]].1 == s;
                        assert(lists[k][cur[k]].1 == n);
                    } else {
                        assert(rest[i - 1].1 == n);
                        assert(some_holds(lists, next, n));
                        let (k, j) = choose|k: int, j: int|
                            0 <= k < lists.len() && next[k] <= j < lists[k].len() && (#[trigger] lists[k][j]).1 == n;
                        lemma_skip_below_range(lists[k], cur[k], s);
                        assert(lists[k][j].1 == n);
                    }
                }
                if some_holds(lists, cur, n) {
                    let (k, j) = choose|k: int, j: int|
                        0 <= k < lists.len() && cur[k] <= j < lists[k].len() && (#[trigger] lists[k][j]).1 == n;
                    if n == s {
                        assert(m[0].1 == n);
                    } else {
                        assert(has_head(lists, cur, k));
                        let h = lists[k][cur[k]].1;
                        lemma_text_order(h, s);
                        lemma_skip_below_range(lists[k], cur[k], s);
                        assert(skip_below(lists[k], cur[k], s) == cur[k]);
                        if j == cur[k] {
                            assert(h != s);
                        }
                        assert(next[k] <= j);
                        assert(some_holds(lists, next, n));
                        let i = choose|i: int| 0 <= i < rest.len() && (#[trigger] rest[i]).1 == n;
                        assert(m[i + 1] == rest[i]);
                    }
                }
            }
            assert forall|a: int, b: int| #![trigger m[a], m[b]] 0 <= a < b < m.len() implies text_lt(
                m[a].1,
                m[b].1,
            ) by {
                assert(m[b] == rest[b - 1]);
                if a == 0 {
                    assert(exists|i: int| 0 <= i < rest.len() && (#[trigger] rest[i]).1 == m[b].1);
                    assert(some_holds(lists, next, m[b].1));
                } else {
                    assert(m[a] == rest[a - 1]);
                }
            }
        },
    }
}

/// The included marks of a merge of lists in order, from any positions,
/// whose paths increase: a path is marked included exactly when some list
/// holds it marked as included at or after its position.
proof fn lemma_merge_flags_from(lists: Seq<Seq<(bool, Seq<char>)>>, cur: Seq<int>, all: bool)
    requires
        valid_cursors(lists, cur),
        forall|k: int| 0 <= k < lists.len() ==> strictly_sorted_entries(#[trigger] lists[k]),
        increasing_paths(merge_from(lists, cur, all)),
    ensures
        forall|i: int|
            0 <= i < merge_from(lists, cur, all).len() ==> (#[trigger] merge_from(lists, cur, all)[i]).0
                == some_includes(lists, cur, merge_from(lists, cur, all)[i].1),
    decreases remaining(lists, cur, lists.len() as int),
{
    let m = merge_from(lists, cur, all);
    match pick(lists, cur, all) {
        None => {},
        Some(s) => {
            lemma_merge_step(lists, cur, all, s);
            let next = next_cursors(lists, cur, s);
            lemma_remaining_nonneg(lists, next, lists.len() as int);
            let rest = merge_from(lists, next, all);
            assert(m == seq![(any_included(lists, cur, s, lists.len() as int), s)] + rest);
            assert(increasing_paths(rest)) by {
                assert forall|a: int, b: int| #![trigger rest[a], rest[b]] 0 <= a < b < rest.len() implies text_lt(
                    rest[a].1,
                    rest[b].1,
                ) by {
                    assert(rest[a] == m[a + 1] && rest[b] == m[b + 1]);
                }
            }
            lemma_merge_flags_from(lists, next, all);
            lemma_any_included(lists, cur, s, lists.len() as int);
            assert forall|i: int| 0 <= i < m.len() implies (#[trigger] m[i]).0 == some_includes(
                lists,
                cur,
                m[i].1,
            ) by {
                if i == 0 {
                    if some_includes(lists, cur, s) {
                        let (k, j) = choose|k: int, j: int|
                            0 <= k < lists.len() && cur[k] <= j < lists[k].len() && #[trigger] lists[k][j] == (true, s);
                        lemma_holds_included(lists[k], cur[k], s);
                        assert(holds_included(lists[k], cur[k], s));
                    }
                    if any_included(lists, cur, s, lists.len() as int) {
                        let k = choose|k: int| 0 <= k < lists.len() && #[trigger] holds_included(lists[k], cur[k], s);
                        lemma_holds_included(lists[k], cur[k], s);
                        let j = choose|j: int| cur[k] <= j < lists[k].len() && #[trigger] lists[k][j] == (true, s);
                    }
                } else {
                    let n = m[i].1;
                    assert(m[i] == rest[i - 1]);
                    assert(text_lt(m[0].1, m[i].1));
                    if some_includes(lists, cur, n) {
                        let (k, j) = choose|k: int, j: int|
                            0 <= k < lists.len() && cur[k] <= j < lists[k].len() && #[trigger] lists[k][j] == (true, n);
                        lemma_kept_after(lists[k], cur[k], s, j);
                    }
                    if some_includes(lists, next, n) {
                        let (k, j) = choose|k: int, j: int|
                            0 <= k < lists.len() && next[k] <= j < lists[k].len() && #[trigger] lists[k][j] == (true, n);
                        lemma_skip_below_range(lists[k], cur[k], s);
                        assert(cur[k] <= j);
                    }
                }
            }
        },
    }
}

/// Merging all files of backups whose lists are in order (strictly
/// increasing paths) keeps every path of every list, once each, in order;
/// a path is marked included exactly when some list holds it marked as included.
pub proof fn lemma_merge_all_is_union(lists: Seq<Seq<(bool, Seq<char>)>>)
    requires
        forall|k: int| 0 <= k < lists.len() ==> strictly_sorted_entries(#[trigger] lists[k]),
    ensures
        increasing_paths(spec_merge(lists, true)),
        forall|n: Seq<char>|
            (exists|i: int|
                0 <= i < spec_merge(lists, true).len() && (#[trigger] spec_merge(lists, true)[i]).1
                    == n) <==> some_holds(lists, start_cursors(lists.len() as int), n),
        forall|i: int|
            0 <= i < spec_merge(lists, true).len() ==> (#[trigger] spec_merge(lists, true)[i]).0
                == some_includes(lists, start_cursors(lists.len() as int), spec_merge(lists, true)[i].1),
{
    let cur = start_cursors(lists.len() as int);
    assert(valid_cursors(lists, cur));
    lemma_merge_all_from(lists, cur);
    lemma_merge_flags_from(lists, cur, true);
}

/// Keeping only the files of the newest backup, with lists in order, a path
/// is marked included exactly when some list holds it marked as included.
pub proof fn lemma_merge_newest_flags(lists: Seq<Seq<(bool, Seq<char>)>>)
    requires
        lists.len() >= 1,
        forall|k: int| 0 <= k < lists.len() ==> strictly_sorted_entries(#[trigger] lists[k]),
    ensures
        forall|i: int|
            0 <= i < spec_merge(lists, false).len() ==> (#[trigger] spec_merge(lists, false)[i]).0
                == some_includes(lists, start_cursors(lists.len() as int), spec_merge(lists, false)[i].1),
{
    let cur = start_cursors(lists.len() as int);
    assert(valid_cursors(lists, cur));
    lemma_merge_from_newest(lists, cur);
    let m = spec_merge(lists, false);
    assert(lists[0].skip(0) =~= lists[0]);
    assert(paths_of(m).len() == m.len());
    assert(paths_of(lists[0]).len() == lists[0].len());
    assert(increasing_paths(m)) by {
        assert forall|a: int, b: int| #![trigger m[a], m[b]] 0 <= a < b < m.len() implies text_lt(
            m[a].1,
            m[b].1,
        ) by {
            assert(paths_of(m)[a] == m[a].1 && paths_of(m)[b] == m[b].1);
            assert(paths_of(lists[0])[a] == lists[0][a].1);
            assert(paths_of(lists[0])[b] == lists[0][b].1);
        }
    }
    lemma_merge_flags_from(lists, cur, false);
}

/// Every list at its start.
pub open spec fn start_cursors(n: int) -> Seq<int> {
    Seq::new(n as nat, |i: int| 0)
}

/// The merged list of entries.
pub open spec fn spec_merge(lists: Seq<Seq<(bool, Seq<char>)>>, all: bool) -> Seq<(bool, Seq<char>)> {
    merge_from(lists, start_cursors(lists.len() as int), all)
}

/// The cursors as integers.
pub open spec fn cursor_view(cur: Seq<usize>) -> Seq<int> {
    cur.map_values(|c: usize| c as int)
}

/// The path of the next merged entry.
fn pick_next(lists: &Vec<Vec<(bool, String)>>, cur: &Vec<usize>, all: bool) -> (r: Option<String>)
    requires
        valid_cursors(lists_view(lists@), cursor_view(cur@)),
    ensures
        r matches Some(s) ==> pick(lists_view(lists@), cursor_view(cur@), all) == Some(s@),
        r is None ==> pick(lists_view(lists@), cursor_view(cur@), all) is None,
{
    let ghost lv = lists_view(lists@);
    let ghost cv = cursor_view(cur@);
    if all {
        let mut best: Option<usize> = None;
        let mut i: usize = 0;
        while i < lists.len()
            invariant
                i <= lists@.len(),
                lv == lists_view(lists@),
                cv == cursor_view(cur@),
                valid_cursors(lv, cv),
                best matches Some(b) ==> b < i && has_head(lv, cv, b as int) && min_head(lv, cv, i as int)
                    == Some(lv[b as int][cv[b as int]].1),
                best is None ==> min_head(lv, cv, i as int) is None,
            decreases lists.len() - i,
        {
            assert(cv[i as int] == cur@[i as int]);
            assert(lv[i as int] == pairs_view(lists@[i as int]@));
            if cur[i] < lists[i].len() {
                assert(has_head(lv, cv, i as int));
                assert(lv[i as int][cv[i as int]].1 == lists@[i as int]@[cur@[i as int] as int].1@);
                match best {
                    None => {
                        best = Some(i);
                    },
                    Some(b) => {
                        assert(cv[b as int] == cur@[b as int]);
                        assert(lv[b as int] == pairs_view(lists@[b as int]@));
                        if str_less(lists[i][cur[i]].1.as_str(), lists[b][cur[b]].1.as_str()) {
                            best = Some(i);
                        }
                    },
                }
            }
            i = i + 1;
        }
        match best {
            None => None,
            Some(b) => {
                assert(cv[b as int] == cur@[b as int]);
                assert(lv[b as int] == pairs_view(lists@[b as int]@));
                Some(copy_string(lists[b][cur[b]].1.as_str()))
            },
        }
    } else {
        if lists.len() > 0 && cur[0] < lists[0].len() {
            assert(cv[0] == cur@[0]);
            assert(lv[0] == pairs_view(lists@[0]@));
            Some(copy_string(lists[0][cur[0]].1.as_str()))
        } else {
            assert(lists.len() > 0 ==> cv[0] == cur@[0] && lv[0] == pairs_view(lists@[0]@));
            None
        }
    }
}

/// Merges path `s`: whether a list holds it marked as included, and moves
/// each list past its entries before `s` and past `s` itself.
fn merge_step(lists: &Vec<Vec<(bool, String)>>, cur: &mut Vec<usize>, s: &String) -> (r: bool)
    requires
        valid_cursors(lists_view(lists@), cursor_view(old(cur)@)),
    ensures
        r == any_included(lists_view(lists@), cursor_view(old(cur)@), s@, lists@.len() as int),
        cursor_view(final(cur)@) == next_cursors(lists_view(lists@), cursor_view(old(cur)@), s@),
{
    let ghost lv = lists_view(lists@);
    let ghost c0 = cursor_view(cur@);
    let ghost target = next_cursors(lv, c0, s@);
    let mut inc = false;
    let mut i: usize = 0;
    while i < lists.len()
        invariant
            i <= lists@.len(),
            lv == lists_view(lists@),
            cur@.len() == lists@.len(),
            c0.len() == lists@.len(),
            valid_cursors(lv, c0),
            target == next_cursors(lv, c0, s@),
            inc == any_included(lv, c0, s@, i as int),
            forall|k: int| 0 <= k < i ==> (#[trigger] cur@[k]) as int == target[k],
            forall|k: int| i <= k < cur@.len() ==> (#[trigger] cur@[k]) as int == c0[k],
        decreases lists.len() - i,
    {
        let ghost l = lv[i as int];
        assert(l == pairs_view(lists@[i as int]@));
        assert(c0[i as int] == cur@[i as int]);
        let mut c = cur[i];
        let n = lists[i].len();
        while c < n && str_less(lists[i][c].1.as_str(), s.as_str())
            invariant
                c0[i as int] <= c <= n,
                i < lists@.len(),
                n == lists@[i as int]@.len(),
                n == l.len(),
                l == pairs_view(lists@[i as int]@),
                skip_below(l, c as int, s@) == skip_below(l, c0[i as int], s@),
            decreases n - c,
        {
            assert(l[c as int].1 == lists@[i as int]@[c as int].1@);
            c = c + 1;
        }
        assert(skip_below(l, c as int, s@) == c) by {
            if c < n {
                assert(l[c as int].1 == lists@[i as int]@[c as int].1@);
            }
        }
        if c < n && str_equal(lists[i][c].1.as_str(), s.as_str()) {
            assert(l[c as int] == (lists@[i as int]@[c as int].0, lists@[i as int]@[c as int].1@));
            inc = inc || lists[i][c].0;
            c = c + 1;
        } else {
            assert(c < n ==> l[c as int].1 == lists@[i as int]@[c as int].1@);
        }
        cur.set(i, c);
        i = i + 1;
    }
    assert(cursor_view(cur@) =~= target);
    inc
}

/// Merges lists of entries, newest list first: when keeping all files, the
/// least path at the positions of all lists is taken next, else the next
/// path of the newest list; every list moves past its entries before that
/// path and past that path itself, and the path is included when a list
/// holds it marked as included.
pub fn merge_lists(lists: &Vec<Vec<(bool, String)>>, all: bool) -> (r: FileListVec)
    ensures
        record_entries(r.items()) == spec_merge(lists_view(lists@), all),
{
    let ghost lv = lists_view(lists@);
    let mut cur: Vec<usize> = Vec::new();
    let mut k: usize = 0;
    while k < lists.len()
        invariant
            k <= lists@.len(),
            cur@.len() == k,
            forall|j: int| 0 <= j < k ==> #[trigger] cur@[j] == 0,
        decreases lists.len() - k,
    {
        cur.push(0);
        k = k + 1;
    }
    assert(cursor_view(cur@) =~= start_cursors(lv.len() as int));
    let mut files = FileListVec::new();
    loop
        invariant
            lv == lists_view(lists@),
            valid_cursors(lv, cursor_view(cur@)),
            record_entries(files.items()) + merge_from(lv, cursor_view(cur@), all) == spec_merge(
                lv,
                all,
            ),
        ensures
            record_entries(files.items()) == spec_merge(lv, all),
        decreases remaining(lv, cursor_view(cur@), lv.len() as int),
    {
        let ghost cv = cursor_view(cur@);
        match pick_next(lists, &cur, all) {
            None => {
                assert(merge_from(lv, cv, all) =~= Seq::<(bool, Seq<char>)>::empty());
                assert(record_entries(files.items()) =~= spec_merge(lv, all));
                break ;
            },
            Some(s) => {
                proof {
                    lemma_merge_step(lv, cv, all, s@);
                    lemma_remaining_nonneg(lv, next_cursors(lv, cv, s@), lv.len() as int);
                }
                let inc = merge_step(lists, &mut cur, &s);
                let ghost prev = files.items();
                files.push(inc, FileInfo::from_string(s));
                assert(record_entries(files.items()) =~= record_entries(prev).push((inc, s@)));
                assert(merge_from(lv, cv, all) =~= seq![(inc, s@)] + merge_from(
                    lv,
                    cursor_view(cur@),
                    all,
                ));
                assert(record_entries(files.items()) + merge_from(lv, cursor_view(cur@), all)
                    =~= record_entries(prev) + merge_from(lv, cv, all));
            },
        }
    }
    files
}

/// What to do with the next entry of the archive being searched while the
/// files of a merged backup are copied from the merged archives.
#[derive(PartialEq, Eq, Structural, Debug, Clone, Copy)]
pub enum CopyStep {
    /// The entry comes before the file: pass over it.
    Skip,
    /// The entry is the file: copy it; the search goes on with the next file.
    Take,
    /// The entry comes after the file, or the archive has no entries left:
    /// search the next archive (the next file after the last archive).
    NextArchive,
}

/// The search for the files of a merged backup in the archives merged (newest
/// first), each read once from start to end: for each file in order, each
/// archive in turn is read up to the file; the first archive that holds it
/// gives it.
pub struct CopyWalk {
    pub files: Vec<String>,
    pub file: usize,
    pub archive: usize,
    pub archives: usize,
}

/// The walk's state is consistent.
pub open spec fn walk_ok(w: CopyWalk) -> bool {
    &&& w.archives > 0
    &&& w.file <= w.files@.len()
    &&& w.archive < w.archives
}

impl CopyWalk {
    /// Starts with the first file, in the first archive.
    pub fn start(files: Vec<String>, archives: usize) -> (r: Self)
        requires
            archives > 0,
        ensures
            walk_ok(r),
            r.files == files,
            r.file == 0,
            r.archive == 0,
            r.archives == archives,
    {
        CopyWalk { files, file: 0, archive: 0, archives }
    }

    /// Whether every file has been searched for.
    pub fn is_done(&self) -> (r: bool)
        ensures
            r == (self.file == self.files@.len()),
    {
        self.file == self.files.len()
    }

    /// The archive to read the next entry of.
    pub fn current_archive(&self) -> (r: usize)
        ensures
            r == self.archive,
    {
        self.archive
    }

    /// Decides on the next entry (by its path) of the current archive, or
    /// on its end (`None`), and moves on.
    pub fn on_entry(&mut self, entry: Option<&str>) -> (r: CopyStep)
        requires
            walk_ok(*old(self)),
            old(self).file < old(self).files@.len(),
        ensures
            walk_ok(*final(self)),
            final(self).files == old(self).files,
            final(self).archives == old(self).archives,
            ({
                let f = old(self).files@[old(self).file as int]@;
                match entry {
                    Some(e) => if text_lt(e@, f) {
                        r == CopyStep::Skip
                    } else if e@ == f {
                        r == CopyStep::Take
                    } else {
                        r == CopyStep::NextArchive
                    },
                    None => r == CopyStep::NextArchive,
                }
            }),
            r == CopyStep::Skip ==> final(self).file == old(self).file && final(self).archive
                == old(self).archive,
            r == CopyStep::Take ==> final(self).file == old(self).file + 1 && final(self).archive
                == 0,
            r == CopyStep::NextArchive ==> if old(self).archive + 1 < old(self).archives {
                final(self).file == old(self).file && final(self).archive == old(self).archive + 1
            } else {
                final(self).file == old(self).file + 1 && final(self).archive == 0
            },
    {
        let n = self.files.len();
        assert(self.file < n);
        let step = match entry {
            None => CopyStep::NextArchive,
            Some(e) => {
                let f = self.files[self.file].as_str();
                if str_less(e, f) {
                    CopyStep::Skip
                } else if str_equal(e, f) {
                    CopyStep::Take
                } else {
                    CopyStep::NextArchive
                }
            },
        };
        match step {
            CopyStep::Skip => {},
            CopyStep::Take => {
                self.file = self.file + 1;
                self.archive = 0;
            },
            CopyStep::NextArchive => {
                if self.archive + 1 < self.archives {
                    self.archive = self.archive + 1;
                } else {
                    self.file = self.file + 1;
                    self.archive = 0;
                }
            },
        }
        step
    }
}

} // verus!
