//! Grouping of tabulated rows by an ordering key.
//!
//! Tables such as the cross curves of stability arrive as flat rows and are
//! split into nested series: by trim, then by draught. A key here is an
//! integer that orders the rows exactly as the measured value does, so the
//! grouping below is a stable sort followed by the merging of runs with equal
//! keys.
use vstd::prelude::*;

verus! {

/// The payloads of the rows whose key is `key`, in the order of the rows.
pub open spec fn values_with_key<T>(items: Seq<(u64, T)>, key: u64) -> Seq<T>
    decreases items.len(),
{
    if items.len() == 0 {
        Seq::empty()
    } else {
        let rest = values_with_key(items.drop_last(), key);
        if items.last().0 == key {
            rest.push(items.last().1)
        } else {
            rest
        }
    }
}

/// Some row has the key `key`.
pub open spec fn has_key<T>(items: Seq<(u64, T)>, key: u64) -> bool {
    exists|j: int| 0 <= j < items.len() && #[trigger] items[j].0 == key
}

/// The keys of the groups increase strictly.
pub open spec fn keys_ascending<T>(groups: Seq<(u64, Vec<T>)>) -> bool {
    forall|i: int, j: int| 0 <= i < j < groups.len() ==> groups[i].0 < groups[j].0
}

/// `groups` is the grouping of `items`: one group for each key that occurs,
/// in ascending key order, each holding the payloads of that key in row order.
pub open spec fn is_grouping<T>(items: Seq<(u64, T)>, groups: Seq<(u64, Vec<T>)>) -> bool {
    &&& keys_ascending(groups)
    &&& forall|i: int|
        0 <= i < groups.len() ==> #[trigger] groups[i].1@ == values_with_key(items, groups[i].0)
    &&& forall|k: u64| has_key(items, k) <==> exists|i: int| 0 <= i < groups.len() && #[trigger] groups[i].0 == k
}

/// The number of payloads held by all groups together.
pub open spec fn total_len<K, T>(groups: Seq<(K, Vec<T>)>) -> nat
    decreases groups.len(),
{
    if groups.len() == 0 {
        0
    } else {
        groups[0].1@.len() + total_len(groups.drop_first())
    }
}

proof fn lemma_total_len_insert<K, T>(groups: Seq<(K, Vec<T>)>, pos: int, g: (K, Vec<T>))
    requires
        0 <= pos <= groups.len(),
    ensures
        total_len(groups.insert(pos, g)) == total_len(groups) + g.1.len(),
    decreases pos,
{
    if pos == 0 {
        assert(groups.insert(pos, g).drop_first() =~= groups);
    } else {
        lemma_total_len_insert(groups.drop_first(), pos - 1, g);
        assert(groups.insert(pos, g).drop_first() =~= groups.drop_first().insert(pos - 1, g));
    }
}

proof fn lemma_total_len_update<K, T>(groups: Seq<(K, Vec<T>)>, pos: int, g: (K, Vec<T>))
    requires
        0 <= pos < groups.len(),
    ensures
        total_len(groups.update(pos, g)) + groups[pos].1.len() == total_len(groups) + g.1.len(),
    decreases pos,
{
    if pos == 0 {
        assert(groups.update(pos, g).drop_first() =~= groups.drop_first());
    } else {
        lemma_total_len_update(groups.drop_first(), pos - 1, g);
        assert(groups.update(pos, g).drop_first() =~= groups.drop_first().update(pos - 1, g));
    }
}

proof fn lemma_no_key_no_values<T>(items: Seq<(u64, T)>, key: u64)
    requires
        !has_key(items, key),
    ensures
        values_with_key(items, key) == Seq::<T>::empty(),
    decreases items.len(),
{
    if items.len() > 0 {
        let p = items.drop_last();
        assert(!has_key(p, key)) by {
            if has_key(p, key) {
                let j = choose|j: int| 0 <= j < p.len() && #[trigger] p[j].0 == key;
                assert(items[j].0 == key);
            }
        }
        lemma_no_key_no_values(p, key);
        assert(items[items.len() - 1].0 != key);
    }
}

/// One step of the grouping: what adding the row `x` after `p` does to the
/// payloads of every key and to the set of keys present.
pub proof fn lemma_push_row<T>(p: Seq<(u64, T)>, x: (u64, T))
    ensures
        forall|k: u64|
            #[trigger] values_with_key(p.push(x), k) == (if x.0 == k {
                values_with_key(p, k).push(x.1)
            } else {
                values_with_key(p, k)
            }),
        forall|k: u64| #[trigger] has_key(p.push(x), k) <==> (has_key(p, k) || x.0 == k),
{
    let q = p.push(x);
    assert(q.drop_last() =~= p);
    assert forall|k: u64| #[trigger] has_key(q, k) <==> (has_key(p, k) || x.0 == k) by {
        if has_key(p, k) {
            let j = choose|j: int| 0 <= j < p.len() && #[trigger] p[j].0 == k;
            assert(q[j].0 == k);
        }
        if x.0 == k {
            assert(q[p.len() as int].0 == k);
        }
        if has_key(q, k) && x.0 != k {
            let j = choose|j: int| 0 <= j < q.len() && #[trigger] q[j].0 == k;
            assert(j < p.len());
            assert(p[j].0 == k);
        }
    }
}

/// Groups the rows by key: a stable sort by key followed by merging the runs
/// of equal keys. Each group keeps the payloads of its key in the order in
/// which the rows came.
pub fn group_by_key<T>(items: Vec<(u64, T)>) -> (groups: Vec<(u64, Vec<T>)>)
    ensures
        is_grouping(items@, groups@),
        forall|i: int| 0 <= i < groups.len() ==> #[trigger] groups[i].1.len() > 0,
        total_len(groups@) == items.len(),
{
    let ghost all = items@;
    let mut groups: Vec<(u64, Vec<T>)> = Vec::new();
    let mut rest = items;
    let mut done: usize = 0;
    let n = rest.len();
    proof {
        assert(all.len() == n);
        assert(all.subrange(0, 0) =~= Seq::<(u64, T)>::empty());
    }
    while rest.len() > 0
        invariant
            done + rest.len() == all.len(),
            all.len() <= usize::MAX,
            rest@ =~= all.subrange(done as int, all.len() as int),
            is_grouping(all.subrange(0, done as int), groups@),
            forall|i: int| 0 <= i < groups.len() ==> #[trigger] groups[i].1.len() > 0,
            total_len(groups@) == done,
        decreases rest.len(),
    {
        let ghost p = all.subrange(0, done as int);
        let ghost old_groups = groups@;
        let (k, v) = rest.remove(0);
        let ghost x = (k, v);
        proof {
            assert(x == all[done as int]);
            assert(all.subrange(0, done + 1) =~= p.push(x));
            lemma_push_row(p, x);
        }
        let mut pos: usize = 0;
        while pos < groups.len() && groups[pos].0 < k
            invariant
                pos <= groups.len(),
                groups@ == old_groups,
                forall|i: int| 0 <= i < pos ==> #[trigger] groups[i].0 < k,
            decreases groups.len() - pos,
        {
            pos = pos + 1;
        }
        if pos < groups.len() && groups[pos].0 == k {
            let (gk, mut gv) = groups.remove(pos);
            let ghost removed = groups@;
            gv.push(v);
            groups.insert(pos, (gk, gv));
            proof {
                let np = p.push(x);
                assert(groups@ =~= old_groups.update(pos as int, (gk, gv)));
                lemma_total_len_update(old_groups, pos as int, (gk, gv));
                assert forall|i: int| 0 <= i < groups.len() implies #[trigger] groups[i].1@
                    == values_with_key(np, groups[i].0) by {
                    if i != pos {
                        assert(groups[i] == old_groups[i]);
                        assert(old_groups[i].0 != k);
                    }
                }
                assert forall|kk: u64| has_key(np, kk) <==> exists|i: int|
                    0 <= i < groups.len() && #[trigger] groups[i].0 == kk by {
                    if has_key(np, kk) {
                        if kk == k {
                            assert(groups[pos as int].0 == kk);
                        } else {
                            assert(has_key(p, kk));
                            let i = choose|i: int| 0 <= i < old_groups.len() && #[trigger] old_groups[i].0 == kk;
                            assert(groups[i].0 == kk);
                        }
                    }
                    if exists|i: int| 0 <= i < groups.len() && #[trigger] groups[i].0 == kk {
                        let i = choose|i: int| 0 <= i < groups.len() && #[trigger] groups[i].0 == kk;
                        assert(old_groups[i].0 == kk);
                    }
                }
            }
        } else {
            let mut gv: Vec<T> = Vec::new();
            gv.push(v);
            groups.insert(pos, (k, gv));
            proof {
                let np = p.push(x);
                let ng = (k, gv);
                assert(!has_key(p, k)) by {
                    if has_key(p, k) {
                        let i = choose|i: int| 0 <= i < old_groups.len() && #[trigger] old_groups[i].0 == k;
                        if i < pos {
                        } else {
                            assert(old_groups[pos as int].0 <= old_groups[i].0);
                        }
                    }
                }
                lemma_no_key_no_values(p, k);
                assert(values_with_key(np, k) =~= gv@);
                lemma_total_len_insert(old_groups, pos as int, ng);
                assert(groups@ =~= old_groups.insert(pos as int, ng));
                assert forall|i: int, j: int| 0 <= i < j < groups.len() implies groups[i].0
                    < groups[j].0 by {
                    if pos < old_groups.len() {
                        assert(old_groups[pos as int].0 > k);
                    }
                    if j < pos {
                    } else if j == pos {
                    } else if i < pos {
                        assert(old_groups[i].0 < k);
                        if pos < j - 1 {
                            assert(old_groups[pos as int].0 < old_groups[j - 1].0);
                        }
                    } else if i == pos {
                        if pos < j - 1 {
                            assert(old_groups[pos as int].0 < old_groups[j - 1].0);
                        }
                    } else {
                        assert(old_groups[i - 1].0 < old_groups[j - 1].0);
                    }
                }
                assert forall|i: int| 0 <= i < groups.len() implies #[trigger] groups[i].1@
                    == values_with_key(np, groups[i].0) by {
                    if i < pos {
                        assert(groups[i] == old_groups[i]);
                    } else if i > pos {
                        assert(groups[i] == old_groups[i - 1]);
                        if pos < old_groups.len() {
                            assert(old_groups[pos as int].0 > k);
                            if pos < i - 1 {
                                assert(old_groups[pos as int].0 < old_groups[i - 1].0);
                            }
                        }
                    }
                }
                assert forall|i: int| 0 <= i < groups.len() implies #[trigger] groups[i].1.len()
                    > 0 by {
                    if i < pos {
                        assert(groups[i] == old_groups[i]);
                    } else if i > pos {
                        assert(groups[i] == old_groups[i - 1]);
                    }
                }
                assert forall|kk: u64| has_key(np, kk) <==> exists|i: int|
                    0 <= i < groups.len() && #[trigger] groups[i].0 == kk by {
                    if has_key(np, kk) {
                        if kk == k {
                            assert(groups[pos as int].0 == kk);
                        } else {
                            assert(has_key(p, kk));
                            let i = choose|i: int| 0 <= i < old_groups.len() && #[trigger] old_groups[i].0 == kk;
                            if i < pos {
                                assert(groups[i].0 == kk);
                            } else {
                                assert(groups[i + 1].0 == kk);
                            }
                        }
                    }
                    if exists|i: int| 0 <= i < groups.len() && #[trigger] groups[i].0 == kk {
                        let i = choose|i: int| 0 <= i < groups.len() && #[trigger] groups[i].0 == kk;
                        if i < pos {
                            assert(old_groups[i].0 == kk);
                        } else if i > pos {
                            assert(old_groups[i - 1].0 == kk);
                        }
                    }
                }
            }
        }
        done = done + 1;
        proof {
            assert(rest@ =~= all.subrange(done as int, all.len() as int));
        }
    }
    proof {
        assert(all.subrange(0, done as int) =~= all);
    }
    groups
}

/// The rows of a two-level table seen as rows keyed by the first key.
pub open spec fn outer_rows<T>(data: Seq<(u64, u64, T)>) -> Seq<(u64, (u64, T))> {
    data.map_values(|r: (u64, u64, T)| (r.0, (r.1, r.2)))
}

/// `series` is the two-level grouping of `data`: grouped by the first key, and
/// within each group by the second key.
pub open spec fn is_nested_grouping<T>(
    data: Seq<(u64, u64, T)>,
    series: Seq<(u64, Vec<(u64, Vec<T>)>)>,
) -> bool {
    let rows = outer_rows(data);
    &&& forall|i: int, j: int| 0 <= i < j < series.len() ==> series[i].0 < series[j].0
    &&& forall|k: u64| has_key(rows, k) <==> exists|i: int| 0 <= i < series.len() && #[trigger] series[i].0 == k
    &&& forall|i: int|
        0 <= i < series.len() ==> is_grouping(
            values_with_key(rows, series[i].0),
            #[trigger] series[i].1@,
        )
    &&& forall|i: int, j: int|
        0 <= i < series.len() && 0 <= j < series[i].1.len() ==> #[trigger] series[i].1[j].1.len() > 0
}

/// Splits rows `(draught, payload)` into series by draught, in ascending
/// draught order; each series keeps its payloads in row order.
pub fn sort_by_draught<T>(data: Vec<(u64, T)>) -> (series: Vec<(u64, Vec<T>)>)
    ensures
        is_grouping(data@, series@),
        forall|i: int| 0 <= i < series.len() ==> #[trigger] series[i].1.len() > 0,
        total_len(series@) == data.len(),
{
    group_by_key(data)
}

/// Splits rows `(trim, draught, payload)` into series by trim, in ascending
/// trim order, and each of those into series by draught.
pub fn sort_by_trim<T>(data: Vec<(u64, u64, T)>) -> (series: Vec<(u64, Vec<(u64, Vec<T>)>)>)
    ensures
        is_nested_grouping(data@, series@),
{
    let ghost all = data@;
    let n = data.len();
    let mut rest = data;
    let mut rows: Vec<(u64, (u64, T))> = Vec::new();
    while rest.len() > 0
        invariant
            rows.len() + rest.len() == n,
            n == all.len(),
            rest@ =~= all.subrange(rows.len() as int, all.len() as int),
            forall|i: int| 0 <= i < rows.len() ==> #[trigger] rows[i] == (all[i].0, (all[i].1, all[i].2)),
        decreases rest.len(),
    {
        let ghost at = rows.len() as int;
        let (a, b, c) = rest.remove(0);
        proof {
            assert((a, b, c) == all[at]);
        }
        rows.push((a, (b, c)));
        proof {
            assert(rest@ =~= all.subrange(rows.len() as int, all.len() as int));
        }
    }
    proof {
        assert(rows@ =~= outer_rows(all));
    }
    let ghost rows_all = rows@;
    let mut groups = group_by_key(rows);
    let ghost gs = groups@;
    let m = groups.len();
    let mut series: Vec<(u64, Vec<(u64, Vec<T>)>)> = Vec::new();
    while groups.len() > 0
        invariant
            series.len() + groups.len() == m,
            m == gs.len(),
            groups@ =~= gs.subrange(series.len() as int, gs.len() as int),
            is_grouping(rows_all, gs),
            forall|i: int| 0 <= i < series.len() ==> #[trigger] series[i].0 == gs[i].0,
            forall|i: int| 0 <= i < series.len() ==> is_grouping(gs[i].1@, #[trigger] series[i].1@),
            forall|i: int, j: int|
                0 <= i < series.len() && 0 <= j < series[i].1.len() ==> #[trigger] series[i].1[j].1.len() > 0,
        decreases groups.len(),
    {
        let ghost at = series.len() as int;
        let ghost prev = series@;
        let (k, g) = groups.remove(0);
        proof {
            assert((k, g) == gs[at]);
        }
        let inner = sort_by_draught(g);
        series.push((k, inner));
        proof {
            assert(groups@ =~= gs.subrange(series.len() as int, gs.len() as int));
            assert forall|i: int| 0 <= i < series.len() implies is_grouping(gs[i].1@, #[trigger] series[i].1@) by {
                if i < at {
                    assert(series[i] == prev[i]);
                }
            }
        }
    }
    proof {
        let rows = outer_rows(all);
        assert(rows_all == rows);
        assert forall|k: u64| has_key(rows, k) <==> exists|i: int| 0 <= i < series.len() && #[trigger] series[i].0 == k by {
            if has_key(rows, k) {
                let i = choose|i: int| 0 <= i < gs.len() && #[trigger] gs[i].0 == k;
                assert(series[i].0 == k);
            }
            if exists|i: int| 0 <= i < series.len() && #[trigger] series[i].0 == k {
                let i = choose|i: int| 0 <= i < series.len() && #[trigger] series[i].0 == k;
                assert(gs[i].0 == k);
            }
        }
        assert forall|i: int| 0 <= i < series.len() implies is_grouping(
            values_with_key(rows, series[i].0),
            #[trigger] series[i].1@,
        ) by {
            assert(gs[i].1@ == values_with_key(rows_all, gs[i].0));
        }
        assert forall|i: int, j: int| 0 <= i < j < series.len() implies series[i].0 < series[j].0 by {
            assert(gs[i].0 < gs[j].0);
        }
    }
    series
}

/// The distinct codes of the rows, in the order of their first appearance.
pub open spec fn codes_in_order<T>(items: Seq<(String, T)>) -> Seq<Seq<char>>
    decreases items.len(),
{
    if items.len() == 0 {
        Seq::empty()
    } else {
        let rest = codes_in_order(items.drop_last());
        if rest.contains(items.last().0@) {
            rest
        } else {
            rest.push(items.last().0@)
        }
    }
}

/// The payloads of the rows whose code is `code`, in row order.
pub open spec fn values_with_code<T>(items: Seq<(String, T)>, code: Seq<char>) -> Seq<T>
    decreases items.len(),
{
    if items.len() == 0 {
        Seq::empty()
    } else {
        let rest = values_with_code(items.drop_last(), code);
        if items.last().0@ == code {
            rest.push(items.last().1)
        } else {
            rest
        }
    }
}

/// Collects the rows of each code: one group per code, in the order in which
/// the codes first appear, each keeping its payloads in row order.
pub fn group_by_code<T>(items: Vec<(String, T)>) -> (groups: Vec<(String, Vec<T>)>)
    ensures
        groups.len() == codes_in_order(items@).len(),
        forall|i: int|
            0 <= i < groups.len() ==> (#[trigger] groups[i].0)@ == codes_in_order(items@)[i],
        forall|i: int|
            0 <= i < groups.len() ==> #[trigger] groups[i].1@ == values_with_code(items@, groups[i].0@),
        forall|i: int| 0 <= i < groups.len() ==> #[trigger] groups[i].1.len() > 0,
        total_len(groups@) == items.len(),
{
    let ghost all = items@;
    let n = items.len();
    let mut groups: Vec<(String, Vec<T>)> = Vec::new();
    let mut rest = items;
    let mut done: usize = 0;
    proof {
        assert(all.subrange(0, 0) =~= Seq::<(String, T)>::empty());
    }
    while rest.len() > 0
        invariant
            done + rest.len() == n,
            n == all.len(),
            rest@ =~= all.subrange(done as int, all.len() as int),
            groups.len() == codes_in_order(all.subrange(0, done as int)).len(),
            forall|i: int|
                0 <= i < groups.len() ==> (#[trigger] groups[i].0)@ == codes_in_order(
                    all.subrange(0, done as int),
                )[i],
            forall|i: int|
                0 <= i < groups.len() ==> #[trigger] groups[i].1@ == values_with_code(
                    all.subrange(0, done as int),
                    groups[i].0@,
                ),
            forall|i: int| 0 <= i < groups.len() ==> #[trigger] groups[i].1.len() > 0,
            total_len(groups@) == done,
        decreases rest.len(),
    {
        let ghost p = all.subrange(0, done as int);
        let ghost codes = codes_in_order(p);
        let ghost old_groups = groups@;
        let (k, v) = rest.remove(0);
        let ghost x = (k, v);
        let ghost np = p.push(x);
        proof {
            assert(x == all[done as int]);
            assert(all.subrange(0, done + 1) =~= np);
            assert(np.drop_last() =~= p);
        }
        let mut pos: usize = 0;
        while pos < groups.len() && !(groups[pos].0 == k)
            invariant
                pos <= groups.len(),
                groups@ == old_groups,
                forall|i: int| 0 <= i < pos ==> (#[trigger] groups[i].0)@ != k@,
            decreases groups.len() - pos,
        {
            pos = pos + 1;
        }
        if pos < groups.len() {
            let (gk, mut gv) = groups.remove(pos);
            gv.push(v);
            groups.insert(pos, (gk, gv));
            proof {
                assert(codes[pos as int] == k@);
                assert(codes.contains(k@));
                assert(codes_in_order(np) == codes);
                assert(groups@ =~= old_groups.update(pos as int, (gk, gv)));
                lemma_total_len_update(old_groups, pos as int, (gk, gv));
                assert forall|i: int| 0 <= i < groups.len() implies #[trigger] groups[i].1@
                    == values_with_code(np, groups[i].0@) by {
                    if i != pos {
                        assert(groups[i] == old_groups[i]);
                        assert(codes[i] != codes[pos as int]) by {
                            lemma_codes_distinct(p);
                        }
                    }
                }
            }
        } else {
            let mut gv: Vec<T> = Vec::new();
            gv.push(v);
            groups.push((k, gv));
            proof {
                assert(!codes.contains(k@)) by {
                    if codes.contains(k@) {
                        let i = choose|i: int| 0 <= i < codes.len() && codes[i] == k@;
                        assert(old_groups[i].0@ == k@);
                    }
                }
                assert(codes_in_order(np) == codes.push(k@));
                lemma_total_len_insert(old_groups, old_groups.len() as int, (k, gv));
                assert(old_groups.insert(old_groups.len() as int, (k, gv)) =~= groups@);
                lemma_code_absent_no_values(p, k@);
                assert(values_with_code(np, k@) =~= gv@);
                assert forall|i: int| 0 <= i < groups.len() implies #[trigger] groups[i].1@
                    == values_with_code(np, groups[i].0@) by {
                    if i < old_groups.len() {
                        assert(groups[i] == old_groups[i]);
                        assert(old_groups[i].0@ != k@);
                    }
                }
            }
        }
        done = done + 1;
        proof {
            assert(rest@ =~= all.subrange(done as int, all.len() as int));
        }
    }
    proof {
        assert(all.subrange(0, done as int) =~= all);
    }
    groups
}

/// Codes listed by `codes_in_order` are pairwise distinct.
pub proof fn lemma_codes_distinct<T>(items: Seq<(String, T)>)
    ensures
        forall|i: int, j: int|
            0 <= i < j < codes_in_order(items).len() ==> codes_in_order(items)[i] != codes_in_order(
                items,
            )[j],
    decreases items.len(),
{
    if items.len() > 0 {
        let p = items.drop_last();
        lemma_codes_distinct(p);
        let rest = codes_in_order(p);
        let c = items.last().0@;
        if !rest.contains(c) {
            assert forall|i: int| 0 <= i < rest.len() implies rest[i] != c by {
                if rest[i] == c {
                    assert(rest.contains(c));
                }
            }
        }
    }
}

/// A code is listed by `codes_in_order` exactly when some row carries it.
pub proof fn lemma_codes_present<T>(items: Seq<(String, T)>, code: Seq<char>)
    ensures
        codes_in_order(items).contains(code) <==> exists|j: int|
            0 <= j < items.len() && (#[trigger] items[j]).0@ == code,
    decreases items.len(),
{
    if items.len() > 0 {
        let p = items.drop_last();
        lemma_codes_present(p, code);
        let rest = codes_in_order(p);
        let c = items.last().0@;
        let all = codes_in_order(items);
        if rest.contains(c) {
            assert(all == rest);
        } else {
            assert(all == rest.push(c));
            assert(all[rest.len() as int] == c);
            assert forall|x: Seq<char>| all.contains(x) <==> (rest.contains(x) || x == c) by {
                if all.contains(x) {
                    let i = choose|i: int| 0 <= i < all.len() && all[i] == x;
                    if i < rest.len() {
                        assert(rest[i] == x);
                    }
                }
                if rest.contains(x) {
                    let i = choose|i: int| 0 <= i < rest.len() && rest[i] == x;
                    assert(all[i] == x);
                }
            }
        }
        if exists|j: int| 0 <= j < p.len() && (#[trigger] p[j]).0@ == code {
            let j = choose|j: int| 0 <= j < p.len() && (#[trigger] p[j]).0@ == code;
            assert(items[j] == p[j]);
        }
        if exists|j: int| 0 <= j < items.len() && (#[trigger] items[j]).0@ == code {
            let j = choose|j: int| 0 <= j < items.len() && (#[trigger] items[j]).0@ == code;
            if j < p.len() {
                assert(items[j] == p[j]);
            } else {
                assert(items[j] == items.last());
            }
        }
        if c == code {
            assert(items[items.len() - 1].0@ == code);
        }
    }
}

proof fn lemma_code_absent_no_values<T>(items: Seq<(String, T)>, code: Seq<char>)
    requires
        !codes_in_order(items).contains(code),
    ensures
        values_with_code(items, code) == Seq::<T>::empty(),
    decreases items.len(),
{
    if items.len() > 0 {
        let p = items.drop_last();
        let rest = codes_in_order(p);
        if rest.contains(code) {
            let i = choose|i: int| 0 <= i < rest.len() && rest[i] == code;
            assert(codes_in_order(items).len() >= rest.len());
            assert(codes_in_order(items)[i] == code);
        }
        lemma_code_absent_no_values(p, code);
        if items.last().0@ == code {
            assert(rest.contains(code) || codes_in_order(items) == rest.push(code));
            assert(codes_in_order(items)[rest.len() as int] == code);
        }
    }
}

/// For each code, the payload of the last row carrying it; the codes come in
/// the order of their first appearance.
pub fn last_by_code<T>(items: Vec<(String, T)>) -> (res: Vec<(String, T)>)
    ensures
        res.len() == codes_in_order(items@).len(),
        forall|i: int| 0 <= i < res.len() ==> (#[trigger] res[i].0)@ == codes_in_order(items@)[i],
        forall|i: int|
            0 <= i < res.len() ==> #[trigger] res[i].1 == values_with_code(items@, res[i].0@).last(),
{
    let mut groups = group_by_code(items);
    let ghost gs = groups@;
    let m = groups.len();
    let mut res: Vec<(String, T)> = Vec::new();
    while groups.len() > 0
        invariant
            res.len() + groups.len() == m,
            m == gs.len(),
            groups@ =~= gs.subrange(res.len() as int, gs.len() as int),
            forall|i: int| 0 <= i < gs.len() ==> #[trigger] gs[i].1.len() > 0,
            forall|i: int| 0 <= i < res.len() ==> (#[trigger] res[i].0)@ == gs[i].0@,
            forall|i: int| 0 <= i < res.len() ==> #[trigger] res[i].1 == gs[i].1@.last(),
        decreases groups.len(),
    {
        let ghost at = res.len() as int;
        let ghost prev = res@;
        let (k, mut g) = groups.remove(0);
        proof {
            assert((k, g) == gs[at]);
            assert(gs[at].1.len() > 0);
        }
        let last = g.pop().unwrap();
        res.push((k, last));
        proof {
            assert(groups@ =~= gs.subrange(res.len() as int, gs.len() as int));
            assert forall|i: int| 0 <= i < res.len() implies #[trigger] res[i].1 == gs[i].1@.last() by {
                if i < at {
                    assert(res[i] == prev[i]);
                }
            }
            assert forall|i: int| 0 <= i < res.len() implies (#[trigger] res[i].0)@ == gs[i].0@ by {
                if i < at {
                    assert(res[i] == prev[i]);
                }
            }
        }
    }
    res
}

/// No rows, no payloads.
pub proof fn lemma_values_with_code_empty<T>(code: Seq<char>)
    ensures
        values_with_code(Seq::<(String, T)>::empty(), code) == Seq::<T>::empty(),
{
}

/// Adding a row appends its payload to the payloads of its own code and
/// leaves those of every other code as they were.
pub proof fn lemma_values_with_code_push<T>(items: Seq<(String, T)>, c: String, v: T, code: Seq<char>)
    ensures
        values_with_code(items.push((c, v)), code) == if code == c@ {
            values_with_code(items, code).push(v)
        } else {
            values_with_code(items, code)
        },
{
    assert(items.push((c, v)).drop_last() =~= items);
}

/// The last payload of a code is the payload of the last row carrying it.
pub proof fn lemma_values_with_code_last<T>(items: Seq<(String, T)>, code: Seq<char>, j: int)
    requires
        0 <= j < items.len(),
        items[j].0@ == code,
        forall|k: int| j < k < items.len() ==> (#[trigger] items[k]).0@ != code,
    ensures
        values_with_code(items, code).len() > 0,
        values_with_code(items, code).last() == items[j].1,
    decreases items.len(),
{
    if j < items.len() - 1 {
        let p = items.drop_last();
        assert forall|k: int| j < k < p.len() implies (#[trigger] p[k]).0@ != code by {
            assert(p[k] == items[k]);
        }
        assert(p[j] == items[j]);
        lemma_values_with_code_last(p, code, j);
        assert(items[items.len() - 1].0@ != code);
    }
}

/// Adding a row adds its code at the end of the codes when no earlier row
/// carries it, and leaves the codes as they were otherwise.
pub proof fn lemma_codes_in_order_push<T>(items: Seq<(String, T)>, c: String, v: T)
    ensures
        codes_in_order(items.push((c, v))) == if exists|j: int|
            0 <= j < items.len() && (#[trigger] items[j]).0@ == c@ {
            codes_in_order(items)
        } else {
            codes_in_order(items).push(c@)
        },
{
    assert(items.push((c, v)).drop_last() =~= items);
    lemma_codes_present(items, c@);
}

/// No groups hold no payloads; one more group adds its payloads.
pub proof fn lemma_total_len_push<K, T>(groups: Seq<(K, Vec<T>)>, g: (K, Vec<T>))
    ensures
        total_len(Seq::<(K, Vec<T>)>::empty()) == 0,
        total_len(groups.push(g)) == total_len(groups) + g.1.len(),
{
    lemma_total_len_insert(groups, groups.len() as int, g);
    assert(groups.insert(groups.len() as int, g) =~= groups.push(g));
}

/// No rows, no payloads for any key.
pub proof fn lemma_values_with_key_empty<T>(key: u64)
    ensures
        values_with_key(Seq::<(u64, T)>::empty(), key) == Seq::<T>::empty(),
{
}

} // verus!
