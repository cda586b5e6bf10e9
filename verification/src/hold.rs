//! Hold compartments: composite compartments made of parts.
//!
//! A model keeps its compartments, and per partition of the hull into frame
//! spaces (identified by the number of spaces) the compartments cut by those
//! spaces, each in a map from compartment code to the compartment, in the
//! order of insertion. A hold compartment is named by a code and made of the
//! compartments listed for it. Updating the holds adds the holds not yet
//! known and keeps the ones already there; the grain heeling moment curves
//! of a new hold are the curves of its parts. Every compartment needs its
//! maximum filling from the ship's data.
use vstd::prelude::*;

verus! {

/// Some entry of `m` has the code `c`.
pub open spec fn has_code<V>(m: Seq<(String, V)>, c: Seq<char>) -> bool {
    exists|i: int| 0 <= i < m.len() && (#[trigger] m[i]).0@ == c
}

/// No two entries of `m` have the same code.
pub open spec fn distinct_codes<V>(m: Seq<(String, V)>) -> bool {
    forall|i: int, j: int| 0 <= i < j < m.len() ==> (#[trigger] m[i]).0@ != (#[trigger] m[j]).0@
}

/// No two entries of `m` have the same number of spaces.
pub open spec fn distinct_partitions<V>(m: Seq<(usize, V)>) -> bool {
    forall|i: int, j: int| 0 <= i < j < m.len() ==> (#[trigger] m[i]).0 != (#[trigger] m[j]).0
}

/// Some request names the hold `c`.
pub open spec fn requested(requests: Seq<(String, Vec<String>)>, c: Seq<char>) -> bool {
    exists|r: int| 0 <= r < requests.len() && (#[trigger] requests[r]).0@ == c
}

/// `old` is kept at the front of `new`.
pub open spec fn extends<V>(old: Seq<V>, new: Seq<V>) -> bool {
    old.len() <= new.len() && forall|i: int| 0 <= i < old.len() ==> #[trigger] new[i] == old[i]
}

/// The entries of `new` past those of `old` are holds that were requested.
pub open spec fn only_requested<V>(
    old: Seq<(String, V)>,
    new: Seq<(String, V)>,
    requests: Seq<(String, Vec<String>)>,
) -> bool {
    forall|i: int| old.len() <= i < new.len() ==> requested(requests, (#[trigger] new[i]).0@)
}

/// The bounded holds after an update: every partition known before is still
/// there at its place with its holds kept at the front; every map is free
/// of repeated codes; holds that are new were requested.
pub open spec fn bounded_kept<HB>(
    old: Seq<(usize, Vec<(String, HB)>)>,
    new: Seq<(usize, Vec<(String, HB)>)>,
    requests: Seq<(String, Vec<String>)>,
) -> bool {
    &&& old.len() <= new.len()
    &&& distinct_partitions(new)
    &&& forall|i: int|
        0 <= i < old.len() ==> (#[trigger] new[i]).0 == old[i].0 && extends(old[i].1@, new[i].1@)
    &&& forall|i: int| 0 <= i < new.len() ==> distinct_codes((#[trigger] new[i]).1@)
    &&& forall|i: int|
        0 <= i < new.len() ==> only_requested(
            if i < old.len() {
                old[i].1@
            } else {
                Seq::empty()
            },
            (#[trigger] new[i]).1@,
            requests,
        )
}

/// The map of partition `qnt` in `hb` has an entry `c`.
pub open spec fn bounded_has<HB>(hb: Seq<(usize, Vec<(String, HB)>)>, qnt: usize, c: Seq<char>) -> bool {
    exists|i: int| 0 <= i < hb.len() && (#[trigger] hb[i]).0 == qnt && has_code(hb[i].1@, c)
}

/// The index of the first entry of `m` with the code `c`.
pub open spec fn first_index<V>(m: Seq<(String, V)>, c: Seq<char>) -> int
    decreases m.len(),
{
    if m.len() == 0 {
        0
    } else if m[0].0@ == c {
        0
    } else {
        1 + first_index(m.drop_first(), c)
    }
}

/// `parts` are the entries of `m` named by `members`, in the order of
/// `members`, each a clone of the first entry with that name; names that `m`
/// lacks are left out.
pub open spec fn parts_of<V: Clone>(m: Seq<(String, V)>, members: Seq<String>, parts: Seq<V>) -> bool
    decreases members.len(),
{
    if members.len() == 0 {
        parts.len() == 0
    } else {
        let c = members.last()@;
        if has_code(m, c) {
            &&& parts.len() > 0
            &&& cloned(m[first_index(m, c)].1, parts.last())
            &&& parts_of(m, members.drop_last(), parts.drop_last())
        } else {
            parts_of(m, members.drop_last(), parts)
        }
    }
}

/// `h` is what `build` returned for the code `code` and the parts named by
/// `members` in `m`.
pub open spec fn built_from<C: Clone, H, E, F: Fn(&String, Vec<C>) -> Result<H, E>>(
    build: F,
    code: Seq<char>,
    m: Seq<(String, C)>,
    members: Seq<String>,
    h: H,
) -> bool {
    exists|c: &String, p: Vec<C>|
        c@ == code && parts_of(m, members, p@) && #[trigger] call_ensures(build, (c, p), Ok(h))
}

/// The index of the first entry of `m` for the partition `qnt`.
pub open spec fn first_partition<V>(m: Seq<(usize, V)>, qnt: usize) -> int
    decreases m.len(),
{
    if m.len() == 0 {
        0
    } else if m[0].0 == qnt {
        0
    } else {
        1 + first_partition(m.drop_first(), qnt)
    }
}

/// `h` is what `build_bounded` returned for the code `code` and the parts
/// named by `members` in `m`.
pub open spec fn built_bounded_from<B: Clone, HB, G: Fn(&String, Vec<B>) -> HB>(
    build_bounded: G,
    code: Seq<char>,
    m: Seq<(String, B)>,
    members: Seq<String>,
    h: HB,
) -> bool {
    exists|c: &String, p: Vec<B>|
        c@ == code && parts_of(m, members, p@) && #[trigger] call_ensures(build_bounded, (c, p), h)
}

/// The partitions that `new` has beyond those of `old` are partitions of
/// `compartments_bounded`.
pub open spec fn partitions_known<HB, B>(
    old: Seq<(usize, Vec<(String, HB)>)>,
    new: Seq<(usize, Vec<(String, HB)>)>,
    compartments_bounded: Seq<(usize, Vec<(String, B)>)>,
) -> bool {
    forall|i: int|
        old.len() <= i < new.len() ==> exists|q: int|
            0 <= q < compartments_bounded.len() && (#[trigger] compartments_bounded[q]).0 == (
            #[trigger] new[i]).0
}

/// The entries of `m` from index `start` on come in the order of the first
/// requests for their codes.
pub open spec fn in_request_order<V>(
    start: int,
    m: Seq<(String, V)>,
    requests: Seq<(String, Vec<String>)>,
) -> bool {
    forall|i: int, j: int|
        start <= i < j < m.len() ==> first_index(requests, (#[trigger] m[i]).0@) < first_index(
            requests,
            (#[trigger] m[j]).0@,
        )
}

/// The partitions of `new` from index `start` on come in the order of their
/// first entries in `compartments_bounded`.
pub open spec fn in_partition_order<HB, B>(
    start: int,
    new: Seq<(usize, Vec<(String, HB)>)>,
    compartments_bounded: Seq<(usize, Vec<(String, B)>)>,
) -> bool {
    forall|i: int, j: int|
        start <= i < j < new.len() ==> first_partition(compartments_bounded, (#[trigger] new[i]).0)
            < first_partition(compartments_bounded, (#[trigger] new[j]).0)
}

/// The entries of `m` from `start` on stem from requests before `r`, or
/// carry the code `code`.
spec fn pending<V>(
    start: int,
    m: Seq<(String, V)>,
    requests: Seq<(String, Vec<String>)>,
    r: int,
    code: Seq<char>,
) -> bool {
    forall|i: int|
        start <= i < m.len() ==> first_index(requests, (#[trigger] m[i]).0@) < r || m[i].0@ == code
}

/// The entries of `m` from `start` on stem from requests before `r`.
pub open spec fn added_before<V>(start: int, m: Seq<(String, V)>, requests: Seq<(String, Vec<String>)>, r: int) -> bool {
    forall|i: int| start <= i < m.len() ==> first_index(requests, (#[trigger] m[i]).0@) < r
}

/// The new partitions of `hb` (from `start` on) stem from partitions of
/// `compartments_bounded` before `q`, unless the first request is done.
spec fn partitions_before<HB, B>(
    start: int,
    hb: Seq<(usize, Vec<(String, HB)>)>,
    compartments_bounded: Seq<(usize, Vec<(String, B)>)>,
    q: int,
    r: int,
) -> bool {
    forall|i: int|
        start <= i < hb.len() ==> first_partition(compartments_bounded, (#[trigger] hb[i]).0) < q || r > 0
}

proof fn lemma_first_index_le<V>(m: Seq<(String, V)>, c: Seq<char>, r: int)
    requires
        0 <= r < m.len(),
        m[r].0@ == c,
    ensures
        first_index(m, c) <= r,
    decreases r,
{
    if r > 0 && m[0].0@ != c {
        let t = m.drop_first();
        assert(t[r - 1] == m[r]);
        lemma_first_index_le(t, c, r - 1);
    }
}

/// Appending the entry for `code`, first requested at `r`, to a map that
/// lacks it keeps the request order.
proof fn lemma_order_push<V>(
    start: int,
    m: Seq<(String, V)>,
    e: (String, V),
    requests: Seq<(String, Vec<String>)>,
    r: int,
    code: Seq<char>,
)
    requires
        0 <= start <= m.len(),
        in_request_order(start, m, requests),
        pending(start, m, requests, r, code),
        !has_code(m, code),
        e.0@ == code,
        first_index(requests, code) == r,
    ensures
        in_request_order(start, m.push(e), requests),
        pending(start, m.push(e), requests, r, code),
{
    let n = m.push(e);
    assert forall|i: int, j: int| start <= i < j < n.len() implies first_index(
        requests,
        (#[trigger] n[i]).0@,
    ) < first_index(requests, (#[trigger] n[j]).0@) by {
        assert(n[i] == m[i]);
        if j < m.len() {
            assert(n[j] == m[j]);
        } else {
            assert(m[i].0@ != code);
        }
    }
    assert forall|i: int| start <= i < n.len() implies first_index(requests, (#[trigger] n[i]).0@) < r
        || n[i].0@ == code by {
        if i < m.len() {
            assert(n[i] == m[i]);
        }
    }
}

/// Once request `r` is done, what was pending stems from requests before
/// `r + 1`.
proof fn lemma_pending_done<V>(
    start: int,
    m: Seq<(String, V)>,
    requests: Seq<(String, Vec<String>)>,
    r: int,
    code: Seq<char>,
)
    requires
        pending(start, m, requests, r, code),
        first_index(requests, code) <= r,
    ensures
        added_before(start, m, requests, r + 1),
{
    assert forall|i: int| start <= i < m.len() implies first_index(requests, (#[trigger] m[i]).0@) < r
        + 1 by {
        if m[i].0@ == code {
        }
    }
}

/// The update stopped at request `f` with the error `e`: request `f` is the
/// first request for its code, whose hold was not known, and `build` returned
/// `e` for it, given the parts named by its members. Every request before `f`
/// was applied in full (its hold and its bounded holds in every partition of
/// `compartments_bounded` are there), and nothing stems from `f` or a later
/// request; partitions are only added by the first request.
pub open spec fn stopped_at<C: Clone, H, B, HB, E, F: Fn(&String, Vec<C>) -> Result<H, E>>(
    build: F,
    compartments: Seq<(String, C)>,
    old_holds: Seq<(String, H)>,
    new_holds: Seq<(String, H)>,
    compartments_bounded: Seq<(usize, Vec<(String, B)>)>,
    old_bounded: Seq<(usize, Vec<(String, HB)>)>,
    new_bounded: Seq<(usize, Vec<(String, HB)>)>,
    requests: Seq<(String, Vec<String>)>,
    f: int,
    e: E,
) -> bool {
    &&& 0 <= f < requests.len()
    &&& first_index(requests, requests[f].0@) == f
    &&& !has_code(old_holds, requests[f].0@)
    &&& exists|c: &String, p: Vec<C>|
        c@ == requests[f].0@ && parts_of(compartments, requests[f].1@, p@) && #[trigger] call_ensures(
            build,
            (c, p),
            Err(e),
        )
    &&& forall|r: int| 0 <= r < f ==> has_code(new_holds, (#[trigger] requests[r]).0@)
    &&& forall|r: int, q: int|
        0 <= r < f && 0 <= q < compartments_bounded.len() ==> bounded_has(
            new_bounded,
            (#[trigger] compartments_bounded[q]).0,
            (#[trigger] requests[r]).0@,
        )
    &&& added_before(old_holds.len() as int, new_holds, requests, f)
    &&& forall|i: int|
        0 <= i < new_bounded.len() ==> added_before(
            old_count(old_bounded, i),
            (#[trigger] new_bounded[i]).1@,
            requests,
            f,
        )
    &&& f == 0 ==> new_bounded.len() == old_bounded.len()
}

/// How many holds the map of partition `i` had before the update.
pub open spec fn old_count<HB>(old: Seq<(usize, Vec<(String, HB)>)>, i: int) -> int {
    if i < old.len() {
        old[i].1.len() as int
    } else {
        0
    }
}

/// Every bounded hold added since `old` was built by `build_bounded` from the
/// bounded compartments of the first entry of its partition in
/// `compartments_bounded`, named by the members of the first request for its
/// code.
pub open spec fn bounded_built<B: Clone, HB, G: Fn(&String, Vec<B>) -> HB>(
    build_bounded: G,
    old: Seq<(usize, Vec<(String, HB)>)>,
    new: Seq<(usize, Vec<(String, HB)>)>,
    compartments_bounded: Seq<(usize, Vec<(String, B)>)>,
    requests: Seq<(String, Vec<String>)>,
) -> bool {
    forall|i: int, j: int|
        0 <= i < new.len() && old_count(old, i) <= j < new[i].1.len() ==> built_bounded_from(
            build_bounded,
            (#[trigger] new[i].1@[j]).0@,
            compartments_bounded[first_partition(compartments_bounded, new[i].0)].1@,
            requests[first_index(requests, new[i].1@[j].0@)].1@,
            new[i].1@[j].1,
        )
}

/// The first entry of `m` for the partition `qnt` is the entry `i` that is
/// for it while no entry before it is.
pub proof fn lemma_first_partition<V>(m: Seq<(usize, V)>, qnt: usize, i: int)
    requires
        0 <= i < m.len(),
        m[i].0 == qnt,
        forall|j: int| 0 <= j < i ==> (#[trigger] m[j]).0 != qnt,
    ensures
        first_partition(m, qnt) == i,
    decreases i,
{
    if i > 0 {
        let t = m.drop_first();
        assert forall|j: int| 0 <= j < i - 1 implies (#[trigger] t[j]).0 != qnt by {
            assert(t[j] == m[j + 1]);
        }
        assert(t[i - 1] == m[i]);
        lemma_first_partition(t, qnt, i - 1);
        assert(m[0].0 != qnt);
    }
}

/// In a map free of repeated partitions, a partition that has a hold has it
/// in its one entry.
proof fn lemma_bounded_has_at<HB>(hb: Seq<(usize, Vec<(String, HB)>)>, pos: int, c: Seq<char>)
    requires
        distinct_partitions(hb),
        0 <= pos < hb.len(),
        bounded_has(hb, hb[pos].0, c),
    ensures
        has_code(hb[pos].1@, c),
{
    let i = choose|i: int| 0 <= i < hb.len() && (#[trigger] hb[i]).0 == hb[pos].0 && has_code(hb[i].1@, c);
    if i != pos {
        if i < pos {
            assert(hb[i].0 != hb[pos].0);
        } else {
            assert(hb[pos].0 != hb[i].0);
        }
    }
}

/// The first entry of `m` with the code `c` is the entry `i` that has it
/// while no entry before it does.
pub proof fn lemma_first_index<V>(m: Seq<(String, V)>, c: Seq<char>, i: int)
    requires
        0 <= i < m.len(),
        m[i].0@ == c,
        forall|j: int| 0 <= j < i ==> (#[trigger] m[j]).0@ != c,
    ensures
        first_index(m, c) == i,
    decreases i,
{
    if i > 0 {
        let t = m.drop_first();
        assert forall|j: int| 0 <= j < i - 1 implies (#[trigger] t[j]).0@ != c by {
            assert(t[j] == m[j + 1]);
        }
        assert(t[i - 1] == m[i]);
        lemma_first_index(t, c, i - 1);
        assert(m[0].0@ != c);
    }
}

/// Every partition of `old` is still in `new` at its place, its map kept at
/// the front.
pub open spec fn grows<HB>(old: Seq<(usize, Vec<(String, HB)>)>, new: Seq<(usize, Vec<(String, HB)>)>) -> bool {
    &&& old.len() <= new.len()
    &&& forall|i: int|
        0 <= i < old.len() ==> (#[trigger] new[i]).0 == old[i].0 && extends(old[i].1@, new[i].1@)
}

proof fn lemma_bounded_has_kept<HB>(
    old: Seq<(usize, Vec<(String, HB)>)>,
    new: Seq<(usize, Vec<(String, HB)>)>,
    qnt: usize,
    c: Seq<char>,
)
    requires
        grows(old, new),
        bounded_has(old, qnt, c),
    ensures
        bounded_has(new, qnt, c),
{
    let i = choose|i: int| 0 <= i < old.len() && (#[trigger] old[i]).0 == qnt && has_code(old[i].1@, c);
    let j = choose|j: int| 0 <= j < old[i].1@.len() && (#[trigger] old[i].1@[j]).0@ == c;
    assert(new[i].0 == qnt);
    assert(new[i].1@[j] == old[i].1@[j]);
    assert(has_code(new[i].1@, c));
}

fn contains_code<V>(m: &Vec<(String, V)>, code: &String) -> (res: bool)
    ensures
        res == has_code(m@, code@),
{
    let mut i: usize = 0;
    while i < m.len()
        invariant
            i <= m.len(),
            forall|j: int| 0 <= j < i ==> (#[trigger] m@[j]).0@ != code@,
        decreases m.len() - i,
    {
        if m[i].0 == *code {
            return true;
        }
        i = i + 1;
    }
    false
}

/// The parts of a hold: the entries of `m` named by `members`, in the order
/// of `members`, leaving out names that `m` lacks.
fn collect_parts<V: Clone>(m: &Vec<(String, V)>, members: &Vec<String>) -> (parts: Vec<V>)
    ensures
        parts_of(m@, members@, parts@),
{
    let mut parts: Vec<V> = Vec::new();
    let mut k: usize = 0;
    proof {
        assert(members@.subrange(0, 0) =~= Seq::<String>::empty());
    }
    while k < members.len()
        invariant
            k <= members.len(),
            parts_of(m@, members@.subrange(0, k as int), parts@),
        decreases members.len() - k,
    {
        let ghost before = parts@;
        let ghost sub = members@.subrange(0, k + 1);
        proof {
            assert(sub.drop_last() =~= members@.subrange(0, k as int));
            assert(sub.last() == members@[k as int]);
        }
        let mut i: usize = 0;
        while i < m.len() && !(m[i].0 == members[k])
            invariant
                i <= m.len(),
                k < members.len(),
                forall|j: int| 0 <= j < i ==> (#[trigger] m@[j]).0@ != members@[k as int]@,
            decreases m.len() - i,
        {
            i = i + 1;
        }
        if i < m.len() {
            let x = m[i].1.clone();
            parts.push(x);
            proof {
                lemma_first_index(m@, members@[k as int]@, i as int);
                assert(has_code(m@, members@[k as int]@)) by {
                    assert(m@[i as int].0@ == members@[k as int]@);
                }
                assert(parts@.drop_last() =~= before);
                assert(parts@.last() == x);
                assert(cloned(m@[i as int].1, x));
            }
        } else {
            proof {
                assert(!has_code(m@, members@[k as int]@));
            }
        }
        k = k + 1;
    }
    proof {
        assert(members@.subrange(0, k as int) =~= members@);
    }
    parts
}

fn copy_string(s: &String) -> (res: String)
    ensures
        res@ == s@,
{
    s.clone()
}

/// Adds the hold compartments of `requests` that are not known yet.
///
/// For each request `(code, members)` in order: when `holds` has no entry
/// `code`, the hold is built by `build` from the compartments named by
/// `members` and appended (an error of `build` ends the update with that
/// error, and what was added before stays); then, for every partition of
/// `compartments_bounded` in order, the map of that partition in
/// `holds_bounded` (appended empty when missing) gets an entry `code` built
/// by `build_bounded` from the bounded compartments named by `members`, unless
/// it has one already. Entries already present are never removed or changed.
pub fn update_hold_compartments<C: Clone, H, B: Clone, HB, E, F, G>(
    compartments: &Vec<(String, C)>,
    holds: &mut Vec<(String, H)>,
    compartments_bounded: &Vec<(usize, Vec<(String, B)>)>,
    holds_bounded: &mut Vec<(usize, Vec<(String, HB)>)>,
    requests: &Vec<(String, Vec<String>)>,
    build: F,
    build_bounded: G,
) -> (res: Result<(), E>) where F: Fn(&String, Vec<C>) -> Result<H, E>, G: Fn(&String, Vec<B>) -> HB
    requires
        forall|c: &String, p: Vec<C>| #[trigger] build.requires((c, p)),
        forall|c: &String, p: Vec<B>| #[trigger] build_bounded.requires((c, p)),
        distinct_codes(old(holds)@),
        distinct_partitions(old(holds_bounded)@),
        forall|i: int| 0 <= i < old(holds_bounded)@.len() ==> distinct_codes((#[trigger] old(holds_bounded)@[i]).1@),
    ensures
        extends(old(holds)@, final(holds)@),
        distinct_codes(final(holds)@),
        only_requested(old(holds)@, final(holds)@, requests@),
        forall|i: int|
            old(holds)@.len() <= i < final(holds)@.len() ==> built_from(
                build,
                (#[trigger] final(holds)@[i]).0@,
                compartments@,
                requests@[first_index(requests@, final(holds)@[i].0@)].1@,
                final(holds)@[i].1,
            ),
        bounded_kept(old(holds_bounded)@, final(holds_bounded)@, requests@),
        bounded_built(
            build_bounded,
            old(holds_bounded)@,
            final(holds_bounded)@,
            compartments_bounded@,
            requests@,
        ),
        partitions_known(old(holds_bounded)@, final(holds_bounded)@, compartments_bounded@),
        in_request_order(old(holds)@.len() as int, final(holds)@, requests@),
        forall|i: int|
            0 <= i < final(holds_bounded)@.len() ==> in_request_order(
                old_count(old(holds_bounded)@, i),
                (#[trigger] final(holds_bounded)@[i]).1@,
                requests@,
            ),
        in_partition_order(old(holds_bounded)@.len() as int, final(holds_bounded)@, compartments_bounded@),
        res matches Err(e) ==> exists|f: int|
            #![trigger requests@[f]]
            stopped_at(
                build,
                compartments@,
                old(holds)@,
                final(holds)@,
                compartments_bounded@,
                old(holds_bounded)@,
                final(holds_bounded)@,
                requests@,
                f,
                e,
            ),
        requests@.len() == 0 ==> final(holds)@ == old(holds)@ && final(holds_bounded)@ == old(
            holds_bounded,
        )@,
        res is Ok ==> forall|r: int|
            0 <= r < requests@.len() ==> has_code(final(holds)@, (#[trigger] requests@[r]).0@),
        res is Ok ==> forall|r: int, q: int|
            0 <= r < requests@.len() && 0 <= q < compartments_bounded@.len() ==> bounded_has(
                final(holds_bounded)@,
                (#[trigger] compartments_bounded@[q]).0,
                (#[trigger] requests@[r]).0@,
            ),
{
    let ghost h0 = holds@;
    let ghost hb0 = holds_bounded@;
    let mut r: usize = 0;
    while r < requests.len()
        invariant
            r <= requests.len(),
            h0 == old(holds)@,
            hb0 == old(holds_bounded)@,
            forall|c: &String, p: Vec<C>| #[trigger] build.requires((c, p)),
            forall|c: &String, p: Vec<B>| #[trigger] build_bounded.requires((c, p)),
            extends(h0, holds@),
            distinct_codes(holds@),
            only_requested(h0, holds@, requests@),
            forall|i: int|
                h0.len() <= i < holds@.len() ==> built_from(
                    build,
                    (#[trigger] holds@[i]).0@,
                    compartments@,
                    requests@[first_index(requests@, holds@[i].0@)].1@,
                    holds@[i].1,
                ),
            bounded_kept(hb0, holds_bounded@, requests@),
            bounded_built(build_bounded, hb0, holds_bounded@, compartments_bounded@, requests@),
            partitions_known(hb0, holds_bounded@, compartments_bounded@),
            in_request_order(h0.len() as int, holds@, requests@),
            added_before(h0.len() as int, holds@, requests@, r as int),
            forall|i: int|
                0 <= i < holds_bounded@.len() ==> in_request_order(
                    old_count(hb0, i),
                    (#[trigger] holds_bounded@[i]).1@,
                    requests@,
                ) && added_before(old_count(hb0, i), holds_bounded@[i].1@, requests@, r as int),
            in_partition_order(hb0.len() as int, holds_bounded@, compartments_bounded@),
            r == 0 ==> holds_bounded@.len() == hb0.len(),
            r == 0 ==> holds@ == h0 && holds_bounded@ == hb0,
            forall|rr: int| 0 <= rr < r ==> has_code(holds@, (#[trigger] requests@[rr]).0@),
            forall|rr: int, q: int|
                0 <= rr < r && 0 <= q < compartments_bounded@.len() ==> bounded_has(
                    holds_bounded@,
                    (#[trigger] compartments_bounded@[q]).0,
                    (#[trigger] requests@[rr]).0@,
                ),
        decreases requests.len() - r,
    {
        let code = &requests[r].0;
        let members = &requests[r].1;
        proof {
            assert(requested(requests@, code@)) by {
                assert(requests@[r as int].0@ == code@);
            }
        }
        if !contains_code(holds, code) {
            let parts = collect_parts(compartments, members);
            let ghost before = holds@;
            let ghost gparts = parts;
            let built = build(code, parts);
            match built {
                Ok(h) => {
                    let c2 = copy_string(code);
                    holds.push((c2, h));
                    proof {
                        assert forall|i: int, j: int| 0 <= i < j < holds@.len() implies (
                        #[trigger] holds@[i]).0@ != (#[trigger] holds@[j]).0@ by {
                            if j == before.len() {
                                assert(before[i].0@ != code@);
                            } else {
                                assert(before[i] == holds@[i] && before[j] == holds@[j]);
                            }
                        }
                        assert forall|i: int| 0 <= i < h0.len() implies #[trigger] holds@[i] == h0[i] by {
                            assert(holds@[i] == before[i]);
                        }
                        assert forall|i: int| h0.len() <= i < holds@.len() implies requested(
                            requests@,
                            (#[trigger] holds@[i]).0@,
                        ) by {
                            if i < before.len() {
                                assert(holds@[i] == before[i]);
                            }
                        }
                        assert forall|i: int| h0.len() <= i < holds@.len() implies built_from(
                            build,
                            (#[trigger] holds@[i]).0@,
                            compartments@,
                            requests@[first_index(requests@, holds@[i].0@)].1@,
                            holds@[i].1,
                        ) by {
                            if i < before.len() {
                                assert(holds@[i] == before[i]);
                            } else {
                                assert(c2@ == code@);
                                assert forall|j: int| 0 <= j < r implies (#[trigger] requests@[j]).0@ != code@ by {
                                    assert(has_code(before, requests@[j].0@));
                                }
                                lemma_first_index(requests@, code@, r as int);
                                assert(call_ensures(build, (code, gparts), Ok(h)));
                                assert(parts_of(compartments@, members@, gparts@));
                            }
                        }
                        assert forall|rr: int| 0 <= rr < r implies has_code(
                            holds@,
                            (#[trigger] requests@[rr]).0@,
                        ) by {
                            assert(has_code(before, requests@[rr].0@));
                            let i = choose|i: int| 0 <= i < before.len() && (#[trigger] before[i]).0@ == requests@[rr].0@;
                            assert(holds@[i] == before[i]);
                        }
                        assert(holds@ =~= before.push((c2, h)));
                        assert forall|j: int| 0 <= j < r implies (#[trigger] requests@[j]).0@ != code@ by {
                            assert(has_code(before, requests@[j].0@));
                        }
                        lemma_first_index(requests@, code@, r as int);
                        lemma_order_push(h0.len() as int, before, (c2, h), requests@, r as int, code@);
                        lemma_pending_done(h0.len() as int, holds@, requests@, r as int, code@);
                    }
                },
                Err(e) => {
                    proof {
                        assert(!has_code(h0, code@)) by {
                            if has_code(h0, code@) {
                                let i = choose|i: int| 0 <= i < h0.len() && (#[trigger] h0[i]).0@ == code@;
                                assert(holds@[i] == h0[i]);
                            }
                        }
                        assert forall|j: int| 0 <= j < r implies (#[trigger] requests@[j]).0@ != code@ by {
                            assert(has_code(holds@, requests@[j].0@));
                        }
                        lemma_first_index(requests@, code@, r as int);
                        assert(call_ensures(build, (code, gparts), Err(e)));
                        assert(parts_of(compartments@, members@, gparts@));
                        assert(stopped_at(
                            build,
                            compartments@,
                            h0,
                            holds@,
                            compartments_bounded@,
                            hb0,
                            holds_bounded@,
                            requests@,
                            r as int,
                            e,
                        ));
                    }
                    return Err(e);
                },
            }
        }
        proof {
            assert(has_code(holds@, code@)) by {
                if !has_code(holds@, code@) {
                    assert(holds@[holds@.len() - 1].0@ == code@);
                }
            }
            assert(added_before(h0.len() as int, holds@, requests@, r + 1));
            lemma_first_index_le(requests@, code@, r as int);
            assert forall|i: int| 0 <= i < holds_bounded@.len() implies pending(
                old_count(hb0, i),
                (#[trigger] holds_bounded@[i]).1@,
                requests@,
                r as int,
                code@,
            ) by {
                assert(added_before(old_count(hb0, i), holds_bounded@[i].1@, requests@, r as int));
            }
        }
        let mut q: usize = 0;
        while q < compartments_bounded.len()
            invariant
                q <= compartments_bounded.len(),
                r < requests.len(),
                code == &requests@[r as int].0,
                requested(requests@, code@),
                forall|c: &String, p: Vec<B>| #[trigger] build_bounded.requires((c, p)),
                bounded_kept(hb0, holds_bounded@, requests@),
                bounded_built(build_bounded, hb0, holds_bounded@, compartments_bounded@, requests@),
                members == &requests@[r as int].1,
                partitions_known(hb0, holds_bounded@, compartments_bounded@),
                first_index(requests@, code@) <= r,
                forall|i: int|
                    0 <= i < holds_bounded@.len() ==> in_request_order(
                        old_count(hb0, i),
                        (#[trigger] holds_bounded@[i]).1@,
                        requests@,
                    ) && pending(old_count(hb0, i), holds_bounded@[i].1@, requests@, r as int, code@),
                in_partition_order(hb0.len() as int, holds_bounded@, compartments_bounded@),
                partitions_before(hb0.len() as int, holds_bounded@, compartments_bounded@, q as int, r as int),
                forall|rr: int, qq: int|
                    0 <= rr < r && 0 <= qq < compartments_bounded@.len() ==> bounded_has(
                        holds_bounded@,
                        (#[trigger] compartments_bounded@[qq]).0,
                        (#[trigger] requests@[rr]).0@,
                    ),
                forall|qq: int|
                    0 <= qq < q ==> bounded_has(
                        holds_bounded@,
                        (#[trigger] compartments_bounded@[qq]).0,
                        code@,
                    ),
            decreases compartments_bounded.len() - q,
        {
            let qnt = compartments_bounded[q].0;
            let ghost before = holds_bounded@;
            let mut pos: usize = 0;
            while pos < holds_bounded.len() && holds_bounded[pos].0 != qnt
                invariant
                    pos <= holds_bounded.len(),
                    holds_bounded@ == before,
                    forall|i: int| 0 <= i < pos ==> (#[trigger] holds_bounded@[i]).0 != qnt,
                decreases holds_bounded.len() - pos,
            {
                pos = pos + 1;
            }
            if pos == holds_bounded.len() {
                holds_bounded.push((qnt, Vec::new()));
                proof {
                    if r > 0 {
                        assert(bounded_has(before, compartments_bounded@[q as int].0, requests@[0].0@));
                        let i = choose|i: int|
                            0 <= i < before.len() && (#[trigger] before[i]).0 == qnt && has_code(before[i].1@, requests@[0].0@);
                        assert(before[i].0 != qnt);
                    }
                    assert forall|qq: int| 0 <= qq < q implies (#[trigger] compartments_bounded@[qq]).0 != qnt by {
                        if compartments_bounded@[qq].0 == qnt {
                            assert(bounded_has(before, compartments_bounded@[qq].0, code@));
                            let i = choose|i: int|
                                0 <= i < before.len() && (#[trigger] before[i]).0 == qnt && has_code(before[i].1@, code@);
                            assert(before[i].0 != qnt);
                        }
                    }
                    lemma_first_partition(compartments_bounded@, qnt, q as int);
                }
            }
            let ghost mid = holds_bounded@;
            proof {
                assert(pos == before.len() ==> r == 0 && first_partition(compartments_bounded@, qnt) == q
                    && mid.len() == before.len() + 1 && mid[pos as int].0 == qnt && mid[pos as int].1@.len() == 0);
                assert(pos < before.len() ==> mid == before);
                assert(in_partition_order(hb0.len() as int, mid, compartments_bounded@)) by {
                    assert forall|i: int, j: int| hb0.len() <= i < j < mid.len() implies first_partition(
                        compartments_bounded@,
                        (#[trigger] mid[i]).0,
                    ) < first_partition(compartments_bounded@, (#[trigger] mid[j]).0) by {
                        assert(mid[i] == before[i]);
                        if j < before.len() {
                            assert(mid[j] == before[j]);
                        } else {
                            assert(partitions_before(hb0.len() as int, before, compartments_bounded@, q as int, r as int));
                        }
                    }
                }
                assert(partitions_before(hb0.len() as int, mid, compartments_bounded@, q + 1, r as int)) by {
                    assert forall|i: int| hb0.len() <= i < mid.len() implies first_partition(
                        compartments_bounded@,
                        (#[trigger] mid[i]).0,
                    ) < q + 1 || r > 0 by {
                        if i < before.len() {
                            assert(mid[i] == before[i]);
                        }
                    }
                }
                assert forall|i: int| 0 <= i < mid.len() implies in_request_order(
                    old_count(hb0, i),
                    (#[trigger] mid[i]).1@,
                    requests@,
                ) && pending(old_count(hb0, i), mid[i].1@, requests@, r as int, code@) by {
                    if i < before.len() {
                        assert(mid[i] == before[i]);
                    } else {
                        assert(mid[i].1@.len() == 0);
                    }
                }
                assert(partitions_known(hb0, mid, compartments_bounded@)) by {
                    assert forall|i: int| hb0.len() <= i < mid.len() implies exists|qq: int|
                        0 <= qq < compartments_bounded@.len() && (#[trigger] compartments_bounded@[qq]).0
                            == (#[trigger] mid[i]).0 by {
                        if i < before.len() {
                            assert(mid[i] == before[i]);
                        } else {
                            assert(compartments_bounded@[q as int].0 == mid[i].0);
                        }
                    }
                }
                assert(extends(before, mid));
                assert(mid[pos as int].0 == qnt);
                assert(distinct_partitions(mid)) by {
                    assert forall|i: int, j: int| 0 <= i < j < mid.len() implies (#[trigger] mid[i]).0
                        != (#[trigger] mid[j]).0 by {
                        if j == before.len() {
                            assert(before[i].0 != qnt);
                        } else {
                            assert(mid[i] == before[i] && mid[j] == before[j]);
                        }
                    }
                }
                assert(bounded_built(build_bounded, hb0, mid, compartments_bounded@, requests@)) by {
                    assert forall|i: int, j: int|
                        0 <= i < mid.len() && old_count(hb0, i) <= j < mid[i].1.len() implies built_bounded_from(
                            build_bounded,
                            (#[trigger] mid[i].1@[j]).0@,
                            compartments_bounded@[first_partition(compartments_bounded@, mid[i].0)].1@,
                            requests@[first_index(requests@, mid[i].1@[j].0@)].1@,
                            mid[i].1@[j].1,
                        ) by {
                        if i < before.len() {
                            assert(mid[i] == before[i]);
                        } else {
                            assert(mid[i].1@.len() == 0);
                        }
                    }
                }
                assert(bounded_kept(hb0, mid, requests@)) by {
                    assert forall|i: int| 0 <= i < hb0.len() implies (#[trigger] mid[i]).0 == hb0[i].0
                        && extends(hb0[i].1@, mid[i].1@) by {
                        assert(mid[i] == before[i]);
                    }
                    assert forall|i: int| 0 <= i < mid.len() implies distinct_codes((#[trigger] mid[i]).1@) by {
                        if i < before.len() {
                            assert(mid[i] == before[i]);
                        } else {
                            assert(mid[i].1@ =~= Seq::<(String, HB)>::empty());
                        }
                    }
                    assert forall|i: int| 0 <= i < mid.len() implies only_requested(
                        if i < hb0.len() {
                            hb0[i].1@
                        } else {
                            Seq::empty()
                        },
                        (#[trigger] mid[i]).1@,
                        requests@,
                    ) by {
                        if i < before.len() {
                            assert(mid[i] == before[i]);
                        } else {
                            assert(mid[i].1@ =~= Seq::<(String, HB)>::empty());
                        }
                    }
                }
            }
            if !contains_code(&holds_bounded[pos].1, code) {
                let parts = collect_parts(&compartments_bounded[q].1, members);
                let ghost gparts = parts;
                let hb = build_bounded(code, parts);
                let c2 = copy_string(code);
                let ghost inner = mid[pos as int].1@;
                holds_bounded[pos].1.push((c2, hb));
                proof {
                    let now = holds_bounded@;
                    assert(now == mid.update(pos as int, (qnt, now[pos as int].1)));
                    assert(partitions_known(hb0, now, compartments_bounded@)) by {
                        assert forall|i: int| hb0.len() <= i < now.len() implies exists|qq: int|
                            0 <= qq < compartments_bounded@.len() && (#[trigger] compartments_bounded@[qq]).0
                                == (#[trigger] now[i]).0 by {
                            assert(now[i].0 == mid[i].0);
                            assert(partitions_known(hb0, mid, compartments_bounded@));
                            let qq = choose|qq: int| 0 <= qq < compartments_bounded@.len() && (#[trigger] compartments_bounded@[qq]).0 == (#[trigger] mid[i]).0;
                            assert(compartments_bounded@[qq].0 == now[i].0);
                        }
                    }
                    assert(now[pos as int].1@ == inner.push((c2, hb)));
                    assert forall|i: int| 0 <= i < hb0.len() implies (#[trigger] now[i]).0 == hb0[i].0
                        && extends(hb0[i].1@, now[i].1@) by {
                        if i != pos {
                            assert(now[i] == mid[i]);
                        } else {
                            assert(extends(hb0[i].1@, mid[i].1@));
                            assert forall|j: int| 0 <= j < hb0[i].1@.len() implies #[trigger] now[i].1@[j]
                                == hb0[i].1@[j] by {
                                assert(now[i].1@[j] == mid[i].1@[j]);
                            }
                        }
                    }
                    assert forall|i: int| 0 <= i < now.len() implies distinct_codes((#[trigger] now[i]).1@) by {
                        if i != pos {
                            assert(now[i] == mid[i]);
                        } else {
                            assert(distinct_codes(inner));
                            assert forall|a: int, b: int| 0 <= a < b < now[i].1@.len() implies (
                            #[trigger] now[i].1@[a]).0@ != (#[trigger] now[i].1@[b]).0@ by {
                                if b == inner.len() {
                                    assert(now[i].1@[a] == inner[a]);
                                    assert(inner[a].0@ != code@);
                                } else {
                                    assert(now[i].1@[a] == inner[a] && now[i].1@[b] == inner[b]);
                                }
                            }
                        }
                    }
                    assert forall|i: int| 0 <= i < now.len() implies only_requested(
                        if i < hb0.len() {
                            hb0[i].1@
                        } else {
                            Seq::empty()
                        },
                        (#[trigger] now[i]).1@,
                        requests@,
                    ) by {
                        if i != pos {
                            assert(now[i] == mid[i]);
                        } else {
                            let base = if i < hb0.len() {
                                hb0[i].1@
                            } else {
                                Seq::empty()
                            };
                            assert(only_requested(base, inner, requests@));
                            if i < hb0.len() {
                                assert(extends(hb0[i].1@, inner));
                            }
                            assert forall|j: int| base.len() <= j < now[i].1@.len() implies requested(
                                requests@,
                                (#[trigger] now[i].1@[j]).0@,
                            ) by {
                                if j < inner.len() {
                                    assert(now[i].1@[j] == inner[j]);
                                } else {
                                    assert(now[i].1@[j].0@ == code@);
                                }
                            }
                        }
                    }
                    assert forall|qq: int| 0 <= qq < q implies (#[trigger] compartments_bounded@[qq]).0 != qnt by {
                        if compartments_bounded@[qq].0 == qnt {
                            assert(bounded_has(before, qnt, code@));
                            lemma_bounded_has_kept(before, mid, qnt, code@);
                            lemma_bounded_has_at(mid, pos as int, code@);
                        }
                    }
                    lemma_first_partition(compartments_bounded@, qnt, q as int);
                    assert forall|rr: int| 0 <= rr < r implies (#[trigger] requests@[rr]).0@ != code@ by {
                        if requests@[rr].0@ == code@ {
                            assert(bounded_has(before, compartments_bounded@[q as int].0, requests@[rr].0@));
                            lemma_bounded_has_kept(before, mid, qnt, code@);
                            lemma_bounded_has_at(mid, pos as int, code@);
                        }
                    }
                    lemma_first_index(requests@, code@, r as int);
                    assert(call_ensures(build_bounded, (code, gparts), hb));
                    assert(in_request_order(old_count(hb0, pos as int), inner, requests@));
                    assert(pending(old_count(hb0, pos as int), inner, requests@, r as int, code@));
                    assert(old_count(hb0, pos as int) <= inner.len()) by {
                        if pos < hb0.len() {
                            assert(extends(hb0[pos as int].1@, mid[pos as int].1@));
                        }
                    }
                    lemma_order_push(old_count(hb0, pos as int), inner, (c2, hb), requests@, r as int, code@);
                    assert forall|i: int| 0 <= i < now.len() implies in_request_order(
                        old_count(hb0, i),
                        (#[trigger] now[i]).1@,
                        requests@,
                    ) && pending(old_count(hb0, i), now[i].1@, requests@, r as int, code@) by {
                        if i != pos {
                            assert(now[i] == mid[i]);
                        }
                    }
                    assert(in_partition_order(hb0.len() as int, now, compartments_bounded@)) by {
                        assert forall|i: int, j: int| hb0.len() <= i < j < now.len() implies first_partition(
                            compartments_bounded@,
                            (#[trigger] now[i]).0,
                        ) < first_partition(compartments_bounded@, (#[trigger] now[j]).0) by {
                            assert(now[i].0 == mid[i].0 && now[j].0 == mid[j].0);
                        }
                    }
                    assert(partitions_before(hb0.len() as int, now, compartments_bounded@, q + 1, r as int)) by {
                        assert forall|i: int| hb0.len() <= i < now.len() implies first_partition(
                            compartments_bounded@,
                            (#[trigger] now[i]).0,
                        ) < q + 1 || r > 0 by {
                            assert(now[i].0 == mid[i].0);
                        }
                    }
                    assert(parts_of(compartments_bounded@[q as int].1@, members@, gparts@));
                    assert(bounded_built(build_bounded, hb0, now, compartments_bounded@, requests@)) by {
                        assert forall|i: int, j: int|
                            0 <= i < now.len() && old_count(hb0, i) <= j < now[i].1.len() implies built_bounded_from(
                                build_bounded,
                                (#[trigger] now[i].1@[j]).0@,
                                compartments_bounded@[first_partition(compartments_bounded@, now[i].0)].1@,
                                requests@[first_index(requests@, now[i].1@[j].0@)].1@,
                                now[i].1@[j].1,
                            ) by {
                            if i != pos {
                                assert(now[i] == mid[i]);
                            } else if j < inner.len() {
                                assert(now[i].1@[j] == mid[i].1@[j]);
                                assert(now[i].0 == mid[i].0);
                            } else {
                                assert(now[i].1@[j] == (c2, hb));
                                assert(c2@ == code@);
                            }
                        }
                    }
                    assert(distinct_partitions(now)) by {
                        assert forall|i: int, j: int| 0 <= i < j < now.len() implies (#[trigger] now[i]).0
                            != (#[trigger] now[j]).0 by {
                            assert(now[i].0 == mid[i].0 && now[j].0 == mid[j].0);
                        }
                    }
                    assert(grows(before, now)) by {
                        assert forall|i: int| 0 <= i < before.len() implies (#[trigger] now[i]).0
                            == before[i].0 && extends(before[i].1@, now[i].1@) by {
                            assert(mid[i] == before[i]);
                            if i == pos {
                                assert forall|j: int| 0 <= j < before[i].1@.len() implies #[trigger] now[i].1@[j]
                                    == before[i].1@[j] by {
                                    assert(now[i].1@[j] == inner[j]);
                                }
                            }
                        }
                    }
                    assert forall|rr: int, qq: int|
                        0 <= rr < r && 0 <= qq < compartments_bounded@.len() implies bounded_has(
                            now,
                            (#[trigger] compartments_bounded@[qq]).0,
                            (#[trigger] requests@[rr]).0@,
                        ) by {
                        lemma_bounded_has_kept(before, now, compartments_bounded@[qq].0, requests@[rr].0@);
                    }
                    assert forall|qq: int| 0 <= qq < q + 1 implies bounded_has(
                        now,
                        (#[trigger] compartments_bounded@[qq]).0,
                        code@,
                    ) by {
                        if qq == q {
                            assert(now[pos as int].1@[inner.len() as int].0@ == code@);
                            assert(has_code(now[pos as int].1@, code@));
                        } else {
                            lemma_bounded_has_kept(before, now, compartments_bounded@[qq].0, code@);
                        }
                    }
                }
            } else {
                proof {
                    assert(grows(before, mid)) by {
                        assert forall|i: int| 0 <= i < before.len() implies (#[trigger] mid[i]).0
                            == before[i].0 && extends(before[i].1@, mid[i].1@) by {
                            assert(mid[i] == before[i]);
                        }
                    }
                    assert forall|rr: int, qq: int|
                        0 <= rr < r && 0 <= qq < compartments_bounded@.len() implies bounded_has(
                            mid,
                            (#[trigger] compartments_bounded@[qq]).0,
                            (#[trigger] requests@[rr]).0@,
                        ) by {
                        lemma_bounded_has_kept(before, mid, compartments_bounded@[qq].0, requests@[rr].0@);
                    }
                    assert forall|qq: int| 0 <= qq < q + 1 implies bounded_has(
                        mid,
                        (#[trigger] compartments_bounded@[qq]).0,
                        code@,
                    ) by {
                        if qq == q {
                            assert(mid[pos as int].0 == compartments_bounded@[qq].0);
                        } else {
                            lemma_bounded_has_kept(before, mid, compartments_bounded@[qq].0, code@);
                        }
                    }
                }
            }
            q = q + 1;
        }
        proof {
            assert forall|i: int| 0 <= i < holds_bounded@.len() implies added_before(
                old_count(hb0, i),
                (#[trigger] holds_bounded@[i]).1@,
                requests@,
                r + 1,
            ) by {
                lemma_pending_done(old_count(hb0, i), holds_bounded@[i].1@, requests@, r as int, code@);
            }
        }
        r = r + 1;
        proof {
            assert forall|rr: int| 0 <= rr < r implies has_code(holds@, (#[trigger] requests@[rr]).0@) by {
                if rr == r - 1 {
                    assert(requests@[rr].0@ == code@);
                }
            }
            assert forall|rr: int, qq: int|
                0 <= rr < r && 0 <= qq < compartments_bounded@.len() implies bounded_has(
                    holds_bounded@,
                    (#[trigger] compartments_bounded@[qq]).0,
                    (#[trigger] requests@[rr]).0@,
                ) by {
                if rr == r - 1 {
                    assert(requests@[rr].0@ == code@);
                }
            }
        }
    }
    Ok(())
}

/// Every element of `dst` is a clone of the element of `src` at its place.
pub open spec fn all_cloned<K: Clone>(src: Seq<K>, dst: Seq<K>) -> bool {
    &&& src.len() == dst.len()
    &&& forall|k: int| 0 <= k < src.len() ==> cloned(#[trigger] src[k], dst[k])
}

/// `curves` are the curves of the entries of `m` named by `members`, in the
/// order of `members`: for each name, clones of the curves of the first
/// entry with that name; names that `m` lacks add nothing.
pub open spec fn merged_curves<K: Clone>(m: Seq<(String, Vec<K>)>, members: Seq<String>, curves: Seq<K>) -> bool
    decreases members.len(),
{
    if members.len() == 0 {
        curves.len() == 0
    } else {
        let c = members.last()@;
        if has_code(m, c) {
            let part = m[first_index(m, c)].1@;
            let n = curves.len() - part.len();
            &&& n >= 0
            &&& all_cloned(part, curves.subrange(n, curves.len() as int))
            &&& merged_curves(m, members.drop_last(), curves.subrange(0, n))
        } else {
            merged_curves(m, members.drop_last(), curves)
        }
    }
}

/// The curves of a hold made of `members`: see `merged_curves`.
fn merge_curves<K: Clone>(m: &Vec<(String, Vec<K>)>, members: &Vec<String>) -> (curves: Vec<K>)
    ensures
        merged_curves(m@, members@, curves@),
{
    let mut curves: Vec<K> = Vec::new();
    let mut k: usize = 0;
    proof {
        assert(members@.subrange(0, 0) =~= Seq::<String>::empty());
    }
    while k < members.len()
        invariant
            k <= members.len(),
            merged_curves(m@, members@.subrange(0, k as int), curves@),
        decreases members.len() - k,
    {
        let ghost before = curves@;
        let ghost sub = members@.subrange(0, k + 1);
        proof {
            assert(sub.drop_last() =~= members@.subrange(0, k as int));
            assert(sub.last() == members@[k as int]);
        }
        let mut i: usize = 0;
        while i < m.len() && !(m[i].0 == members[k])
            invariant
                i <= m.len(),
                k < members.len(),
                forall|j: int| 0 <= j < i ==> (#[trigger] m@[j]).0@ != members@[k as int]@,
            decreases m.len() - i,
        {
            i = i + 1;
        }
        if i < m.len() {
            let base = curves.len();
            let ghost part = m@[i as int].1@;
            let mut t: usize = 0;
            while t < m[i].1.len()
                invariant
                    i < m.len(),
                    part == m@[i as int].1@,
                    t <= part.len(),
                    base == before.len(),
                    curves@.len() == base + t,
                    curves@.subrange(0, base as int) == before,
                    forall|x: int| 0 <= x < t ==> cloned(#[trigger] part[x], curves@[base + x]),
                decreases part.len() - t,
            {
                let c = m[i].1[t].clone();
                let ghost prev = curves@;
                curves.push(c);
                proof {
                    assert(curves@.subrange(0, base as int) =~= prev.subrange(0, base as int));
                    assert(cloned(part[t as int], c));
                    assert forall|x: int| 0 <= x < t + 1 implies cloned(#[trigger] part[x], curves@[base + x]) by {
                        if x < t {
                            assert(curves@[base + x] == prev[base + x]);
                        }
                    }
                }
                t = t + 1;
            }
            proof {
                lemma_first_index(m@, members@[k as int]@, i as int);
                assert(has_code(m@, members@[k as int]@)) by {
                    assert(m@[i as int].0@ == members@[k as int]@);
                }
                let tail = curves@.subrange(base as int, curves@.len() as int);
                assert forall|x: int| 0 <= x < part.len() implies cloned(#[trigger] part[x], tail[x]) by {
                    assert(tail[x] == curves@[base + x]);
                }
                assert(all_cloned(part, tail));
            }
        } else {
            proof {
                assert(!has_code(m@, members@[k as int]@));
            }
        }
        k = k + 1;
    }
    proof {
        assert(members@.subrange(0, k as int) =~= members@);
    }
    curves
}

/// Adds the grain heeling moment curves of the hold compartments of
/// `requests` that `moments` does not know yet.
///
/// For each request `(code, members)` in order, when `moments` has no entry
/// `code`, an entry is appended whose curves are the curves of the entries
/// named by `members` as `moments` stands at that point (so a hold may be made
/// of holds added by earlier requests). Entries already present are kept.
pub fn update_grain_moments<K: Clone>(
    moments: &mut Vec<(String, Vec<K>)>,
    requests: &Vec<(String, Vec<String>)>,
)
    requires
        distinct_codes(old(moments)@),
    ensures
        extends(old(moments)@, final(moments)@),
        distinct_codes(final(moments)@),
        only_requested(old(moments)@, final(moments)@, requests@),
        in_request_order(old(moments)@.len() as int, final(moments)@, requests@),
        forall|r: int|
            0 <= r < requests@.len() ==> has_code(final(moments)@, (#[trigger] requests@[r]).0@),
        forall|i: int|
            old(moments)@.len() <= i < final(moments)@.len() ==> merged_curves(
                final(moments)@.subrange(0, i),
                requests@[first_index(requests@, (#[trigger] final(moments)@[i]).0@)].1@,
                final(moments)@[i].1@,
            ),
{
    let ghost m0 = moments@;
    let mut r: usize = 0;
    while r < requests.len()
        invariant
            r <= requests.len(),
            m0 == old(moments)@,
            extends(m0, moments@),
            distinct_codes(moments@),
            only_requested(m0, moments@, requests@),
            in_request_order(m0.len() as int, moments@, requests@),
            added_before(m0.len() as int, moments@, requests@, r as int),
            forall|rr: int| 0 <= rr < r ==> has_code(moments@, (#[trigger] requests@[rr]).0@),
            forall|i: int|
                m0.len() <= i < moments@.len() ==> merged_curves(
                    moments@.subrange(0, i),
                    requests@[first_index(requests@, (#[trigger] moments@[i]).0@)].1@,
                    moments@[i].1@,
                ),
        decreases requests.len() - r,
    {
        let code = &requests[r].0;
        let members = &requests[r].1;
        if !contains_code(moments, code) {
            let curves = merge_curves(moments, members);
            let c2 = copy_string(code);
            let ghost before = moments@;
            moments.push((c2, curves));
            proof {
                let now = moments@;
                assert(now =~= before.push((c2, curves)));
                assert(requested(requests@, code@)) by {
                    assert(requests@[r as int].0@ == code@);
                }
                assert forall|j: int| 0 <= j < r implies (#[trigger] requests@[j]).0@ != code@ by {
                    assert(has_code(before, requests@[j].0@));
                }
                lemma_first_index(requests@, code@, r as int);
                assert(pending(m0.len() as int, before, requests@, r as int, code@));
                lemma_order_push(m0.len() as int, before, (c2, curves), requests@, r as int, code@);
                lemma_pending_done(m0.len() as int, now, requests@, r as int, code@);
                assert forall|a: int, b: int| 0 <= a < b < now.len() implies (#[trigger] now[a]).0@
                    != (#[trigger] now[b]).0@ by {
                    if b == before.len() {
                        assert(before[a].0@ != code@);
                    } else {
                        assert(before[a] == now[a] && before[b] == now[b]);
                    }
                }
                assert forall|a: int| 0 <= a < m0.len() implies #[trigger] now[a] == m0[a] by {
                    assert(now[a] == before[a]);
                }
                assert forall|a: int| m0.len() <= a < now.len() implies requested(
                    requests@,
                    (#[trigger] now[a]).0@,
                ) by {
                    if a < before.len() {
                        assert(now[a] == before[a]);
                    }
                }
                assert forall|rr: int| 0 <= rr < r implies has_code(now, (#[trigger] requests@[rr]).0@) by {
                    assert(has_code(before, requests@[rr].0@));
                    let a = choose|a: int| 0 <= a < before.len() && (#[trigger] before[a]).0@ == requests@[rr].0@;
                    assert(now[a] == before[a]);
                }
                assert forall|a: int| m0.len() <= a < now.len() implies merged_curves(
                    now.subrange(0, a),
                    requests@[first_index(requests@, (#[trigger] now[a]).0@)].1@,
                    now[a].1@,
                ) by {
                    if a < before.len() {
                        assert(now[a] == before[a]);
                        assert(now.subrange(0, a) =~= before.subrange(0, a));
                    } else {
                        assert(now.subrange(0, a) =~= before);
                    }
                }
            }
        }
        proof {
            assert(has_code(moments@, code@)) by {
                if !has_code(moments@, code@) {
                    assert(moments@[moments@.len() - 1].0@ == code@);
                }
            }
            assert(added_before(m0.len() as int, moments@, requests@, r + 1));
        }
        r = r + 1;
        proof {
            assert forall|rr: int| 0 <= rr < r implies has_code(moments@, (#[trigger] requests@[rr]).0@) by {
                if rr == r - 1 {
                    assert(requests@[rr].0@ == code@);
                }
            }
        }
    }
}

/// The maxima of the compartments, in the order of `names`: for each name
/// the value of the first entry of `maxima` with that name. `Err(k)` names
/// the first compartment, `names[k]`, that has no entry.
pub fn compartment_maxima<V: Copy>(names: &Vec<String>, maxima: &Vec<(String, V)>) -> (res: Result<
    Vec<V>,
    usize,
>)
    ensures
        match res {
            Ok(vals) => {
                &&& vals.len() == names.len()
                &&& forall|i: int|
                    0 <= i < names.len() ==> has_code(maxima@, (#[trigger] names@[i])@) && vals@[i]
                        == maxima@[first_index(maxima@, names@[i]@)].1
            },
            Err(k) => {
                &&& k < names.len()
                &&& !has_code(maxima@, names@[k as int]@)
                &&& forall|i: int| 0 <= i < k ==> has_code(maxima@, (#[trigger] names@[i])@)
            },
        },
{
    let mut vals: Vec<V> = Vec::new();
    let mut k: usize = 0;
    while k < names.len()
        invariant
            k <= names.len(),
            vals.len() == k,
            forall|i: int|
                0 <= i < k ==> has_code(maxima@, (#[trigger] names@[i])@) && vals@[i]
                    == maxima@[first_index(maxima@, names@[i]@)].1,
        decreases names.len() - k,
    {
        let mut i: usize = 0;
        while i < maxima.len() && !(maxima[i].0 == names[k])
            invariant
                i <= maxima.len(),
                k < names.len(),
                forall|j: int| 0 <= j < i ==> (#[trigger] maxima@[j]).0@ != names@[k as int]@,
            decreases maxima.len() - i,
        {
            i = i + 1;
        }
        if i == maxima.len() {
            proof {
                assert(!has_code(maxima@, names@[k as int]@));
            }
            return Err(k);
        }
        proof {
            lemma_first_index(maxima@, names@[k as int]@, i as int);
            assert(maxima@[i as int].0@ == names@[k as int]@);
        }
        vals.push(maxima[i].1);
        k = k + 1;
    }
    Ok(vals)
}

/// With no members a hold has no parts.
pub proof fn lemma_parts_no_members<V: Clone>(m: Seq<(String, V)>, parts: Seq<V>)
    ensures
        parts_of(m, Seq::<String>::empty(), parts) <==> parts.len() == 0,
{
}

/// A member that no entry of `m` carries adds no part: the parts for
/// `members` followed by `c` are the parts for `members`.
pub proof fn lemma_parts_missing_member<V: Clone>(
    m: Seq<(String, V)>,
    members: Seq<String>,
    c: String,
    parts: Seq<V>,
)
    requires
        forall|i: int| 0 <= i < m.len() ==> (#[trigger] m[i]).0@ != c@,
    ensures
        parts_of(m, members.push(c), parts) == parts_of(m, members, parts),
{
    assert(members.push(c).drop_last() =~= members);
    assert(!has_code(m, c@)) by {
        if has_code(m, c@) {
            let i = choose|i: int| 0 <= i < m.len() && (#[trigger] m[i]).0@ == c@;
            assert(m[i].0@ != c@);
        }
    }
}

/// A member whose first entry in `m` is entry `i` adds one part after the
/// parts for the members before it: a clone of that entry's compartment,
/// whatever the members before it are.
pub proof fn lemma_parts_present_member<V: Clone>(
    m: Seq<(String, V)>,
    members: Seq<String>,
    c: String,
    i: int,
    parts: Seq<V>,
)
    requires
        0 <= i < m.len(),
        m[i].0@ == c@,
        forall|j: int| 0 <= j < i ==> (#[trigger] m[j]).0@ != c@,
    ensures
        parts_of(m, members.push(c), parts) <==> parts.len() > 0 && parts_of(
            m,
            members,
            parts.drop_last(),
        ) && cloned(m[i].1, parts.last()),
{
    assert(members.push(c).drop_last() =~= members);
    assert(has_code(m, c@));
    lemma_first_index(m, c@, i);
}

/// With no members a hold has no curves.
pub proof fn lemma_merged_no_members<K: Clone>(m: Seq<(String, Vec<K>)>, curves: Seq<K>)
    ensures
        merged_curves(m, Seq::<String>::empty(), curves) <==> curves.len() == 0,
{
}

/// A member that no entry of `m` carries adds no curve.
pub proof fn lemma_merged_missing_member<K: Clone>(
    m: Seq<(String, Vec<K>)>,
    members: Seq<String>,
    c: String,
    curves: Seq<K>,
)
    requires
        forall|i: int| 0 <= i < m.len() ==> (#[trigger] m[i]).0@ != c@,
    ensures
        merged_curves(m, members.push(c), curves) == merged_curves(m, members, curves),
{
    assert(members.push(c).drop_last() =~= members);
    assert(!has_code(m, c@)) by {
        if has_code(m, c@) {
            let i = choose|i: int| 0 <= i < m.len() && (#[trigger] m[i]).0@ == c@;
            assert(m[i].0@ != c@);
        }
    }
}

/// A member whose first entry in `m` is entry `i` adds all the curves of
/// that entry, cloned and in their order, after the curves of the members
/// before it, whatever its position among the members.
pub proof fn lemma_merged_present_member<K: Clone>(
    m: Seq<(String, Vec<K>)>,
    members: Seq<String>,
    c: String,
    i: int,
    curves: Seq<K>,
)
    requires
        0 <= i < m.len(),
        m[i].0@ == c@,
        forall|j: int| 0 <= j < i ==> (#[trigger] m[j]).0@ != c@,
    ensures
        merged_curves(m, members.push(c), curves) <==> {
            let n = curves.len() - m[i].1@.len();
            &&& n >= 0
            &&& merged_curves(m, members, curves.subrange(0, n))
            &&& forall|k: int|
                0 <= k < m[i].1@.len() ==> cloned(#[trigger] m[i].1@[k], curves[n + k])
        },
{
    assert(members.push(c).drop_last() =~= members);
    assert(has_code(m, c@));
    lemma_first_index(m, c@, i);
    let n = curves.len() - m[i].1@.len();
    if n >= 0 {
        let tail = curves.subrange(n, curves.len() as int);
        assert forall|k: int| 0 <= k < m[i].1@.len() implies tail[k] == curves[n + k] by {}
    }
}

} // verus!
