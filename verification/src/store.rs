use vstd::prelude::*;

use crate::dates::{parse_date, spec_parse_date};
use crate::model::{AccessInfo, AccessRec, AccessStatistics, DayStatistics, same_record};
use crate::scan::{contains_str, str_contains, to_chars};

verus! {

// ---------------------------------------------------------------------------
// The access_info relation: an ordered table of records with
// insert-or-ignore persistence and two read-side aggregates.
// ---------------------------------------------------------------------------

/// The attribute images of a sequence of records.
pub open spec fn recs_of(v: Seq<AccessInfo>) -> Seq<AccessRec> {
    v.map_values(|r: AccessInfo| r@)
}

/// Insert-or-ignore of one record: a row whose attributes are already
/// present leaves the table unchanged.
pub open spec fn insert_rec(rows: Seq<AccessRec>, r: AccessRec) -> Seq<AccessRec> {
    if rows.contains(r) {
        rows
    } else {
        rows.push(r)
    }
}

/// Insert-or-ignore of a whole batch, in order.
pub open spec fn insert_batch(rows: Seq<AccessRec>, recs: Seq<AccessRec>) -> Seq<AccessRec>
    decreases recs.len(),
{
    if recs.len() == 0 {
        rows
    } else {
        insert_rec(insert_batch(rows, recs.drop_last()), recs.last())
    }
}

/// Inserting one record keeps every row that was present, and makes
/// the record itself present.
pub proof fn lemma_insert_rec_keeps(rows: Seq<AccessRec>, x: AccessRec, r: AccessRec)
    requires
        rows.contains(r) || x == r,
    ensures
        insert_rec(rows, x).contains(r),
{
    if rows.contains(x) {
    } else {
        let res = rows.push(x);
        if x == r {
            assert(res[rows.len() as int] == r);
        } else {
            let i = choose|i: int| 0 <= i < rows.len() && rows[i] == r;
            assert(res[i] == r);
        }
    }
}

/// Inserting a batch keeps every row that was present, and makes
/// every record of the batch present.
pub proof fn lemma_insert_batch_keeps(rows: Seq<AccessRec>, recs: Seq<AccessRec>, r: AccessRec)
    requires
        rows.contains(r) || recs.contains(r),
    ensures
        insert_batch(rows, recs).contains(r),
    decreases recs.len(),
{
    if recs.len() > 0 {
        let head = recs.drop_last();
        let prev = insert_batch(rows, head);
        if recs.last() == r {
            lemma_insert_rec_keeps(prev, recs.last(), r);
        } else {
            if !rows.contains(r) {
                let i = choose|i: int| 0 <= i < recs.len() && recs[i] == r;
                assert(head[i] == r);
            }
            lemma_insert_batch_keeps(rows, head, r);
            lemma_insert_rec_keeps(prev, recs.last(), r);
        }
    }
}

/// A batch whose rows are all present already changes nothing.
pub proof fn lemma_insert_batch_absorbed(rows: Seq<AccessRec>, recs: Seq<AccessRec>)
    requires
        forall|i: int| 0 <= i < recs.len() ==> rows.contains(#[trigger] recs[i]),
    ensures
        insert_batch(rows, recs) == rows,
    decreases recs.len(),
{
    if recs.len() > 0 {
        lemma_insert_batch_absorbed(rows, recs.drop_last());
        assert(rows.contains(recs[recs.len() - 1]));
    }
}

/// Insert-or-ignore is idempotent: repeating a batch adds nothing.
/// The table after inserting a batch twice is the table after
/// inserting it once.
pub proof fn lemma_insert_batch_idempotent(rows: Seq<AccessRec>, recs: Seq<AccessRec>)
    ensures
        insert_batch(insert_batch(rows, recs), recs) == insert_batch(rows, recs),
{
    let once = insert_batch(rows, recs);
    assert forall|i: int| 0 <= i < recs.len() implies once.contains(#[trigger] recs[i]) by {
        lemma_insert_batch_keeps(rows, recs, recs[i]);
    }
    lemma_insert_batch_absorbed(once, recs);
}

/// A batch of pairwise distinct records inserted into an empty table
/// lands whole: the table is exactly the batch.
pub proof fn lemma_insert_batch_distinct(recs: Seq<AccessRec>)
    requires
        forall|i: int, j: int| 0 <= i < j < recs.len() ==> recs[i] != recs[j],
    ensures
        insert_batch(Seq::<AccessRec>::empty(), recs) == recs,
    decreases recs.len(),
{
    if recs.len() > 0 {
        let head = recs.drop_last();
        lemma_insert_batch_distinct(head);
        assert(!head.contains(recs.last())) by {
            if head.contains(recs.last()) {
                let i = choose|i: int| 0 <= i < head.len() && head[i] == recs.last();
                assert(recs[i] == recs[recs.len() - 1]);
            }
        }
        assert(head.push(recs.last()) =~= recs);
    }
}

// ---------------------------------------------------------------------------
// The top-domains aggregate: group rows by destination domain, count,
// order by count descending, and bound the result.
// ---------------------------------------------------------------------------

/// How many rows name `d` as their destination domain.
pub open spec fn domain_count(rows: Seq<AccessRec>, d: Seq<char>) -> nat
    decreases rows.len(),
{
    if rows.len() == 0 {
        0
    } else {
        domain_count(rows.drop_last(), d) + (if rows.last().dst_domain == Some(d) {
            1nat
        } else {
            0nat
        })
    }
}

/// How many rows have a destination domain at all.
pub open spec fn count_with_domain(rows: Seq<AccessRec>) -> nat
    decreases rows.len(),
{
    if rows.len() == 0 {
        0
    } else {
        count_with_domain(rows.drop_last()) + (if rows.last().dst_domain is Some {
            1nat
        } else {
            0nat
        })
    }
}

/// The distinct destination domains of the table, in first-appearance
/// order.
pub open spec fn domains_in_order(rows: Seq<AccessRec>) -> Seq<Seq<char>>
    decreases rows.len(),
{
    if rows.len() == 0 {
        Seq::empty()
    } else {
        let prev = domains_in_order(rows.drop_last());
        match rows.last().dst_domain {
            Some(d) => if prev.contains(d) {
                prev
            } else {
                prev.push(d)
            },
            None => prev,
        }
    }
}

/// Membership in a pushed sequence.
proof fn lemma_push_contains<T>(s: Seq<T>, x: T, y: T)
    ensures
        s.push(x).contains(y) <==> (s.contains(y) || x == y),
{
    if s.push(x).contains(y) {
        let i = choose|i: int| 0 <= i < s.push(x).len() && s.push(x)[i] == y;
        if i < s.len() {
            assert(s[i] == y);
        }
    }
    if s.contains(y) {
        let i = choose|i: int| 0 <= i < s.len() && s[i] == y;
        assert(s.push(x)[i] == y);
    }
    if x == y {
        assert(s.push(x)[s.len() as int] == y);
    }
}

/// A domain counts no more rows than the table has.
proof fn lemma_domain_count_le(rows: Seq<AccessRec>, d: Seq<char>)
    ensures
        domain_count(rows, d) <= rows.len(),
    decreases rows.len(),
{
    if rows.len() > 0 {
        lemma_domain_count_le(rows.drop_last(), d);
    }
}

/// A domain outside the domain list counts no rows.
proof fn lemma_absent_domain_count_zero(rows: Seq<AccessRec>, d: Seq<char>)
    requires
        !domains_in_order(rows).contains(d),
    ensures
        domain_count(rows, d) == 0,
    decreases rows.len(),
{
    if rows.len() > 0 {
        let prev = domains_in_order(rows.drop_last());
        match rows.last().dst_domain {
            Some(x) => {
                lemma_push_contains(prev, x, d);
                if prev.contains(x) {
                    lemma_absent_domain_count_zero(rows.drop_last(), d);
                    assert(x != d);
                } else {
                    lemma_absent_domain_count_zero(rows.drop_last(), d);
                    assert(x != d);
                }
            },
            None => {
                lemma_absent_domain_count_zero(rows.drop_last(), d);
            },
        }
    }
}

/// Finds the entry for a domain among the gathered statistics.
fn find_domain(stats: &Vec<AccessStatistics>, d: &String) -> (r: Option<usize>)
    ensures
        match r {
            Some(k) => k < stats@.len() && stats@[k as int]@.0 == d@,
            None => forall|k: int| 0 <= k < stats@.len() ==> stats@[k]@.0 != d@,
        },
{
    let mut k: usize = 0;
    while k < stats.len()
        invariant
            0 <= k <= stats.len(),
            forall|q: int| 0 <= q < k ==> stats@[q]@.0 != d@,
        decreases stats.len() - k,
    {
        if stats[k].domain.eq(d) {
            return Some(k);
        }
        k = k + 1;
    }
    None
}

/// One pass over the table: one entry per distinct destination
/// domain, in first-appearance order, each carrying that domain's row
/// count.
fn gather_stats(rows: &Vec<AccessInfo>) -> (stats: Vec<AccessStatistics>)
    ensures
        ({
            let rs = recs_of(rows@);
            let doms = domains_in_order(rs);
            &&& stats@.len() == doms.len()
            &&& forall|j: int| 0 <= j < stats@.len() ==> (#[trigger] stats@[j])@.0 == doms[j]
            &&& forall|j: int|
                0 <= j < stats@.len() ==> (#[trigger] stats@[j])@.1 as nat == domain_count(
                    rs,
                    stats@[j]@.0,
                )
            &&& forall|j1: int, j2: int|
                0 <= j1 < j2 < stats@.len() ==> (#[trigger] stats@[j1])@.0 != (
                #[trigger] stats@[j2])@.0
        }),
{
    let ghost rs = recs_of(rows@);
    let mut stats: Vec<AccessStatistics> = Vec::new();
    let mut i: usize = 0;
    proof {
        assert(rs.subrange(0, 0) =~= Seq::<AccessRec>::empty());
    }
    while i < rows.len()
        invariant
            0 <= i <= rows.len(),
            rs == recs_of(rows@),
            rs.len() == rows.len(),
            stats@.len() == domains_in_order(rs.subrange(0, i as int)).len(),
            forall|j: int|
                0 <= j < stats@.len() ==> (#[trigger] stats@[j])@.0 == domains_in_order(
                    rs.subrange(0, i as int),
                )[j],
            forall|j: int|
                0 <= j < stats@.len() ==> (#[trigger] stats@[j])@.1 as nat == domain_count(
                    rs.subrange(0, i as int),
                    stats@[j]@.0,
                ),
            forall|j1: int, j2: int|
                0 <= j1 < j2 < stats@.len() ==> (#[trigger] stats@[j1])@.0 != (
                #[trigger] stats@[j2])@.0,
        decreases rows.len() - i,
    {
        let ghost cur = rs.subrange(0, i as int);
        let ghost next = rs.subrange(0, i as int + 1);
        proof {
            assert(next.drop_last() =~= cur);
            assert(next.last() == rs[i as int]);
            assert(rs[i as int] == rows@[i as int]@);
        }
        match &rows[i].dst_domain {
            Some(ds) => {
                let ghost d = ds@;
                assert(next.last().dst_domain == Some(d));
                match find_domain(&stats, ds) {
                    Some(k) => {
                        proof {
                            assert(domains_in_order(cur).contains(d)) by {
                                assert(domains_in_order(cur)[k as int] == d);
                            }
                            assert(domains_in_order(next) == domains_in_order(cur));
                            lemma_domain_count_le(cur, d);
                        }
                        let c = stats[k].count;
                        let dom2 = stats[k].domain.clone();
                        stats[k] = AccessStatistics { domain: dom2, count: c + 1 };
                    },
                    None => {
                        proof {
                            assert(!domains_in_order(cur).contains(d)) by {
                                if domains_in_order(cur).contains(d) {
                                    let j = choose|j: int|
                                        0 <= j < domains_in_order(cur).len()
                                            && domains_in_order(cur)[j] == d;
                                    assert(stats@[j]@.0 == d);
                                }
                            }
                            assert(domains_in_order(next) == domains_in_order(cur).push(d));
                            lemma_absent_domain_count_zero(cur, d);
                        }
                        stats.push(AccessStatistics { domain: ds.clone(), count: 1 });
                    },
                }
            },
            None => {
                proof {
                    assert(next.last().dst_domain is None);
                    assert(domains_in_order(next) == domains_in_order(cur));
                }
            },
        }
        i = i + 1;
    }
    proof {
        assert(rs.subrange(0, rows.len() as int) =~= rs);
    }
    stats
}

/// The attribute images of a sequence of statistics rows.
pub open spec fn stats_of(v: Seq<AccessStatistics>) -> Seq<(Seq<char>, u64)> {
    v.map_values(|s: AccessStatistics| s@)
}

/// Orders statistics by count, largest first.  The output holds the
/// same entries; distinct domains stay distinct.
#[verifier::rlimit(100)]
fn sort_stats_desc(stats: Vec<AccessStatistics>) -> (out: Vec<AccessStatistics>)
    requires
        forall|j1: int, j2: int|
            0 <= j1 < j2 < stats@.len() ==> (#[trigger] stats@[j1])@.0 != (#[trigger] stats@[j2])@.0,
    ensures
        out@.len() == stats@.len(),
        forall|a: int, b: int| 0 <= a < b < out@.len() ==> (#[trigger] out@[a])@.1 >= (#[trigger] out@[b])@.1,
        forall|j: int| 0 <= j < stats@.len() ==> stats_of(out@).contains((#[trigger] stats@[j])@),
        forall|k: int| 0 <= k < out@.len() ==> stats_of(stats@).contains((#[trigger] out@[k])@),
        forall|k1: int, k2: int|
            0 <= k1 < k2 < out@.len() ==> (#[trigger] out@[k1])@.0 != (#[trigger] out@[k2])@.0,
{
    let mut out: Vec<AccessStatistics> = Vec::new();
    let mut i: usize = 0;
    while i < stats.len()
        invariant
            0 <= i <= stats.len(),
            out@.len() == i,
            forall|j1: int, j2: int|
                0 <= j1 < j2 < stats@.len() ==> (#[trigger] stats@[j1])@.0 != (
                #[trigger] stats@[j2])@.0,
            forall|a: int, b: int|
                0 <= a < b < out@.len() ==> (#[trigger] out@[a])@.1 >= (#[trigger] out@[b])@.1,
            forall|j: int| 0 <= j < i ==> stats_of(out@).contains((#[trigger] stats@[j])@),
            forall|k: int|
                0 <= k < out@.len() ==> stats_of(stats@).subrange(0, i as int).contains(
                    (#[trigger] out@[k])@,
                ),
            forall|k1: int, k2: int|
                0 <= k1 < k2 < out@.len() ==> (#[trigger] out@[k1])@.0 != (#[trigger] out@[k2])@.0,
        decreases stats.len() - i,
    {
        let v = stats[i].clone();
        let mut pos: usize = 0;
        while pos < out.len() && out[pos].count >= v.count
            invariant
                0 <= pos <= out@.len(),
                forall|q: int| 0 <= q < pos ==> (#[trigger] out@[q])@.1 >= v@.1,
            decreases out.len() - pos,
        {
            pos = pos + 1;
        }
        let ghost before = out@;
        out.insert(pos, v);
        proof {
            before.insert_ensures(pos as int, v);
            let now = out@;
            assert(now == before.insert(pos as int, v));
            // order kept
            assert forall|a: int, b: int|
                0 <= a < b < now.len() implies (#[trigger] now[a])@.1 >= (#[trigger] now[b])@.1 by {
                if b < pos {
                } else if a > pos {
                    assert(now[a] == before[a - 1] && now[b] == before[b - 1]);
                } else if a == pos && b > pos {
                    assert(now[b] == before[b - 1]);
                    assert(before[pos as int]@.1 < v@.1);
                    if b - 1 > pos {
                        assert(before[pos as int]@.1 >= before[b - 1]@.1);
                    }
                } else if b == pos {
                    assert(now[a] == before[a]);
                } else if a < pos && b > pos {
                    assert(now[a] == before[a] && now[b] == before[b - 1]);
                    if a < pos && pos < before.len() {
                        assert(before[a]@.1 >= v@.1);
                    }
                }
            }
            // every processed entry appears
            assert forall|j: int| 0 <= j < i + 1 implies stats_of(now).contains(
                (#[trigger] stats@[j])@,
            ) by {
                if j == i {
                    assert(stats_of(now)[pos as int] == stats@[j]@);
                } else {
                    let k = choose|k: int|
                        0 <= k < before.len() && stats_of(before)[k] == stats@[j]@;
                    if k < pos {
                        assert(stats_of(now)[k] == stats@[j]@);
                    } else {
                        assert(now[k + 1] == before[k]);
                        assert(stats_of(now)[k + 1] == stats@[j]@);
                    }
                }
            }
            // every entry comes from the input
            let ghost pre_now = stats_of(stats@).subrange(0, i as int + 1);
            assert forall|k: int| 0 <= k < now.len() implies pre_now.contains(
                (#[trigger] now[k])@,
            ) by {
                let pre = stats_of(stats@).subrange(0, i as int);
                if k == pos {
                    assert(now[k]@ == stats@[i as int]@);
                    assert(pre_now[i as int] == now[k]@);
                } else {
                    let kk = if k < pos { k } else { k - 1 };
                    assert(now[k] == before[kk]);
                    let j0 = choose|j: int| 0 <= j < pre.len() && pre[j] == before[kk]@;
                    assert(pre_now[j0] == now[k]@);
                }
            }
            // domains stay distinct
            assert forall|k1: int, k2: int|
                0 <= k1 < k2 < now.len() implies (#[trigger] now[k1])@.0 != (
            #[trigger] now[k2])@.0 by {
                let a1 = if k1 == pos {
                    v
                } else if k1 < pos {
                    before[k1]
                } else {
                    before[k1 - 1]
                };
                let a2 = if k2 == pos {
                    v
                } else if k2 < pos {
                    before[k2]
                } else {
                    before[k2 - 1]
                };
                assert(now[k1] == a1 && now[k2] == a2);
                if k1 == pos || k2 == pos {
                    let other = if k1 == pos {
                        a2
                    } else {
                        a1
                    };
                    let pre = stats_of(stats@).subrange(0, i as int);
                    let j = choose|j: int| 0 <= j < pre.len() && pre[j] == other@;
                    assert(stats_of(stats@)[j] == other@);
                    assert(stats@[j]@.0 != stats@[i as int]@.0);
                }
            }
        }
        i = i + 1;
    }
    proof {
        assert(stats_of(stats@).subrange(0, i as int) =~= stats_of(stats@));
    }
    out
}

/// Sum of the counts of the listed domains.
pub open spec fn sum_counts(rows: Seq<AccessRec>, doms: Seq<Seq<char>>) -> nat
    decreases doms.len(),
{
    if doms.len() == 0 {
        0
    } else {
        sum_counts(rows, doms.drop_last()) + domain_count(rows, doms.last())
    }
}

/// Sum of the counts of a statistics list.
pub open spec fn sum_stats(stats: Seq<AccessStatistics>) -> nat
    decreases stats.len(),
{
    if stats.len() == 0 {
        0
    } else {
        sum_stats(stats.drop_last()) + stats.last()@.1 as nat
    }
}

/// Appending one row raises the sum over a duplicate-free domain list
/// by one exactly when the row's domain is listed.
proof fn lemma_sum_push_row(rows: Seq<AccessRec>, r: AccessRec, doms: Seq<Seq<char>>)
    requires
        forall|a: int, b: int| 0 <= a < b < doms.len() ==> doms[a] != doms[b],
    ensures
        sum_counts(rows.push(r), doms) == sum_counts(rows, doms) + (match r.dst_domain {
            Some(d) => if doms.contains(d) {
                1nat
            } else {
                0nat
            },
            None => 0nat,
        }),
    decreases doms.len(),
{
    if doms.len() > 0 {
        let head = doms.drop_last();
        lemma_sum_push_row(rows, r, head);
        assert(rows.push(r).drop_last() =~= rows);
        assert(rows.push(r).last() == r);
        match r.dst_domain {
            Some(d) => {
                assert(doms =~= head.push(doms.last()));
                lemma_push_contains(head, doms.last(), d);
                if doms.contains(d) && d == doms.last() {
                    assert(!head.contains(d)) by {
                        if head.contains(d) {
                            let i = choose|i: int| 0 <= i < head.len() && head[i] == d;
                            assert(doms[i] == doms[doms.len() - 1]);
                        }
                    }
                }
            },
            None => {
            },
        }
    }
}

/// The domain list of a table is duplicate-free.
proof fn lemma_domains_distinct(rows: Seq<AccessRec>)
    ensures
        forall|a: int, b: int|
            0 <= a < b < domains_in_order(rows).len() ==> domains_in_order(rows)[a]
                != domains_in_order(rows)[b],
    decreases rows.len(),
{
    if rows.len() > 0 {
        lemma_domains_distinct(rows.drop_last());
        let prev = domains_in_order(rows.drop_last());
        let doms = domains_in_order(rows);
        match rows.last().dst_domain {
            Some(d) => {
                if !prev.contains(d) {
                    assert forall|a: int, b: int| 0 <= a < b < doms.len() implies doms[a]
                        != doms[b] by {
                        if b == prev.len() {
                            assert(doms[a] == prev[a]);
                            if prev[a] == d {
                                assert(prev.contains(d));
                            }
                        }
                    }
                }
            },
            None => {
            },
        }
    }
}

/// Every domain of the table partitions its rows: the per-domain
/// counts sum to the number of rows that have a domain at all.
pub proof fn lemma_counts_partition(rows: Seq<AccessRec>)
    ensures
        sum_counts(rows, domains_in_order(rows)) == count_with_domain(rows),
    decreases rows.len(),
{
    if rows.len() > 0 {
        let head = rows.drop_last();
        let r = rows.last();
        lemma_counts_partition(head);
        lemma_domains_distinct(head);
        let prev = domains_in_order(head);
        assert(head.push(r) =~= rows);
        assert(head.push(r) == rows);
        lemma_sum_push_row(head, r, prev);
        match r.dst_domain {
            Some(d) => {
                if !prev.contains(d) {
                    assert(domains_in_order(rows) == prev.push(d));
                    assert(prev.push(d).drop_last() =~= prev);
                    assert(prev.push(d).last() == d);
                    lemma_absent_domain_count_zero(head, d);
                    assert(domain_count(rows, d) == domain_count(head, d) + 1);
                }
            },
            None => {
            },
        }
    }
}

/// Removing one listed domain removes exactly its count from the sum.
proof fn lemma_sum_remove(rows: Seq<AccessRec>, doms: Seq<Seq<char>>, idx: int)
    requires
        0 <= idx < doms.len(),
    ensures
        sum_counts(rows, doms) == sum_counts(rows, doms.remove(idx)) + domain_count(
            rows,
            doms[idx],
        ),
    decreases doms.len(),
{
    doms.remove_ensures(idx);
    if idx == doms.len() - 1 {
        assert(doms.remove(idx) =~= doms.drop_last());
    } else {
        let head = doms.drop_last();
        lemma_sum_remove(rows, head, idx);
        assert(doms.remove(idx).drop_last() =~= head.remove(idx));
        assert(doms.remove(idx).last() == doms.last());
        assert(head[idx] == doms[idx]);
    }
}

/// A statistics list whose rows carry the true count of their domain,
/// one row per domain and a row for every domain, sums to the sum
/// over the domain list.
proof fn lemma_sum_stats_eq(
    rows: Seq<AccessRec>,
    stats: Seq<AccessStatistics>,
    doms: Seq<Seq<char>>,
)
    requires
        forall|a: int, b: int| 0 <= a < b < doms.len() ==> doms[a] != doms[b],
        forall|a: int, b: int|
            0 <= a < b < stats.len() ==> (#[trigger] stats[a])@.0 != (#[trigger] stats[b])@.0,
        forall|j: int| 0 <= j < stats.len() ==> doms.contains((#[trigger] stats[j])@.0),
        forall|d: Seq<char>| #[trigger] doms.contains(d) ==> dom_included(stats, d),
        forall|j: int|
            0 <= j < stats.len() ==> (#[trigger] stats[j])@.1 as nat == domain_count(
                rows,
                stats[j]@.0,
            ),
    ensures
        sum_stats(stats) == sum_counts(rows, doms),
    decreases stats.len(),
{
    if stats.len() == 0 {
        if doms.len() > 0 {
            assert(doms.contains(doms[0]));
            assert(dom_included(stats, doms[0]));
            let k = choose|k: int| 0 <= k < stats.len() && (#[trigger] stats[k])@.0 == doms[0];
            assert(false);
        }
    } else {
        let st = stats.last();
        let d0 = st@.0;
        assert(doms.contains(d0));
        let idx = choose|i: int| 0 <= i < doms.len() && doms[i] == d0;
        let doms2 = doms.remove(idx);
        let stats2 = stats.drop_last();
        doms.remove_ensures(idx);
        lemma_sum_remove(rows, doms, idx);
        assert forall|a: int, b: int| 0 <= a < b < doms2.len() implies doms2[a] != doms2[b] by {
            let a0 = if a < idx {
                a
            } else {
                a + 1
            };
            let b0 = if b < idx {
                b
            } else {
                b + 1
            };
            assert(doms2[a] == doms[a0] && doms2[b] == doms[b0]);
        }
        assert forall|j: int| 0 <= j < stats2.len() implies doms2.contains(
            (#[trigger] stats2[j])@.0,
        ) by {
            assert(stats2[j] == stats[j]);
            assert(doms.contains(stats[j]@.0));
            let i0 = choose|i: int| 0 <= i < doms.len() && doms[i] == (#[trigger] stats[j])@.0;
            assert(stats[j]@.0 != d0);
            assert(i0 != idx);
            if i0 < idx {
                assert(doms2[i0] == doms[i0]);
            } else {
                assert(doms2[i0 - 1] == doms[i0]);
            }
        }
        assert forall|d: Seq<char>| #[trigger] doms2.contains(d) implies dom_included(
            stats2,
            d,
        ) by {
            let i0 = choose|i: int| 0 <= i < doms2.len() && doms2[i] == d;
            let i1 = if i0 < idx {
                i0
            } else {
                i0 + 1
            };
            assert(doms[i1] == d);
            assert(i1 != idx);
            assert(d != d0) by {
                if d == d0 {
                    assert(doms[i1] == doms[idx]);
                }
            }
            assert(doms.contains(d)) by {
                assert(doms[i1] == d);
            }
            assert(dom_included(stats, d));
            let k = choose|k: int| 0 <= k < stats.len() && (#[trigger] stats[k])@.0 == d;
            assert(k != stats.len() - 1);
            assert(stats2[k] == stats[k]);
            assert(dom_included(stats2, d)) by {
                assert((stats2[k])@.0 == d);
            }
        }
        lemma_sum_stats_eq(rows, stats2, doms2);
    }
}

/// Round trip: a batch of pairwise distinct records lands whole in an
/// empty table, and any statistics list that the top-domains view
/// admits for that table with nothing omitted, as when its bound is
/// at least the batch size, has counts summing to the number of
/// records with a destination domain.
pub proof fn lemma_round_trip_counts(recs: Seq<AccessRec>, stats: Seq<AccessStatistics>)
    requires
        forall|i: int, j: int| 0 <= i < j < recs.len() ==> recs[i] != recs[j],
        forall|a: int, b: int|
            0 <= a < b < stats.len() ==> (#[trigger] stats[a])@.0 != (#[trigger] stats[b])@.0,
        forall|j: int|
            0 <= j < stats.len() ==> domains_in_order(recs).contains((#[trigger] stats[j])@.0),
        forall|d: Seq<char>| #[trigger] domains_in_order(recs).contains(d) ==> dom_included(
            stats,
            d,
        ),
        forall|j: int|
            0 <= j < stats.len() ==> (#[trigger] stats[j])@.1 as nat == domain_count(
                recs,
                stats[j]@.0,
            ),
    ensures
        insert_batch(Seq::<AccessRec>::empty(), recs) == recs,
        sum_stats(stats) == count_with_domain(recs),
{
    lemma_insert_batch_distinct(recs);
    lemma_domains_distinct(recs);
    lemma_sum_stats_eq(recs, stats, domains_in_order(recs));
    lemma_counts_partition(recs);
}

/// Whether some row of a statistics list names the domain `d`.
pub open spec fn dom_included(r: Seq<AccessStatistics>, d: Seq<char>) -> bool {
    exists|j: int| 0 <= j < r.len() && (#[trigger] r[j])@.0 == d
}

// ---------------------------------------------------------------------------
// The per-day aggregate: how many rows carry a timestamp containing a
// requested date text.
// ---------------------------------------------------------------------------

/// How many rows have a timestamp that contains `date` as a substring.
pub open spec fn time_match_count(rows: Seq<AccessRec>, date: Seq<char>) -> nat
    decreases rows.len(),
{
    if rows.len() == 0 {
        0
    } else {
        time_match_count(rows.drop_last(), date) + (if contains_str(rows.last().time, date) {
            1nat
        } else {
            0nat
        })
    }
}

/// The day rows answered for a list of requested date texts, in
/// order: a date that fails the date grammar is answered with a zero
/// count and no row is counted for it; a valid date with at least one
/// matching row is answered with its count; a valid date that matches
/// no row is omitted.
pub open spec fn days_result(rows: Seq<AccessRec>, dates: Seq<Seq<char>>) -> Seq<(Seq<char>, nat)>
    decreases dates.len(),
{
    if dates.len() == 0 {
        Seq::empty()
    } else {
        let prev = days_result(rows, dates.drop_last());
        let d = dates.last();
        if spec_parse_date(d) is None {
            prev.push((d, 0))
        } else {
            let n = time_match_count(rows, d);
            if n > 0 {
                prev.push((d, n))
            } else {
                prev
            }
        }
    }
}

/// How many rows of the table have a timestamp containing `date`.
fn count_time_matches(rows: &Vec<AccessInfo>, date: &Vec<char>) -> (n: u64)
    ensures
        n as nat == time_match_count(recs_of(rows@), date@),
        n <= rows@.len(),
{
    let ghost rs = recs_of(rows@);
    let mut n: u64 = 0;
    let mut i: usize = 0;
    proof {
        assert(rs.subrange(0, 0) =~= Seq::<AccessRec>::empty());
    }
    while i < rows.len()
        invariant
            0 <= i <= rows.len(),
            rs == recs_of(rows@),
            rs.len() == rows.len(),
            n as nat == time_match_count(rs.subrange(0, i as int), date@),
            n <= i,
        decreases rows.len() - i,
    {
        proof {
            assert(rs.subrange(0, i as int + 1).drop_last() =~= rs.subrange(0, i as int));
            assert(rs.subrange(0, i as int + 1).last() == rs[i as int]);
            assert(rs[i as int] == rows@[i as int]@);
        }
        let t = to_chars(rows[i].time.as_str());
        if str_contains(&t, date) {
            n = n + 1;
        }
        i = i + 1;
    }
    proof {
        assert(rs.subrange(0, rows.len() as int) =~= rs);
    }
    n
}

/// The table of access records.  Rows keep their insertion order;
/// a surrogate id is assigned when a row lands.
pub struct Store {
    rows: Vec<AccessInfo>,
}

impl View for Store {
    type V = Seq<AccessRec>;

    closed spec fn view(&self) -> Seq<AccessRec> {
        recs_of(self.rows@)
    }
}

impl Store {
    /// An empty table.
    pub fn new() -> (s: Store)
        ensures
            s@ == Seq::<AccessRec>::empty(),
    {
        let s = Store { rows: Vec::new() };
        proof {
            assert(s@ =~= Seq::<AccessRec>::empty());
        }
        s
    }

    /// Number of rows.
    pub fn len(&self) -> (n: usize)
        ensures
            n == self@.len(),
    {
        self.rows.len()
    }

    /// Whether a row with the record's attributes is present.
    fn contains_record(&self, rec: &AccessInfo) -> (b: bool)
        ensures
            b == self@.contains(rec@),
    {
        let mut i: usize = 0;
        while i < self.rows.len()
            invariant
                0 <= i <= self.rows.len(),
                forall|j: int| 0 <= j < i ==> self@[j] != rec@,
            decreases self.rows.len() - i,
        {
            if same_record(&self.rows[i], rec) {
                assert(self@[i as int] == rec@);
                return true;
            }
            i = i + 1;
        }
        assert(!self@.contains(rec@)) by {
            if self@.contains(rec@) {
                let j = choose|j: int| 0 <= j < self@.len() && self@[j] == rec@;
                assert(self@[j] != rec@);
            }
        }
        false
    }

    /// Persists a batch in one pass: each record lands unless a row
    /// with the same attributes is already present, in which case it
    /// is silently ignored.  Returns the number of records attempted,
    /// not the number that landed.
    pub fn update_database(&mut self, records: &Vec<AccessInfo>) -> (n: usize)
        ensures
            final(self)@ == insert_batch(old(self)@, recs_of(records@)),
            n == records.len(),
    {
        let ghost ks = recs_of(records@);
        let mut i: usize = 0;
        proof {
            assert(ks.subrange(0, 0) =~= Seq::<AccessRec>::empty());
        }
        while i < records.len()
            invariant
                0 <= i <= records.len(),
                ks == recs_of(records@),
                ks.len() == records.len(),
                self@ == insert_batch(old(self)@, ks.subrange(0, i as int)),
            decreases records.len() - i,
        {
            proof {
                assert(ks.subrange(0, i as int + 1).drop_last() =~= ks.subrange(0, i as int));
                assert(ks.subrange(0, i as int + 1).last() == ks[i as int]);
                assert(ks[i as int] == records@[i as int]@);
            }
            let rec = &records[i];
            if !self.contains_record(rec) {
                let mut cl = rec.clone();
                cl.id = (self.rows.len() as u64).wrapping_add(1);
                let ghost before = self@;
                self.rows.push(cl);
                proof {
                    assert(self@ =~= before.push(rec@));
                }
            }
            i = i + 1;
        }
        proof {
            assert(ks.subrange(0, records.len() as int) =~= ks);
        }
        records.len()
    }

    /// The top destination domains: one row per distinct domain with
    /// its access count, ordered by count descending, at most `limit`
    /// rows.  When the table holds more domains than `limit`, every
    /// omitted domain counts no more than the last row kept; ties
    /// leave the choice among equals open.
    pub fn get_top_10_domain_statistics(&self, limit: usize) -> (r: Vec<AccessStatistics>)
        ensures
            ({
                let doms = domains_in_order(self@);
                &&& r@.len() == (if limit <= doms.len() {
                    limit as nat
                } else {
                    doms.len()
                })
                &&& forall|j: int| 0 <= j < r@.len() ==> doms.contains((#[trigger] r@[j])@.0)
                &&& forall|j: int|
                    0 <= j < r@.len() ==> (#[trigger] r@[j])@.1 as nat == domain_count(
                        self@,
                        r@[j]@.0,
                    )
                &&& forall|a: int, b: int|
                    0 <= a < b < r@.len() ==> (#[trigger] r@[a])@.1 >= (#[trigger] r@[b])@.1
                &&& forall|a: int, b: int|
                    0 <= a < b < r@.len() ==> (#[trigger] r@[a])@.0 != (#[trigger] r@[b])@.0
                &&& forall|d: Seq<char>|
                    #[trigger] doms.contains(d) && !dom_included(r@, d) ==> r@.len() == limit
                        && limit < doms.len() && (r@.len() > 0 ==> domain_count(self@, d) <= r@[r@.len()
                        - 1]@.1)
            }),
    {
        let ghost rs = self@;
        let ghost doms = domains_in_order(rs);
        let stats = gather_stats(&self.rows);
        let sorted = sort_stats_desc(stats);
        let take: usize = if limit < sorted.len() {
            limit
        } else {
            sorted.len()
        };
        let mut r: Vec<AccessStatistics> = Vec::new();
        let mut k: usize = 0;
        while k < take
            invariant
                0 <= k <= take <= sorted.len(),
                r@.len() == k,
                forall|q: int| 0 <= q < k ==> (#[trigger] r@[q])@ == sorted@[q]@,
            decreases take - k,
        {
            let cl = sorted[k].clone();
            r.push(cl);
            k = k + 1;
        }
        proof {
            let sstats = stats_of(stats@);
            // each kept row is a gathered row: counts and membership
            assert forall|j: int| 0 <= j < r@.len() implies doms.contains((#[trigger] r@[j])@.0)
                && r@[j]@.1 as nat == domain_count(rs, r@[j]@.0) by {
                assert(sstats.contains(sorted@[j]@));
                let jj = choose|q: int| 0 <= q < sstats.len() && sstats[q] == sorted@[j]@;
                assert(stats@[jj]@ == r@[j]@);
                assert(doms[jj] == stats@[jj]@.0);
                assert(doms.contains(r@[j]@.0)) by {
                    assert(doms[jj] == r@[j]@.0);
                }
            }
            // an omitted domain counts no more than the last kept row
            assert forall|d: Seq<char>|
                #[trigger] doms.contains(d) && !dom_included(r@, d) implies r@.len() == limit
                && limit < doms.len() && (r@.len() > 0 ==> domain_count(rs, d) <= r@[r@.len()
                - 1]@.1) by {
                let jd = choose|q: int| 0 <= q < doms.len() && doms[q] == d;
                assert(stats@[jd]@.0 == d);
                assert(stats@[jd]@.1 as nat == domain_count(rs, d));
                assert(stats_of(sorted@).contains(stats@[jd]@));
                let ks = choose|q: int|
                    0 <= q < stats_of(sorted@).len() && stats_of(sorted@)[q] == stats@[jd]@;
                assert(sorted@[ks]@ == stats@[jd]@);
                if ks < take {
                    assert((r@[ks])@.0 == d);
                } else {
                    assert(take < sorted@.len());
                    if r@.len() > 0 {
                        assert(sorted@[take - 1]@.1 >= sorted@[ks]@.1);
                        assert(r@[take - 1]@ == sorted@[take - 1]@);
                    }
                }
            }
        }
        r
    }

    /// The day rows for a list of requested date texts: an invalid
    /// date is answered with a zero count without consulting the
    /// table, a valid date with matching rows is answered with their
    /// count, and a valid date with none is omitted.
    pub fn get_days_statistics(&self, dates: &Vec<String>) -> (r: Vec<DayStatistics>)
        ensures
            ({
                let expected = days_result(self@, dates.deep_view());
                &&& r@.len() == expected.len()
                &&& forall|j: int|
                    0 <= j < r@.len() ==> (#[trigger] r@[j])@.0 == expected[j].0 && r@[j]@.1
                        as nat == expected[j].1
            }),
    {
        let ghost rs = self@;
        let ghost dv = dates.deep_view();
        let mut r: Vec<DayStatistics> = Vec::new();
        let mut i: usize = 0;
        proof {
            assert(dv.subrange(0, 0) =~= Seq::<Seq<char>>::empty());
        }
        while i < dates.len()
            invariant
                0 <= i <= dates.len(),
                rs == self@,
                dv == dates.deep_view(),
                dv.len() == dates.len(),
                forall|q: int| 0 <= q < dv.len() ==> dv[q] == dates@[q]@,
                r@.len() == days_result(rs, dv.subrange(0, i as int)).len(),
                forall|j: int|
                    0 <= j < r@.len() ==> (#[trigger] r@[j])@.0 == days_result(
                        rs,
                        dv.subrange(0, i as int),
                    )[j].0 && r@[j]@.1 as nat == days_result(rs, dv.subrange(0, i as int))[j].1,
            decreases dates.len() - i,
        {
            proof {
                assert(dv.subrange(0, i as int + 1).drop_last() =~= dv.subrange(0, i as int));
                assert(dv.subrange(0, i as int + 1).last() == dv[i as int]);
            }
            match parse_date(dates[i].as_str()) {
                None => {
                    let nm = dates[i].clone();
                    r.push(DayStatistics { date_name: nm, domain_count: 0 });
                },
                Some(_) => {
                    let d = to_chars(dates[i].as_str());
                    let cnt = count_time_matches(&self.rows, &d);
                    if cnt > 0 {
                        let nm = dates[i].clone();
                        r.push(DayStatistics { date_name: nm, domain_count: cnt });
                    }
                },
            }
            i = i + 1;
        }
        proof {
            assert(dv.subrange(0, dates.len() as int) =~= dv);
        }
        r
    }
}

} // verus!
