//! Scoring every (source, query) pair: per-pair score lists, result rows,
//! the partition of the sources among workers and the drain schedule.
use vstd::prelude::*;

use crate::align::{local_score, smith_waterman, MAX_ALIGN_LEN};
use crate::window::{lemma_window_fits, window_count_spec, windows, windows_spec, MAX_SOURCE_LEN, WINDOW_LEN};

verus! {

/// Number of joined workers between two drains of the result table.
pub const DRAIN_PERIOD: usize = 200;

/// The score of each probe of `s` against `q`, in ascending offset order.
pub open spec fn window_scores(s: Seq<char>, q: Seq<char>) -> Seq<int> {
    windows_spec(s).map_values(|w: Seq<char>| local_score(w, q))
}

/// The row of one pair: source, query and its score list.
pub open spec fn pair_row(s: Seq<char>, q: Seq<char>) -> (Seq<char>, Seq<char>, Seq<int>) {
    (s, q, window_scores(s, q))
}

/// The rows of `s` against every query, in query order.
pub open spec fn source_rows(s: Seq<char>, queries: Seq<Seq<char>>) -> Seq<
    (Seq<char>, Seq<char>, Seq<int>),
> {
    queries.map_values(|q: Seq<char>| pair_row(s, q))
}

/// The rows of every pair, in source order and, within one source, in query order.
pub open spec fn table_rows(sources: Seq<Seq<char>>, queries: Seq<Seq<char>>) -> Seq<
    (Seq<char>, Seq<char>, Seq<int>),
>
    decreases sources.len(),
{
    if sources.len() == 0 {
        Seq::empty()
    } else {
        table_rows(sources.drop_last(), queries) + source_rows(sources.last(), queries)
    }
}

/// The views of a list of strings.
pub open spec fn views(v: Seq<String>) -> Seq<Seq<char>> {
    v.map_values(|s: String| s@)
}

/// Every source is short enough to be sliced.
pub open spec fn sources_ok(sources: Seq<String>) -> bool {
    forall|i: int| 0 <= i < sources.len() ==> (#[trigger] sources[i])@.len() <= MAX_SOURCE_LEN
}

/// Every query is short enough to be aligned.
pub open spec fn queries_ok(queries: Seq<String>) -> bool {
    forall|i: int| 0 <= i < queries.len() ==> (#[trigger] queries[i])@.len() <= MAX_ALIGN_LEN
}

/// One line of the result table.
#[derive(Debug)]
pub struct ResultRow {
    pub source: String,
    pub query: String,
    pub scores: Vec<i32>,
}

impl View for ResultRow {
    type V = (Seq<char>, Seq<char>, Seq<int>);

    open spec fn view(&self) -> (Seq<char>, Seq<char>, Seq<int>) {
        (self.source@, self.query@, self.scores@.map_values(|x: i32| x as int))
    }
}

/// The views of a list of rows.
pub open spec fn row_views(v: Seq<ResultRow>) -> Seq<(Seq<char>, Seq<char>, Seq<int>)> {
    v.map_values(|r: ResultRow| r@)
}

/// The score of each probe of `source` against `query`, in ascending offset order.
pub fn score_pair(source: &str, query: &str) -> (r: Vec<i32>)
    requires
        source@.len() <= MAX_SOURCE_LEN,
        query@.len() <= MAX_ALIGN_LEN,
    ensures
        r@.map_values(|x: i32| x as int) == window_scores(source@, query@),
{
    let probes = windows(source);
    let mut scores: Vec<i32> = Vec::new();
    let mut k: usize = 0;
    while k < probes.len()
        invariant
            probes@.len() == window_count_spec(source@.len() as int),
            forall|t: int|
                0 <= t < probes@.len() ==> (#[trigger] probes@[t])@ == windows_spec(source@)[t],
            query@.len() <= MAX_ALIGN_LEN,
            k <= probes@.len(),
            scores@.len() == k,
            forall|t: int|
                0 <= t < k ==> #[trigger] scores@[t] as int == local_score(
                    windows_spec(source@)[t],
                    query@,
                ),
        decreases probes@.len() - k,
    {
        proof {
            lemma_window_fits(source@.len() as int, k as int);
        }
        assert(probes@[k as int]@.len() == WINDOW_LEN);
        scores.push(smith_waterman(probes[k].as_str(), query));
        k += 1;
    }
    assert(scores@.map_values(|x: i32| x as int) =~= window_scores(source@, query@));
    scores
}

/// The rows of the sources `start..end` against every query, in source order
/// and, within one source, in query order.
pub fn evaluate_chunk(sources: &Vec<String>, queries: &Vec<String>, start: usize, end: usize) -> (r:
    Vec<ResultRow>)
    requires
        start <= end <= sources@.len(),
        sources_ok(sources@),
        queries_ok(queries@),
    ensures
        row_views(r@) == table_rows(views(sources@).subrange(start as int, end as int), views(queries@)),
{
    let ghost qs = views(queries@);
    let mut rows: Vec<ResultRow> = Vec::new();
    let mut i: usize = start;
    while i < end
        invariant
            start <= i <= end <= sources@.len(),
            sources_ok(sources@),
            queries_ok(queries@),
            qs == views(queries@),
            row_views(rows@) == table_rows(views(sources@).subrange(start as int, i as int), qs),
        decreases end - i,
    {
        let ghost before = row_views(rows@);
        let ghost s = sources@[i as int]@;
        let mut j: usize = 0;
        while j < queries.len()
            invariant
                start <= i < end <= sources@.len(),
                sources_ok(sources@),
                queries_ok(queries@),
                qs == views(queries@),
                s == sources@[i as int]@,
                j <= queries@.len(),
                row_views(rows@) == before + source_rows(s, qs.subrange(0, j as int)),
            decreases queries@.len() - j,
        {
            let scores = score_pair(sources[i].as_str(), queries[j].as_str());
            let row = ResultRow {
                source: sources[i].clone(),
                query: queries[j].clone(),
                scores,
            };
            assert(row@ == pair_row(s, qs[j as int]));
            let ghost prev = rows@;
            rows.push(row);
            assert(row_views(rows@) =~= row_views(prev).push(row@));
            assert(source_rows(s, qs.subrange(0, j + 1)) =~= source_rows(s, qs.subrange(0, j as int)).push(pair_row(s, qs[j as int])));
            assert(row_views(rows@) =~= before + source_rows(s, qs.subrange(0, j + 1)));
            j += 1;
        }
        let ghost done = views(sources@).subrange(start as int, i + 1);
        assert(done.drop_last() =~= views(sources@).subrange(start as int, i as int));
        assert(qs.subrange(0, queries@.len() as int) =~= qs);
        i += 1;
    }
    rows
}

/// The rows of every pair, scored one source after another.
pub fn evaluate_all(sources: &Vec<String>, queries: &Vec<String>) -> (r: Vec<ResultRow>)
    requires
        sources_ok(sources@),
        queries_ok(queries@),
    ensures
        row_views(r@) == table_rows(views(sources@), views(queries@)),
{
    let r = evaluate_chunk(sources, queries, 0, sources.len());
    assert(views(sources@).subrange(0, sources@.len() as int) =~= views(sources@));
    r
}

/// Sources per worker: `ceil(n_sources / workers)`.
pub open spec fn chunk_size_spec(n_sources: int, workers: int) -> int {
    (n_sources + workers - 1) / workers
}

/// Sources per worker when `n_sources` sources are shared by `workers` workers.
pub fn chunk_size(n_sources: usize, workers: usize) -> (r: usize)
    requires
        workers > 0,
    ensures
        r == chunk_size_spec(n_sources as int, workers as int),
{
    let q = n_sources / workers;
    let extra: usize = if n_sources % workers != 0 {
        1
    } else {
        0
    };
    assert(q + extra <= n_sources) by (nonlinear_arith)
        requires
            q as int == n_sources as int / workers as int,
            extra == (if n_sources % workers != 0 {
                1int
            } else {
                0int
            }),
            workers > 0,
    {
        let n = n_sources as int;
        let w = workers as int;
        assert(n == w * (n / w) + n % w);
        assert(w * (n / w) >= n / w);
    }
    assert(q + extra == chunk_size_spec(n_sources as int, workers as int)) by (nonlinear_arith)
        requires
            q as int == n_sources as int / workers as int,
            extra == (if n_sources % workers != 0 {
                1int
            } else {
                0int
            }),
            workers > 0,
    {
        let n = n_sources as int;
        let w = workers as int;
        assert(n == w * (n / w) + n % w);
        assert(0 <= n % w < w);
        assert((n + w - 1) / w * w + (n + w - 1) % w == n + w - 1);
    }
    q + extra
}

/// `ranges` cuts `0..n` into contiguous pieces in order, each of `size`
/// sources but the last, which holds between 1 and `size`.
pub open spec fn is_partition(ranges: Seq<(usize, usize)>, n: int, size: int) -> bool {
    &&& (n == 0 <==> ranges.len() == 0)
    &&& ranges.len() > 0 ==> ranges[0].0 == 0 && ranges.last().1 == n
    &&& forall|k: int|
        0 <= k < ranges.len() - 1 ==> (#[trigger] ranges[k]).1 == ranges[k + 1].0 && ranges[k].1
            - ranges[k].0 == size
    &&& forall|k: int|
        0 <= k < ranges.len() ==> 0 < (#[trigger] ranges[k]).1 - ranges[k].0 <= size
}

/// The source ranges `(start, end)` handed to the workers: `0..n_sources` cut
/// into contiguous chunks of `chunk_size(n_sources, workers)` sources.
pub fn chunk_ranges(n_sources: usize, workers: usize) -> (r: Vec<(usize, usize)>)
    requires
        workers > 0,
    ensures
        is_partition(r@, n_sources as int, chunk_size_spec(n_sources as int, workers as int)),
{
    let size = chunk_size(n_sources, workers);
    assert(n_sources > 0 ==> size > 0) by (nonlinear_arith)
        requires
            size as int == (n_sources as int + workers as int - 1) / workers as int,
            workers > 0,
    ;
    let mut ranges: Vec<(usize, usize)> = Vec::new();
    let mut start: usize = 0;
    while start < n_sources
        invariant
            start <= n_sources,
            n_sources > 0 ==> size > 0,
            size == chunk_size_spec(n_sources as int, workers as int),
            ranges@.len() == 0 <==> start == 0,
            ranges@.len() > 0 ==> ranges@[0].0 == 0 && ranges@.last().1 == start,
            forall|k: int|
                0 <= k < ranges@.len() - 1 ==> (#[trigger] ranges@[k]).1 == ranges@[k + 1].0
                    && ranges@[k].1 - ranges@[k].0 == size,
            forall|k: int|
                0 <= k < ranges@.len() ==> 0 < (#[trigger] ranges@[k]).1 - ranges@[k].0 <= size,
            ranges@.len() > 0 && start < n_sources ==> ranges@.last().1 - ranges@.last().0 == size,
        decreases n_sources - start,
    {
        let end = if n_sources - start > size {
            start + size
        } else {
            n_sources
        };
        ranges.push((start, end));
        start = end;
    }
    ranges
}

/// The coordinator drains the result table after every `DRAIN_PERIOD`-th
/// joined worker; a last drain follows the final join in any case.
pub fn drain_due(completed_workers: usize) -> (r: bool)
    ensures
        r == (completed_workers % DRAIN_PERIOD == 0),
{
    completed_workers % DRAIN_PERIOD == 0
}

/// The rows of the sources in `range` against every query.
pub open spec fn chunk_rows(sources: Seq<Seq<char>>, queries: Seq<Seq<char>>, range: (usize, usize)) -> Seq<
    (Seq<char>, Seq<char>, Seq<int>),
> {
    table_rows(sources.subrange(range.0 as int, range.1 as int), queries)
}

/// The rows in the result table once the chunks `order[0]`, `order[1]`, ...
/// have appended their rows, in that order.
pub open spec fn drained_rows(
    sources: Seq<Seq<char>>,
    queries: Seq<Seq<char>>,
    ranges: Seq<(usize, usize)>,
    order: Seq<int>,
) -> Seq<(Seq<char>, Seq<char>, Seq<int>)>
    decreases order.len(),
{
    if order.len() == 0 {
        Seq::empty()
    } else {
        drained_rows(sources, queries, ranges, order.drop_last()) + chunk_rows(
            sources,
            queries,
            ranges[order.last()],
        )
    }
}

/// The rows of `a..c` are those of `a..b` followed by those of `b..c`.
pub proof fn lemma_table_split(s: Seq<Seq<char>>, q: Seq<Seq<char>>, a: int, b: int, c: int)
    requires
        0 <= a <= b <= c <= s.len(),
    ensures
        table_rows(s.subrange(a, c), q) == table_rows(s.subrange(a, b), q) + table_rows(
            s.subrange(b, c),
            q,
        ),
    decreases c - b,
{
    if c == b {
        assert(s.subrange(b, c) =~= Seq::<Seq<char>>::empty());
        assert(table_rows(s.subrange(a, b), q) + Seq::empty() =~= table_rows(s.subrange(a, b), q));
    } else {
        lemma_table_split(s, q, a, b, c - 1);
        assert(s.subrange(a, c).drop_last() =~= s.subrange(a, c - 1));
        assert(s.subrange(b, c).drop_last() =~= s.subrange(b, c - 1));
        let last = source_rows(s[c - 1], q);
        assert(table_rows(s.subrange(a, c), q) =~= table_rows(s.subrange(a, b), q) + table_rows(
            s.subrange(b, c - 1),
            q,
        ) + last);
        assert(table_rows(s.subrange(a, c), q) =~= table_rows(s.subrange(a, b), q) + table_rows(
            s.subrange(b, c),
            q,
        ));
    }
}

/// The chunks of a partition are ordered and lie within `0..n`.
proof fn lemma_partition_bounds(ranges: Seq<(usize, usize)>, n: int, size: int, k: int)
    requires
        is_partition(ranges, n, size),
        0 <= k < ranges.len(),
    ensures
        ranges[k].0 < ranges[k].1 <= n,
    decreases ranges.len() - k,
{
    if k < ranges.len() - 1 {
        lemma_partition_bounds(ranges, n, size, k + 1);
    }
}

/// Chunks appended in their own order give the rows of every source up to the
/// end of the last one.
proof fn lemma_drained_in_order(
    s: Seq<Seq<char>>,
    q: Seq<Seq<char>>,
    ranges: Seq<(usize, usize)>,
    size: int,
    k: int,
)
    requires
        is_partition(ranges, s.len() as int, size),
        0 <= k <= ranges.len(),
    ensures
        drained_rows(s, q, ranges, Seq::new(k as nat, |t: int| t)) == table_rows(
            s.subrange(0, if k == 0 { 0 } else { ranges[k - 1].1 as int }),
            q,
        ),
    decreases k,
{
    let order = Seq::new(k as nat, |t: int| t);
    if k == 0 {
        assert(s.subrange(0, 0) =~= Seq::<Seq<char>>::empty());
    } else {
        lemma_drained_in_order(s, q, ranges, size, k - 1);
        assert(order.drop_last() =~= Seq::new((k - 1) as nat, |t: int| t));
        lemma_partition_bounds(ranges, s.len() as int, size, k - 1);
        let mid = if k == 1 { 0 } else { ranges[k - 2].1 as int };
        assert(mid == ranges[k - 1].0);
        lemma_table_split(s, q, 0, mid, ranges[k - 1].1 as int);
    }
}

/// Removing one chunk from an append order removes its rows from the multiset.
proof fn lemma_drained_remove(
    s: Seq<Seq<char>>,
    q: Seq<Seq<char>>,
    ranges: Seq<(usize, usize)>,
    order: Seq<int>,
    p: int,
)
    requires
        0 <= p < order.len(),
    ensures
        drained_rows(s, q, ranges, order).to_multiset() == drained_rows(
            s,
            q,
            ranges,
            order.remove(p),
        ).to_multiset().add(chunk_rows(s, q, ranges[order[p]]).to_multiset()),
    decreases order.len(),
{
    broadcast use vstd::seq_lib::lemma_multiset_commutative;

    let last = chunk_rows(s, q, ranges[order.last()]);
    if p == order.len() - 1 {
        assert(order.remove(p) =~= order.drop_last());
    } else {
        lemma_drained_remove(s, q, ranges, order.drop_last(), p);
        assert(order.remove(p).drop_last() =~= order.drop_last().remove(p));
        assert(order.remove(p).last() == order.last());
        let rest = drained_rows(s, q, ranges, order.drop_last().remove(p)).to_multiset();
        let mine = chunk_rows(s, q, ranges[order[p]]).to_multiset();
        assert(drained_rows(s, q, ranges, order).to_multiset() =~= rest.add(mine).add(
            last.to_multiset(),
        ));
        assert(drained_rows(s, q, ranges, order.remove(p)).to_multiset() =~= rest.add(
            last.to_multiset(),
        ));
    }
}

/// Two append orders of the same chunks, each chunk once, give the same multiset of rows.
proof fn lemma_drained_orders(
    s: Seq<Seq<char>>,
    q: Seq<Seq<char>>,
    ranges: Seq<(usize, usize)>,
    first: Seq<int>,
    second: Seq<int>,
)
    requires
        first.len() == second.len(),
        first.no_duplicates(),
        second.no_duplicates(),
        forall|t: int| 0 <= t < first.len() ==> second.contains(#[trigger] first[t]),
    ensures
        drained_rows(s, q, ranges, first).to_multiset() == drained_rows(
            s,
            q,
            ranges,
            second,
        ).to_multiset(),
    decreases first.len(),
{
    broadcast use vstd::seq_lib::lemma_multiset_commutative;

    if first.len() > 0 {
        let x = first.last();
        assert(second.contains(first[first.len() - 1]));
        let p = choose|p: int| 0 <= p < second.len() && second[p] == x;
        let rest = second.remove(p);
        assert forall|t: int| 0 <= t < first.len() - 1 implies rest.contains(
            #[trigger] first.drop_last()[t],
        ) by {
            let v = first[t];
            assert(second.contains(first[t]));
            let w = choose|w: int| 0 <= w < second.len() && second[w] == v;
            assert(v != x);
            assert(w != p);
            if w < p {
                assert(rest[w] == v);
            } else {
                assert(rest[w - 1] == v);
            }
        }
        assert forall|i: int, j: int|
            0 <= i < rest.len() && 0 <= j < rest.len() && i != j implies rest[i] != rest[j] by {
            let ii = if i < p { i } else { i + 1 };
            let jj = if j < p { j } else { j + 1 };
            assert(rest[i] == second[ii] && rest[j] == second[jj]);
        }
        assert forall|i: int, j: int|
            0 <= i < first.len() - 1 && 0 <= j < first.len() - 1 && i != j implies first.drop_last()[i]
            != first.drop_last()[j] by {
            assert(first.drop_last()[i] == first[i] && first.drop_last()[j] == first[j]);
        }
        lemma_drained_orders(s, q, ranges, first.drop_last(), rest);
        lemma_drained_remove(s, q, ranges, second, p);
    }
}

/// However the workers' bursts interleave, each chunk appended once, the
/// result table holds the same multiset of rows as the table of every pair in
/// source order: each pair once, with the same score list. Two runs with the
/// same partition therefore agree up to row order.
pub proof fn lemma_completion_order(
    sources: Seq<Seq<char>>,
    queries: Seq<Seq<char>>,
    ranges: Seq<(usize, usize)>,
    size: int,
    order: Seq<int>,
)
    requires
        is_partition(ranges, sources.len() as int, size),
        order.len() == ranges.len(),
        order.no_duplicates(),
        forall|t: int| 0 <= t < order.len() ==> 0 <= #[trigger] order[t] < ranges.len(),
    ensures
        drained_rows(sources, queries, ranges, order).to_multiset() == table_rows(
            sources,
            queries,
        ).to_multiset(),
{
    let n = ranges.len() as int;
    let in_order = Seq::new(n as nat, |t: int| t);
    assert forall|t: int| 0 <= t < order.len() implies in_order.contains(#[trigger] order[t]) by {
        assert(in_order[order[t]] == order[t]);
    }
    lemma_drained_orders(sources, queries, ranges, order, in_order);
    lemma_drained_in_order(sources, queries, ranges, size, n);
    if n == 0 {
        assert(sources.subrange(0, 0) =~= sources);
    } else {
        assert(sources.subrange(0, ranges[n - 1].1 as int) =~= sources);
    }
}

} // verus!
