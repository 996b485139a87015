//! Ranking of candidate keys and choice of the recommended one.

use vstd::prelude::*;

use crate::analyzer::{SchemaEntry, entries_total, entry_totals, keys_total, total_count};
use crate::pairs::{lemma_seq_sum_bound, lemma_seq_sum_prefix, seq_sum};
use crate::partitioning::{
    is_max_of, is_min_of, nat_counts, partition_loads, simulate_counted_distribution,
};
use crate::layout::{
    lemma_join_lines_prefix,
    first_chars, first_chars_of, join_lines, join_with_newlines, pad_left, pad_right, push_pad_left,
    push_pad_right,
};
use crate::spread::{Spread, lemma_spread_order, scaled_variance, spread_value};
use crate::text::{
    before_first, decimal, lemma_before_first_none, lemma_before_first_split, push_decimal,
    split_at_first,
};

verus! {

/// One candidate key: a schema, with how its messages would spread.
pub struct Candidate {
    /// 1-based position in the ranking by message count.
    pub rank: usize,
    /// The schema, e.g. `host.name|service.name`.
    pub key_repr: String,
    /// Messages seen with this schema.
    pub message_count: usize,
    /// The most messages any partition receives.
    pub max_count: usize,
    /// The fewest messages any partition receives.
    pub min_count: usize,
    /// Messages per partition.
    pub partition_counts: Vec<usize>,
    /// `n²` times the variance of the partition counts, exactly.
    pub spread: Spread,
}

/// The ranked candidates and the recommendation.
pub struct Report {
    pub candidates: Vec<Candidate>,
    pub n_partitions: usize,
    pub total_messages: usize,
    /// Index into `candidates` of the recommended key.
    pub recommended_index: usize,
}

/// `order` with index `i` placed after every index whose count is at least
/// that of `i`, and before the others.
pub open spec fn insert_by_count(order: Seq<int>, c: Seq<nat>, i: int) -> Seq<int>
    decreases order.len(),
{
    if order.len() == 0 {
        seq![i]
    } else if c[order.last()] >= c[i] {
        order.push(i)
    } else {
        insert_by_count(order.drop_last(), c, i).push(order.last())
    }
}

/// The indices of `c` by decreasing count; equal counts keep their order
/// (a stable sort).
pub open spec fn rank_order(c: Seq<nat>) -> Seq<int>
    decreases c.len(),
{
    if c.len() == 0 {
        Seq::empty()
    } else {
        insert_by_count(rank_order(c.drop_last()), c, c.len() - 1)
    }
}

/// The schemas that become candidates, as indices into the entries: the
/// `top_n` with the most messages.
pub open spec fn candidate_order(es: Seq<SchemaEntry>, top_n: nat) -> Seq<int> {
    let o = rank_order(entry_totals(es));
    if top_n < o.len() {
        o.take(top_n as int)
    } else {
        o
    }
}

/// Candidate `a` is a strictly better recommendation than candidate `b`:
/// less spread, or equal spread and a smaller busiest partition.
pub open spec fn better(a: Candidate, b: Candidate, n: nat) -> bool {
    spread_value(a.spread, n) < spread_value(b.spread, n) || (spread_value(a.spread, n)
        == spread_value(b.spread, n) && a.max_count < b.max_count)
}

/// `r` is the first of the best candidates: none is better, and every one
/// before it is worse.
pub open spec fn is_first_best(cs: Seq<Candidate>, r: int, n: nat) -> bool {
    &&& 0 <= r < cs.len()
    &&& forall|j: int| 0 <= j < cs.len() ==> !better(#[trigger] cs[j], cs[r], n)
    &&& forall|j: int| 0 <= j < r ==> better(cs[r], #[trigger] cs[j], n)
}

/// Candidate `c` describes entry `e` at rank `rank` for `n` partitions.
pub open spec fn describes(c: Candidate, e: SchemaEntry, rank: nat, n: nat) -> bool {
    &&& c.rank == rank
    &&& c.key_repr@ == e.schema@
    &&& c.message_count == keys_total(e.keys@)
    &&& nat_counts(c.partition_counts@) == partition_loads(e.keys@, n)
    &&& is_max_of(c.max_count as nat, nat_counts(c.partition_counts@))
    &&& is_min_of(c.min_count as nat, nat_counts(c.partition_counts@))
    &&& spread_value(c.spread, n) == scaled_variance(partition_loads(e.keys@, n))
    &&& c.spread.deficit < n
}

/// Where the search from the end for the slot of count `ci` stops at `p`,
/// inserting there is the stable insertion.
proof fn lemma_insert_by_count_at(order: Seq<int>, c: Seq<nat>, i: int, p: int)
    requires
        0 <= p <= order.len(),
        forall|t: int| 0 <= t < order.len() ==> 0 <= #[trigger] order[t] < c.len(),
        0 <= i < c.len(),
        forall|t: int| p <= t < order.len() ==> c[#[trigger] order[t]] < c[i],
        p > 0 ==> c[order[p - 1]] >= c[i],
    ensures
        insert_by_count(order, c, i) == order.take(p) + seq![i] + order.skip(p),
    decreases order.len(),
{
    if order.len() == 0 {
        assert(order.take(p) + seq![i] + order.skip(p) =~= seq![i]);
    } else if p == order.len() {
        assert(order.take(p) + seq![i] + order.skip(p) =~= order.push(i));
    } else {
        let d = order.drop_last();
        lemma_insert_by_count_at(d, c, i, p);
        assert(d.take(p) + seq![i] + d.skip(p) + seq![order.last()] =~= order.take(p) + seq![i]
            + order.skip(p));
    }
}

/// The stable ranking is a list of distinct valid indices, as many as there
/// are counts.
proof fn lemma_rank_order_indices(c: Seq<nat>)
    ensures
        rank_order(c).len() == c.len(),
        forall|t: int| 0 <= t < c.len() ==> 0 <= #[trigger] rank_order(c)[t] < c.len(),
    decreases c.len(),
{
    if c.len() > 0 {
        let d = c.drop_last();
        lemma_rank_order_indices(d);
        lemma_insert_by_count_indices(rank_order(d), c, c.len() - 1);
        assert forall|t: int| 0 <= t < d.len() implies #[trigger] rank_order(d)[t] < c.len() by {}
        assert(rank_order(d) == rank_order(c.drop_last()));
        lemma_rank_order_same(d, c);
    }
}

/// Ranking the first `c.len() - 1` counts reads the same counts in `c`.
proof fn lemma_rank_order_same(d: Seq<nat>, c: Seq<nat>)
    requires
        c.len() > 0,
        d == c.drop_last(),
    ensures
        rank_order(c) == insert_by_count(rank_order(d), c, c.len() - 1),
{
}

proof fn lemma_insert_by_count_indices(order: Seq<int>, c: Seq<nat>, i: int)
    requires
        forall|t: int| 0 <= t < order.len() ==> 0 <= #[trigger] order[t] < c.len(),
        0 <= i < c.len(),
    ensures
        insert_by_count(order, c, i).len() == order.len() + 1,
        forall|t: int|
            0 <= t < order.len() + 1 ==> 0 <= #[trigger] insert_by_count(order, c, i)[t] < c.len(),
    decreases order.len(),
{
    if order.len() > 0 && c[order.last()] < c[i] {
        lemma_insert_by_count_indices(order.drop_last(), c, i);
    }
}

/// The indices of `o` come in decreasing order of count.
pub open spec fn ranked_desc(o: Seq<int>, c: Seq<nat>) -> bool {
    forall|a: int, b: int| 0 <= a < b < o.len() ==> c[#[trigger] o[a]] >= c[#[trigger] o[b]]
}

/// Stable insertion keeps a lower bound that the order and the new index share.
proof fn lemma_insert_by_count_lower(order: Seq<int>, c: Seq<nat>, i: int, m: nat)
    requires
        forall|t: int| 0 <= t < order.len() ==> c[#[trigger] order[t]] >= m,
        c[i] >= m,
    ensures
        forall|t: int|
            0 <= t < insert_by_count(order, c, i).len() ==> c[#[trigger] insert_by_count(
                order,
                c,
                i,
            )[t]] >= m,
    decreases order.len(),
{
    if order.len() > 0 && c[order.last()] < c[i] {
        let d = order.drop_last();
        assert forall|t: int| 0 <= t < d.len() implies c[#[trigger] d[t]] >= m by {
            assert(d[t] == order[t]);
        }
        lemma_insert_by_count_lower(d, c, i, m);
        let u = insert_by_count(d, c, i);
        let r = insert_by_count(order, c, i);
        assert(r == u.push(order.last()));
        assert forall|t: int| 0 <= t < r.len() implies c[#[trigger] r[t]] >= m by {
            if t < u.len() {
                assert(r[t] == u[t]);
            } else {
                assert(r[t] == order[order.len() - 1]);
            }
        }
    } else if order.len() > 0 {
        let r = insert_by_count(order, c, i);
        assert forall|t: int| 0 <= t < r.len() implies c[#[trigger] r[t]] >= m by {
            if t < order.len() {
                assert(r[t] == order[t]);
            }
        }
    } else {
        assert(insert_by_count(order, c, i)[0] == i);
    }
}

/// Stable insertion into a ranked order keeps it ranked.
proof fn lemma_insert_by_count_sorted(order: Seq<int>, c: Seq<nat>, i: int)
    requires
        ranked_desc(order, c),
    ensures
        ranked_desc(insert_by_count(order, c, i), c),
    decreases order.len(),
{
    let r = insert_by_count(order, c, i);
    if order.len() == 0 {
    } else if c[order.last()] >= c[i] {
        assert forall|a: int, b: int| 0 <= a < b < r.len() implies c[#[trigger] r[a]] >= c[#[trigger] r[b]] by {
            if b == order.len() {
                if a < order.len() - 1 {
                    assert(c[order[a]] >= c[order[order.len() - 1]]);
                }
            }
        }
    } else {
        let d = order.drop_last();
        assert forall|a: int, b: int| 0 <= a < b < d.len() implies c[#[trigger] d[a]] >= c[#[trigger] d[b]] by {
            assert(d[a] == order[a]);
            assert(d[b] == order[b]);
        }
        lemma_insert_by_count_sorted(d, c, i);
        let l = order.last();
        assert forall|t: int| 0 <= t < d.len() implies c[#[trigger] d[t]] >= c[l] by {
            assert(d[t] == order[t]);
            assert(c[order[t]] >= c[order[order.len() - 1]]);
        }
        lemma_insert_by_count_lower(d, c, i, c[l]);
        let u = insert_by_count(d, c, i);
        assert forall|a: int, b: int| 0 <= a < b < r.len() implies c[#[trigger] r[a]] >= c[#[trigger] r[b]] by {
            assert(r[a] == u[a]);
            if b < u.len() {
                assert(r[b] == u[b]);
            }
        }
    }
}

/// Stable insertion loses no index and adds the new one.
proof fn lemma_insert_by_count_contains(order: Seq<int>, c: Seq<nat>, i: int)
    ensures
        insert_by_count(order, c, i).contains(i),
        forall|t: int| 0 <= t < order.len() ==> insert_by_count(order, c, i).contains(#[trigger] order[t]),
    decreases order.len(),
{
    let r = insert_by_count(order, c, i);
    if order.len() == 0 {
        assert(r[0] == i);
    } else if c[order.last()] >= c[i] {
        assert(r[order.len() as int] == i);
        assert forall|t: int| 0 <= t < order.len() implies r.contains(#[trigger] order[t]) by {
            assert(r[t] == order[t]);
        }
    } else {
        let d = order.drop_last();
        lemma_insert_by_count_contains(d, c, i);
        let u = insert_by_count(d, c, i);
        let k = choose|k: int| 0 <= k < u.len() && u[k] == i;
        assert(r[k] == u[k]);
        assert forall|t: int| 0 <= t < order.len() implies r.contains(#[trigger] order[t]) by {
            if t == order.len() - 1 {
                assert(r[u.len() as int] == order[t]);
            } else {
                assert(d[t] == order[t]);
                assert(u.contains(d[t]));
                let m = choose|m: int| 0 <= m < u.len() && u[m] == d[t];
                assert(r[m] == u[m]);
            }
        }
    }
}

/// The ranking lists every index, by decreasing count.
pub proof fn lemma_rank_order_sorted(c: Seq<nat>)
    ensures
        ranked_desc(rank_order(c), c),
        forall|x: int| 0 <= x < c.len() ==> #[trigger] rank_order(c).contains(x),
        rank_order(c).len() == c.len(),
    decreases c.len(),
{
    lemma_rank_order_indices(c);
    if c.len() > 0 {
        let d = c.drop_last();
        lemma_rank_order_sorted(d);
        lemma_rank_order_indices(d);
        let o = rank_order(d);
        assert forall|a: int, b: int| 0 <= a < b < o.len() implies c[#[trigger] o[a]] >= c[#[trigger] o[b]] by {
            assert(d[o[a]] >= d[o[b]]);
        }
        lemma_insert_by_count_sorted(o, c, c.len() - 1);
        lemma_insert_by_count_contains(o, c, c.len() - 1);
        lemma_rank_order_same(d, c);
        assert forall|x: int| 0 <= x < c.len() implies #[trigger] rank_order(c).contains(x) by {
            if x < d.len() {
                assert(o.contains(x));
                let t = choose|t: int| 0 <= t < o.len() && o[t] == x;
                assert(rank_order(c).contains(o[t]));
            }
        }
    }
}

/// The candidates come by decreasing message count, and there are `top_n`
/// of them, or all schemas where there are fewer.
pub proof fn lemma_candidates_ranked(es: Seq<SchemaEntry>, top_n: nat)
    ensures
        ranked_desc(candidate_order(es, top_n), entry_totals(es)),
        candidate_order(es, top_n).len() == if top_n < es.len() {
            top_n
        } else {
            es.len()
        },
{
    let c = entry_totals(es);
    lemma_rank_order_sorted(c);
    let o = rank_order(c);
    let ord = candidate_order(es, top_n);
    assert forall|a: int, b: int| 0 <= a < b < ord.len() implies c[#[trigger] ord[a]] >= c[#[trigger] ord[b]] by {
        assert(ord[a] == o[a]);
        assert(ord[b] == o[b]);
    }
}

/// No schema left out of the candidates has more messages than any
/// candidate: the candidates are the `top_n` busiest schemas.
pub proof fn lemma_left_out_has_fewer(es: Seq<SchemaEntry>, top_n: nat, x: int)
    requires
        0 <= x < es.len(),
        forall|a: int| 0 <= a < candidate_order(es, top_n).len() ==> #[trigger] candidate_order(es, top_n)[a] != x,
    ensures
        forall|a: int|
            0 <= a < candidate_order(es, top_n).len() ==> entry_totals(es)[#[trigger] candidate_order(
                es,
                top_n,
            )[a]] >= entry_totals(es)[x],
{
    let c = entry_totals(es);
    lemma_rank_order_sorted(c);
    let o = rank_order(c);
    let ord = candidate_order(es, top_n);
    assert(o.contains(x));
    let p = choose|p: int| 0 <= p < o.len() && o[p] == x;
    if p < ord.len() {
        assert(ord[p] == o[p]);
    }
    assert forall|a: int| 0 <= a < ord.len() implies c[#[trigger] ord[a]] >= c[x] by {
        assert(ord[a] == o[a]);
        assert(c[o[a]] >= c[o[p]]);
    }
}

/// The first line of the table: the recommended key and its rank.
pub open spec fn summary_line(c: Candidate) -> Seq<char> {
    "Recommended key: ["@ + decimal(c.rank as nat) + "] "@ + c.key_repr@
}

/// The second line of the table: the recommended key's figures.
pub open spec fn detail_line(c: Candidate, std_dev: Seq<char>) -> Seq<char> {
    "  messages="@ + decimal(c.message_count as nat) + "  std_dev="@ + std_dev + "  max="@
        + decimal(c.max_count as nat) + "  min="@ + decimal(c.min_count as nat)
}

/// The column titles.
pub open spec fn header_line() -> Seq<char> {
    pad_left("Rank"@, 4) + "  "@ + pad_right("Key"@, 40) + "  "@ + pad_left("Count"@, 7) + "  "@
        + pad_left("StdDev"@, 8) + "  "@ + pad_left("Max"@, 7) + "  "@ + pad_left("Min"@, 7)
        + "  Rec"@
}

/// The rule under the column titles: 84 dashes.
pub open spec fn rule_line() -> Seq<char> {
    Seq::new(84, |i: int| '-')
}

/// One row of the table; the recommended row is marked with `*`.
pub open spec fn row_line(c: Candidate, std_dev: Seq<char>, recommended: bool) -> Seq<char> {
    pad_left(decimal(c.rank as nat), 4) + "  "@ + pad_right(first_chars(c.key_repr@, 40), 40) + "  "@
        + pad_left(decimal(c.message_count as nat), 7) + "  "@ + pad_left(std_dev, 8) + "  "@
        + pad_left(decimal(c.max_count as nat), 7) + "  "@ + pad_left(decimal(c.min_count as nat), 7)
        + "  "@ + if recommended {
        "*"@
    } else {
        " "@
    }
}

/// The lines of the table: recommendation, figures, a blank line, titles,
/// rule, then one row per candidate.
pub open spec fn table_lines(cs: Seq<Candidate>, std_devs: Seq<Seq<char>>, rec: int) -> Seq<
    Seq<char>,
> {
    seq![
        summary_line(cs[rec]),
        detail_line(cs[rec], std_devs[rec]),
        Seq::<char>::empty(),
        header_line(),
        rule_line(),
    ] + Seq::new(cs.len(), |i: int| row_line(cs[i], std_devs[i], i == rec))
}

/// The first two lines of the table, written out: the recommended
/// candidate's rank and key, then its figures.
pub open spec fn headline(c: Candidate, std_dev: Seq<char>) -> Seq<char> {
    "Recommended key: ["@ + decimal(c.rank as nat) + "] "@ + c.key_repr@ + seq!['\n']
        + "  messages="@ + decimal(c.message_count as nat) + "  std_dev="@ + std_dev + "  max="@
        + decimal(c.max_count as nat) + "  min="@ + decimal(c.min_count as nat)
}

/// The table opens with the recommended candidate, the one at
/// `recommended_index`, whichever rank it has: its rank and key, then its
/// message count, standard deviation, busiest and idlest partition.
pub proof fn lemma_table_opens_with_recommendation(
    cs: Seq<Candidate>,
    std_devs: Seq<Seq<char>>,
    rec: int,
)
    requires
        0 <= rec < cs.len(),
        std_devs.len() == cs.len(),
    ensures
        join_lines(table_lines(cs, std_devs, rec)).len() >= headline(cs[rec], std_devs[rec]).len(),
        join_lines(table_lines(cs, std_devs, rec)).take(
            headline(cs[rec], std_devs[rec]).len() as int,
        ) == headline(cs[rec], std_devs[rec]),
{
    let t = table_lines(cs, std_devs, rec);
    let two = t.take(2);
    assert(two =~= seq![summary_line(cs[rec]), detail_line(cs[rec], std_devs[rec])]);
    assert(two.drop_last() =~= seq![summary_line(cs[rec])]);
    assert(join_lines(two) == join_lines(two.drop_last()) + seq!['\n'] + two.last());
    assert(join_lines(two) =~= headline(cs[rec], std_devs[rec]));
    lemma_join_lines_prefix(t, 2);
}


/// The plain-text table of a report. `std_devs[i]` is the standard
/// deviation of candidate `i` written with two decimals.
pub fn format_table(report: &Report, std_devs: &Vec<String>) -> (r: String)
    requires
        report.recommended_index < report.candidates@.len(),
        std_devs@.len() == report.candidates@.len(),
    ensures
        r@ == join_lines(
            table_lines(
                report.candidates@,
                std_devs@.map_values(|t: String| t@),
                report.recommended_index as int,
            ),
        ),
        r@.len() >= headline(
            report.candidates@[report.recommended_index as int],
            std_devs@[report.recommended_index as int]@,
        ).len(),
        r@.take(
            headline(
                report.candidates@[report.recommended_index as int],
                std_devs@[report.recommended_index as int]@,
            ).len() as int,
        ) == headline(
            report.candidates@[report.recommended_index as int],
            std_devs@[report.recommended_index as int]@,
        ),
{
    proof {
        lemma_table_opens_with_recommendation(
            report.candidates@,
            std_devs@.map_values(|t: String| t@),
            report.recommended_index as int,
        );
    }
    let ghost sds = std_devs@.map_values(|t: String| t@);
    let rec = &report.candidates[report.recommended_index];
    let sd = std_devs[report.recommended_index].as_str();
    let mut lines: Vec<String> = Vec::new();

    let mut l1 = String::new();
    l1.append("Recommended key: [");
    push_decimal(&mut l1, rec.rank as u64);
    l1.append("] ");
    l1.append(rec.key_repr.as_str());
    lines.push(l1);

    let mut l2 = String::new();
    l2.append("  messages=");
    push_decimal(&mut l2, rec.message_count as u64);
    l2.append("  std_dev=");
    l2.append(sd);
    l2.append("  max=");
    push_decimal(&mut l2, rec.max_count as u64);
    l2.append("  min=");
    push_decimal(&mut l2, rec.min_count as u64);
    lines.push(l2);

    lines.push(String::new());

    let mut h = String::new();
    push_pad_left(&mut h, "Rank", 4);
    h.append("  ");
    push_pad_right(&mut h, "Key", 40);
    h.append("  ");
    push_pad_left(&mut h, "Count", 7);
    h.append("  ");
    push_pad_left(&mut h, "StdDev", 8);
    h.append("  ");
    push_pad_left(&mut h, "Max", 7);
    h.append("  ");
    push_pad_left(&mut h, "Min", 7);
    h.append("  Rec");
    lines.push(h);

    let mut rule = String::new();
    let mut d: usize = 0;
    while d < 84
        invariant
            d <= 84,
            rule@ == Seq::new(d as nat, |i: int| '-'),
        decreases 84 - d,
    {
        rule.append("-");
        proof {
            reveal_strlit("-");
            assert(rule@ =~= Seq::new((d + 1) as nat, |i: int| '-'));
        }
        d = d + 1;
    }
    lines.push(rule);
    proof {
        assert(lines@.map_values(|l: String| l@) =~= seq![
            summary_line(*rec),
            detail_line(*rec, sds[report.recommended_index as int]),
            Seq::<char>::empty(),
            header_line(),
            rule_line(),
        ]);
    }

    let n = report.candidates.len();
    let mut i: usize = 0;
    while i < n
        invariant
            n == report.candidates@.len(),
            std_devs@.len() == n,
            sds == std_devs@.map_values(|t: String| t@),
            i <= n,
            lines@.map_values(|l: String| l@) == seq![
                summary_line(report.candidates@[report.recommended_index as int]),
                detail_line(
                    report.candidates@[report.recommended_index as int],
                    sds[report.recommended_index as int],
                ),
                Seq::<char>::empty(),
                header_line(),
                rule_line(),
            ] + Seq::new(
                i as nat,
                |k: int| row_line(report.candidates@[k], sds[k], k == report.recommended_index),
            ),
        decreases n - i,
    {
        let c = &report.candidates[i];
        let mut row = String::new();
        let rank = u64_text_of(c.rank);
        push_pad_left(&mut row, rank.as_str(), 4);
        row.append("  ");
        push_pad_right(&mut row, first_chars_of(c.key_repr.as_str(), 40), 40);
        row.append("  ");
        let count = u64_text_of(c.message_count);
        push_pad_left(&mut row, count.as_str(), 7);
        row.append("  ");
        push_pad_left(&mut row, std_devs[i].as_str(), 8);
        row.append("  ");
        let max = u64_text_of(c.max_count);
        push_pad_left(&mut row, max.as_str(), 7);
        row.append("  ");
        let min = u64_text_of(c.min_count);
        push_pad_left(&mut row, min.as_str(), 7);
        row.append("  ");
        if i == report.recommended_index {
            row.append("*");
        } else {
            row.append(" ");
        }
        let ghost old_lines = lines@;
        lines.push(row);
        proof {
            assert(row@ =~= row_line(*c, sds[i as int], i == report.recommended_index));
            assert(lines@.map_values(|l: String| l@) =~= old_lines.map_values(|l: String| l@).push(
                row@,
            ));
        }
        i = i + 1;
    }
    proof {
        assert(lines@.map_values(|l: String| l@) =~= table_lines(
            report.candidates@,
            sds,
            report.recommended_index as int,
        ));
    }
    join_with_newlines(&lines)
}

/// The column titles of the CSV file for `n` partitions.
pub open spec fn csv_header_fields(n: nat) -> Seq<Seq<char>> {
    seq!["rank"@, "key_repr"@, "message_count"@, "std_dev"@, "max_count"@, "min_count"@]
        + Seq::new(n, |j: int| "partition_"@ + decimal(j as nat)) + seq!["recommended"@]
}

/// The count of partition `j`, zero past the end.
pub open spec fn count_at(c: Candidate, j: int) -> nat {
    if j < c.partition_counts@.len() {
        c.partition_counts@[j] as nat
    } else {
        0
    }
}

/// The CSV fields of one candidate; `std_dev` is its standard deviation
/// written with six decimals.
pub open spec fn csv_row_fields(c: Candidate, recommended: bool, n: nat, std_dev: Seq<char>) -> Seq<
    Seq<char>,
> {
    seq![
        decimal(c.rank as nat),
        c.key_repr@,
        decimal(c.message_count as nat),
        std_dev,
        decimal(c.max_count as nat),
        decimal(c.min_count as nat),
    ] + Seq::new(n, |j: int| decimal(count_at(c, j))) + seq![
        if recommended {
            "true"@
        } else {
            "false"@
        },
    ]
}

/// The column titles of the CSV file: the candidate's figures, one column
/// per partition, and whether it is the recommended key.
pub fn csv_header(n_partitions: usize) -> (r: Vec<String>)
    ensures
        r@.map_values(|f: String| f@) == csv_header_fields(n_partitions as nat),
{
    let mut r: Vec<String> = Vec::new();
    r.push(String::from_str("rank"));
    r.push(String::from_str("key_repr"));
    r.push(String::from_str("message_count"));
    r.push(String::from_str("std_dev"));
    r.push(String::from_str("max_count"));
    r.push(String::from_str("min_count"));
    let ghost head = seq!["rank"@, "key_repr"@, "message_count"@, "std_dev"@, "max_count"@, "min_count"@];
    assert(r@.map_values(|f: String| f@) =~= head);
    let mut j: usize = 0;
    while j < n_partitions
        invariant
            j <= n_partitions,
            r@.map_values(|f: String| f@) == head + Seq::new(
                j as nat,
                |k: int| "partition_"@ + decimal(k as nat),
            ),
        decreases n_partitions - j,
    {
        let mut f = String::from_str("partition_");
        push_decimal(&mut f, j as u64);
        let ghost old_r = r@;
        let ghost fv = f@;
        r.push(f);
        proof {
            assert(fv == "partition_"@ + decimal(j as nat));
            assert(r@.map_values(|f: String| f@) =~= old_r.map_values(|f: String| f@).push(fv));
            assert(r@.map_values(|f: String| f@) =~= head + Seq::new(
                (j + 1) as nat,
                |k: int| "partition_"@ + decimal(k as nat),
            ));
        }
        j = j + 1;
    }
    let ghost body = r@.map_values(|f: String| f@);
    r.push(String::from_str("recommended"));
    assert(r@.map_values(|f: String| f@) =~= csv_header_fields(n_partitions as nat));
    r
}

/// The CSV fields of one candidate for `n_partitions` partitions.
pub fn csv_row(c: &Candidate, recommended: bool, n_partitions: usize, std_dev: &str) -> (r: Vec<
    String,
>)
    ensures
        r@.map_values(|f: String| f@) == csv_row_fields(*c, recommended, n_partitions as nat, std_dev@),
{
    proof {
        reveal_strlit("true");
        reveal_strlit("false");
    }
    let mut r: Vec<String> = Vec::new();
    r.push(u64_text_of(c.rank));
    r.push(c.key_repr.clone());
    r.push(u64_text_of(c.message_count));
    r.push(String::from_str(std_dev));
    r.push(u64_text_of(c.max_count));
    r.push(u64_text_of(c.min_count));
    let ghost head = seq![
        decimal(c.rank as nat),
        c.key_repr@,
        decimal(c.message_count as nat),
        std_dev@,
        decimal(c.max_count as nat),
        decimal(c.min_count as nat),
    ];
    assert(r@.map_values(|f: String| f@) =~= head);
    let mut j: usize = 0;
    while j < n_partitions
        invariant
            j <= n_partitions,
            r@.map_values(|f: String| f@) == head + Seq::new(
                j as nat,
                |k: int| decimal(count_at(*c, k)),
            ),
        decreases n_partitions - j,
    {
        let v: usize = if j < c.partition_counts.len() {
            c.partition_counts[j]
        } else {
            0
        };
        let ghost old_r = r@;
        let t = u64_text_of(v);
        let ghost tv = t@;
        r.push(t);
        proof {
            assert(tv == decimal(count_at(*c, j as int)));
            assert(r@.map_values(|f: String| f@) =~= old_r.map_values(|f: String| f@).push(tv));
            assert(r@.map_values(|f: String| f@) =~= head + Seq::new(
                (j + 1) as nat,
                |k: int| decimal(count_at(*c, k)),
            ));
        }
        j = j + 1;
    }
    if recommended {
        r.push(String::from_str("true"));
    } else {
        r.push(String::from_str("false"));
    }
    assert(r@.map_values(|f: String| f@) =~= csv_row_fields(
        *c,
        recommended,
        n_partitions as nat,
        std_dev@,
    ));
    r
}

/// The records of the CSV file of a report: the header, then one row per
/// candidate in order, marked `true` only at the recommended index;
/// `std_devs[i]` is candidate `i`'s standard deviation with six decimals.
pub open spec fn spec_csv_records(report: Report, std_devs: Seq<Seq<char>>) -> Seq<Seq<Seq<char>>> {
    seq![csv_header_fields(report.n_partitions as nat)] + Seq::new(
        report.candidates@.len(),
        |i: int|
            csv_row_fields(
                report.candidates@[i],
                i == report.recommended_index,
                report.n_partitions as nat,
                std_devs[i],
            ),
    )
}

/// The texts of one record's fields.
pub open spec fn field_texts(fields: Vec<String>) -> Seq<Seq<char>> {
    fields@.map_values(|f: String| f@)
}

/// All records of the CSV file of a report, in the order they are written.
pub fn csv_records(report: &Report, std_devs: &Vec<String>) -> (r: Vec<Vec<String>>)
    requires
        std_devs@.len() == report.candidates@.len(),
    ensures
        r@.map_values(|rec: Vec<String>| field_texts(rec)) == spec_csv_records(
            *report,
            std_devs@.map_values(|t: String| t@),
        ),
{
    let ghost sds = std_devs@.map_values(|t: String| t@);
    let ghost want = spec_csv_records(*report, sds);
    let mut out: Vec<Vec<String>> = Vec::new();
    out.push(csv_header(report.n_partitions));
    let mut i: usize = 0;
    while i < report.candidates.len()
        invariant
            i <= report.candidates@.len(),
            std_devs@.len() == report.candidates@.len(),
            sds == std_devs@.map_values(|t: String| t@),
            want == spec_csv_records(*report, sds),
            out@.len() == i + 1,
            forall|k: int| 0 <= k <= i ==> field_texts(#[trigger] out@[k]) == want[k],
        decreases report.candidates@.len() - i,
    {
        let row = csv_row(
            &report.candidates[i],
            i == report.recommended_index,
            report.n_partitions,
            std_devs[i].as_str(),
        );
        proof {
            assert(std_devs@[i as int]@ == sds[i as int]);
            assert(field_texts(row) == want[i + 1]);
        }
        out.push(row);
        i = i + 1;
    }
    assert(out@.map_values(|rec: Vec<String>| field_texts(rec)) =~= want);
    out
}

/// The name of the CSV file: `kafka-key-guestimator`, then `-` and the host
/// of the broker (the text before its first `:`) where there is one, then
/// `-`, the time stamp and `.csv`.
pub open spec fn spec_csv_file_name(broker: Option<Seq<char>>, timestamp: Seq<char>) -> Seq<char> {
    "kafka-key-guestimator"@ + match broker {
        Some(b) => seq!['-'] + before_first(b, ':'),
        None => Seq::empty(),
    } + seq!['-'] + timestamp + ".csv"@
}

/// The name of the CSV file for a run against `broker` at `timestamp`.
pub fn csv_file_name(broker: Option<&str>, timestamp: &str) -> (r: String)
    ensures
        r@ == spec_csv_file_name(
            match broker {
                Some(b) => Some(b@),
                None => None,
            },
            timestamp@,
        ),
{
    proof {
        reveal_strlit("-");
    }
    let mut name = String::from_str("kafka-key-guestimator");
    let ghost base = name@;
    match broker {
        Some(b) => {
            let host: &str = match split_at_first(b, ':') {
                Some((first, rest)) => {
                    proof {
                        lemma_before_first_split(first@, rest@, ':');
                    }
                    first
                },
                None => {
                    proof {
                        lemma_before_first_none(b@, ':');
                    }
                    b
                },
            };
            name.append("-");
            name.append(host);
            assert(name@ =~= base + seq!['-'] + before_first(b@, ':'));
        },
        None => {
            assert(name@ =~= base + Seq::<char>::empty());
        },
    }
    let ghost mid = name@;
    name.append("-");
    name.append(timestamp);
    name.append(".csv");
    proof {
        reveal_strlit("-");
    }
    assert(name@ =~= mid + seq!['-'] + timestamp@ + ".csv"@);
    name
}

/// The decimal text of a count.
fn u64_text_of(n: usize) -> (r: String)
    ensures
        r@ == decimal(n as nat),
{
    crate::text::u64_text(n as u64)
}

/// Whether candidate `a` is a strictly better recommendation than `b`.
pub fn is_better(a: &Candidate, b: &Candidate, n_partitions: usize) -> (r: bool)
    requires
        n_partitions > 0,
        a.spread.deficit < n_partitions,
        b.spread.deficit < n_partitions,
    ensures
        r == better(*a, *b, n_partitions as nat),
        spread_value(a.spread, n_partitions as nat) < spread_value(b.spread, n_partitions as nat)
            ==> r,
        r ==> spread_value(a.spread, n_partitions as nat) <= spread_value(
            b.spread,
            n_partitions as nat,
        ),
        spread_value(a.spread, n_partitions as nat) == spread_value(b.spread, n_partitions as nat)
            ==> (r == (a.max_count < b.max_count)),
{
    proof {
        lemma_spread_order(a.spread, b.spread, n_partitions as nat);
    }
    if a.spread.q_minus_floor < b.spread.q_minus_floor {
        true
    } else if a.spread.q_minus_floor > b.spread.q_minus_floor {
        false
    } else if a.spread.deficit > b.spread.deficit {
        true
    } else if a.spread.deficit < b.spread.deficit {
        false
    } else {
        a.max_count < b.max_count
    }
}

/// The first best candidate has the least spread (the least `n²` times the
/// variance of its partition counts, so the least standard deviation); among
/// those with that spread its busiest partition is the smallest; and every
/// candidate before it has more spread, or the same spread and a busier
/// partition.
pub proof fn lemma_recommendation_least_spread(cs: Seq<Candidate>, r: int, n: nat)
    requires
        is_first_best(cs, r, n),
    ensures
        forall|j: int|
            0 <= j < cs.len() ==> spread_value(cs[r].spread, n) <= spread_value(
                (#[trigger] cs[j]).spread,
                n,
            ),
        forall|j: int|
            0 <= j < cs.len() && spread_value(cs[r].spread, n) == spread_value(
                (#[trigger] cs[j]).spread,
                n,
            ) ==> cs[r].max_count <= cs[j].max_count,
        forall|j: int|
            0 <= j < r ==> spread_value(cs[r].spread, n) < spread_value((#[trigger] cs[j]).spread, n)
                || (spread_value(cs[r].spread, n) == spread_value(cs[j].spread, n)
                && cs[r].max_count < cs[j].max_count),
{
    assert forall|j: int| 0 <= j < cs.len() implies spread_value(cs[r].spread, n) <= spread_value(
        (#[trigger] cs[j]).spread,
        n,
    ) && (spread_value(cs[r].spread, n) == spread_value(cs[j].spread, n) ==> cs[r].max_count
        <= cs[j].max_count) by {
        assert(!better(cs[j], cs[r], n));
    }
    assert forall|j: int| 0 <= j < r implies spread_value(cs[r].spread, n) < spread_value(
        (#[trigger] cs[j]).spread,
        n,
    ) || (spread_value(cs[r].spread, n) == spread_value(cs[j].spread, n) && cs[r].max_count
        < cs[j].max_count) by {
        assert(better(cs[r], cs[j], n));
    }
}


/// Ranks the schemas by message count (ties in input order), keeps the
/// `top_n` first, simulates each over `n_partitions` partitions, and
/// recommends the first candidate with the least spread, ties broken by the
/// smaller busiest partition.
pub fn build_report(schema_counts: Vec<SchemaEntry>, top_n: usize, n_partitions: usize) -> (r:
    Report)
    requires
        entries_total(schema_counts@) <= usize::MAX,
        top_n > 0 && schema_counts@.len() > 0 ==> n_partitions > 0,
    ensures
        r.n_partitions == n_partitions,
        r.total_messages == entries_total(schema_counts@),
        r.candidates@.len() == candidate_order(schema_counts@, top_n as nat).len(),
        r.candidates@.len() == if top_n < schema_counts@.len() {
            top_n as int
        } else {
            schema_counts@.len() as int
        },
        forall|a: int, b: int|
            0 <= a < b < r.candidates@.len() ==> (#[trigger] r.candidates@[a]).message_count
                >= (#[trigger] r.candidates@[b]).message_count,
        forall|k: int|
            0 <= k < r.candidates@.len() ==> describes(
                #[trigger] r.candidates@[k],
                schema_counts@[candidate_order(schema_counts@, top_n as nat)[k]],
                (k + 1) as nat,
                n_partitions as nat,
            ),
        r.candidates@.len() == 0 ==> r.recommended_index == 0,
        top_n > 0 && schema_counts@.len() > 0 ==> r.recommended_index < r.candidates@.len(),
        r.candidates@.len() > 0 ==> forall|j: int|
            0 <= j < r.candidates@.len() ==> spread_value(
                r.candidates@[r.recommended_index as int].spread,
                n_partitions as nat,
            ) <= spread_value((#[trigger] r.candidates@[j]).spread, n_partitions as nat),
        r.candidates@.len() > 0 ==> forall|j: int|
            0 <= j < r.candidates@.len() && spread_value(
                r.candidates@[r.recommended_index as int].spread,
                n_partitions as nat,
            ) == spread_value((#[trigger] r.candidates@[j]).spread, n_partitions as nat)
                ==> r.candidates@[r.recommended_index as int].max_count <= r.candidates@[j].max_count,
        r.candidates@.len() > 0 ==> is_first_best(
            r.candidates@,
            r.recommended_index as int,
            n_partitions as nat,
        ),
{
    let ghost es = schema_counts@;
    let ghost c = entry_totals(es);
    let len = schema_counts.len();
    let mut totals: Vec<usize> = Vec::new();
    let mut total_messages: usize = 0;
    let mut i: usize = 0;
    proof {
        assert(c.take(0) =~= Seq::<nat>::empty());
    }
    while i < len
        invariant
            es == schema_counts@,
            c == entry_totals(es),
            len == es.len(),
            i <= len,
            seq_sum(c) <= usize::MAX,
            totals@.len() == i,
            forall|t: int| 0 <= t < i ==> #[trigger] totals@[t] as nat == c[t],
            total_messages == seq_sum(c.take(i as int)),
        decreases len - i,
    {
        proof {
            lemma_seq_sum_bound(c, i as int);
            lemma_seq_sum_prefix(c, i as int);
            lemma_seq_sum_prefix(c, i + 1);
        }
        let t = total_count(&schema_counts[i].keys);
        totals.push(t);
        total_messages = total_messages + t;
        i = i + 1;
    }
    proof {
        assert(c.take(len as int) =~= c);
    }
    let mut order: Vec<usize> = Vec::new();
    let mut i: usize = 0;
    proof {
        assert(c.take(0) =~= Seq::<nat>::empty());
    }
    while i < len
        invariant
            len == c.len(),
            i <= len,
            totals@.len() == len,
            forall|t: int| 0 <= t < len ==> #[trigger] totals@[t] as nat == c[t],
            order@.map_values(|x: usize| x as int) == rank_order(c.take(i as int)),
            forall|t: int| 0 <= t < order@.len() ==> #[trigger] order@[t] < i,
            order@.len() == i,
        decreases len - i,
    {
        let mut p = order.len();
        while p > 0 && totals[order[p - 1]] < totals[i]
            invariant
                p <= order@.len(),
                i < len,
                totals@.len() == len,
                forall|t: int| 0 <= t < order@.len() ==> #[trigger] order@[t] < i,
                forall|t: int| p <= t < order@.len() ==> totals@[#[trigger] order@[t] as int] < totals@[i as int],
            decreases p,
        {
            p = p - 1;
        }
        let ghost old_order = order@;
        order.insert(p, i);
        proof {
            let o = old_order.map_values(|x: usize| x as int);
            let ci = c.take(i + 1);
            assert(ci.drop_last() =~= c.take(i as int));
            lemma_insert_by_count_at(o, ci, i as int, p as int);
            assert(order@.map_values(|x: usize| x as int) =~= o.take(p as int) + seq![i as int] + o.skip(p as int));
            assert forall|t: int| 0 <= t < order@.len() implies #[trigger] order@[t] < i + 1 by {
                if t < p {
                    assert(order@[t] == old_order[t]);
                } else if t > p {
                    assert(order@[t] == old_order[t - 1]);
                }
            }
        }
        i = i + 1;
    }
    proof {
        assert(c.take(len as int) =~= c);
    }
    if top_n < order.len() {
        order.truncate(top_n);
    }
    let ghost ord = candidate_order(es, top_n as nat);
    proof {
        if top_n < len {
            assert(order@.map_values(|x: usize| x as int) =~= rank_order(c).take(top_n as int));
        }
    }
    let mut candidates: Vec<Candidate> = Vec::new();
    let mut k: usize = 0;
    while k < order.len()
        invariant
            es == schema_counts@,
            c == entry_totals(es),
            seq_sum(c) <= usize::MAX,
            totals@.len() == es.len(),
            forall|t: int| 0 <= t < es.len() ==> #[trigger] totals@[t] as nat == c[t],
            order@.map_values(|x: usize| x as int) == ord,
            forall|t: int| 0 <= t < order@.len() ==> #[trigger] order@[t] < es.len(),
            order@.len() > 0 ==> n_partitions > 0,
            k <= order@.len(),
            candidates@.len() == k,
            forall|t: int|
                0 <= t < k ==> describes(
                    #[trigger] candidates@[t],
                    es[ord[t]],
                    (t + 1) as nat,
                    n_partitions as nat,
                ),
        decreases order@.len() - k,
    {
        let idx = order[k];
        proof {
            assert(ord[k as int] == idx as int);
            lemma_seq_sum_bound(c, idx as int);
        }
        let e = &schema_counts[idx];
        let d = simulate_counted_distribution(&e.keys, n_partitions);
        let cand = Candidate {
            rank: k + 1,
            key_repr: e.schema.clone(),
            message_count: totals[idx],
            max_count: d.max_count,
            min_count: d.min_count,
            partition_counts: d.partition_counts,
            spread: d.spread,
        };
        candidates.push(cand);
        proof {
            assert(candidates@[k as int] == cand);
        }
        k = k + 1;
    }
    let mut best: usize = 0;
    if candidates.len() > 0 {
        let mut j: usize = 1;
        while j < candidates.len()
            invariant
                n_partitions > 0,
                1 <= j <= candidates@.len(),
                best < j,
                forall|t: int| 0 <= t < candidates@.len() ==> (#[trigger] candidates@[t]).spread.deficit < n_partitions,
                forall|t: int| 0 <= t < j ==> !better(#[trigger] candidates@[t], candidates@[best as int], n_partitions as nat),
                forall|t: int| 0 <= t < best ==> better(candidates@[best as int], #[trigger] candidates@[t], n_partitions as nat),
            decreases candidates@.len() - j,
        {
            if is_better(&candidates[j], &candidates[best], n_partitions) {
                best = j;
            }
            j = j + 1;
        }
    }
    proof {
        if candidates@.len() > 0 {
            lemma_recommendation_least_spread(candidates@, best as int, n_partitions as nat);
        }
        lemma_candidates_ranked(es, top_n as nat);
        assert forall|a: int, b: int| 0 <= a < b < candidates@.len() implies (
        #[trigger] candidates@[a]).message_count >= (#[trigger] candidates@[b]).message_count by {
            assert(describes(candidates@[a], es[ord[a]], (a + 1) as nat, n_partitions as nat));
            assert(describes(candidates@[b], es[ord[b]], (b + 1) as nat, n_partitions as nat));
            assert(order@[a] < es.len() && order@[b] < es.len());
            assert(ord[a] == order@[a] as int && ord[b] == order@[b] as int);
            assert(c[ord[a]] == keys_total(es[ord[a]].keys@));
            assert(c[ord[b]] == keys_total(es[ord[b]].keys@));
        }
    }
    Report { candidates, n_partitions, total_messages, recommended_index: best }
}

} // verus!
