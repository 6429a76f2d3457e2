//! What holds of every clustering.

use crate::cluster::{
    apart, closest, clustering, clusters, exceeds, first_use, history, law_distance_is_symmetric,
    lemma_len_fits, lemma_merged, lemma_singletons, merge_step, merged, nearer, renumbered, settled,
    singletons, wanted, well_named, DistanceMatrix,
};
use crate::measure::{law_infinities_bound_the_numbers, Measure, INFINITY_BITS};
use vstd::prelude::*;

verus! {

/// A walk over embeddings, each step of which spans a distance that `ok` admits.
pub open spec fn chain(d: DistanceMatrix, ok: spec_fn(int) -> bool, path: Seq<int>) -> bool {
    &&& path.len() > 0
    &&& forall|i: int| 0 <= i < path.len() ==> 0 <= #[trigger] path[i] < d.len()
    &&& forall|i: int, j: int|
        0 <= i < path.len() && 0 <= j < path.len() && j == i + 1 ==> ok(
            d.gap(#[trigger] path[i], #[trigger] path[j]),
        )
}

/// There is such a walk from `a` to `b`.
pub open spec fn linked(d: DistanceMatrix, ok: spec_fn(int) -> bool, a: int, b: int) -> bool {
    exists|path: Seq<int>| #[trigger]
        chain(d, ok, path) && path[0] == a && path[path.len() - 1] == b
}

/// The distances that do not exceed the threshold.
pub open spec fn within(threshold: Measure) -> spec_fn(int) -> bool {
    |gap: int| !exceeds(gap, threshold)
}

/// The distances of at most `bound`.
pub open spec fn at_most(bound: int) -> spec_fn(int) -> bool {
    |gap: int| gap <= bound
}

proof fn lemma_linked_to_itself(d: DistanceMatrix, ok: spec_fn(int) -> bool, a: int)
    requires
        0 <= a < d.len(),
    ensures
        linked(d, ok, a, a),
{
    assert(chain(d, ok, seq![a]));
}

proof fn lemma_linked_across(
    d: DistanceMatrix,
    ok: spec_fn(int) -> bool,
    a: int,
    x: int,
    y: int,
    b: int,
)
    requires
        linked(d, ok, a, x),
        ok(d.gap(x, y)),
        linked(d, ok, y, b),
    ensures
        linked(d, ok, a, b),
{
    let p = choose|path: Seq<int>| #[trigger]
        chain(d, ok, path) && path[0] == a && path[path.len() - 1] == x;
    let q = choose|path: Seq<int>| #[trigger]
        chain(d, ok, path) && path[0] == y && path[path.len() - 1] == b;
    let path = p + q;
    assert(path[0] == a && path[path.len() - 1] == b);
    assert forall|i: int, j: int|
        0 <= i < path.len() && 0 <= j < path.len() && j == i + 1 implies ok(
        d.gap(#[trigger] path[i], #[trigger] path[j]),
    ) by {
        if j < p.len() {
            assert(path[i] == p[i] && path[j] == p[j]);
        } else if i >= p.len() {
            assert(path[i] == q[i - p.len()] && path[j] == q[j - p.len()]);
        } else {
            assert(path[i] == x && path[j] == y);
        }
    }
    assert(chain(d, ok, path));
}

/// The partitions of a run have all points, are well named, and have one
/// cluster fewer at each step.
proof fn lemma_partitions(
    d: DistanceMatrix,
    num_clusters: Option<usize>,
    threshold: Measure,
    h: Seq<Seq<usize>>,
    t: int,
)
    requires
        history(d, num_clusters, threshold, h),
        0 <= t < h.len(),
    ensures
        h[t].len() == d.len(),
        well_named(h[t]),
        clusters(h[t]) == d.len() - t,
    decreases t,
{
    if t == 0 {
        lemma_len_fits(d);
        lemma_singletons(d.len());
    } else {
        lemma_partitions(d, num_clusters, threshold, h, t - 1);
        let before = h[t - 1];
        assert(merge_step(d, h[t - 1], h[t - 1 + 1]));
        let (a, b) = choose|a: int, b: int| #[trigger]
            closest(d, before, a, b) && h[t] == merged(before, before[a], before[b]);
        lemma_merged(before, a, b);
    }
}

/// Points that are together stay together.
proof fn lemma_together(
    d: DistanceMatrix,
    num_clusters: Option<usize>,
    threshold: Measure,
    h: Seq<Seq<usize>>,
    t: int,
    u: int,
    a: int,
    b: int,
)
    requires
        history(d, num_clusters, threshold, h),
        0 <= t <= u < h.len(),
        0 <= a < d.len(),
        0 <= b < d.len(),
        h[t][a] == h[t][b],
    ensures
        h[u][a] == h[u][b],
    decreases u - t,
{
    if t < u {
        lemma_partitions(d, num_clusters, threshold, h, t);
        assert(merge_step(d, h[t], h[t + 1]));
        lemma_together(d, num_clusters, threshold, h, t + 1, u, a, b);
    }
}

/// Where `ok` admits the distance of every two clusters that are joined, the
/// points of a cluster are linked.
proof fn lemma_clusters_are_linked(
    d: DistanceMatrix,
    num_clusters: Option<usize>,
    threshold: Measure,
    h: Seq<Seq<usize>>,
    ok: spec_fn(int) -> bool,
    t: int,
    p: int,
    q: int,
)
    requires
        history(d, num_clusters, threshold, h),
        0 <= t < h.len(),
        forall|s: int, a: int, b: int|
            0 <= s < h.len() - 1 && #[trigger] closest(d, h[s], a, b) ==> ok(d.gap(a, b)),
        0 <= p < d.len(),
        0 <= q < d.len(),
        h[t][p] == h[t][q],
    ensures
        linked(d, ok, p, q),
    decreases t,
{
    if t == 0 {
        lemma_len_fits(d);
        assert(h[0] == singletons(d.len()));
        assert(p == q);
        lemma_linked_to_itself(d, ok, p);
    } else {
        let before = h[t - 1];
        lemma_partitions(d, num_clusters, threshold, h, t - 1);
        assert(merge_step(d, h[t - 1], h[t - 1 + 1]));
        let (a, b) = choose|a: int, b: int| #[trigger]
            closest(d, before, a, b) && h[t] == merged(before, before[a], before[b]);
        law_distance_is_symmetric(d, a, b);
        if before[p] == before[q] {
            lemma_clusters_are_linked(d, num_clusters, threshold, h, ok, t - 1, p, q);
        } else if before[p] == before[a] {
            lemma_clusters_are_linked(d, num_clusters, threshold, h, ok, t - 1, p, a);
            lemma_clusters_are_linked(d, num_clusters, threshold, h, ok, t - 1, b, q);
            lemma_linked_across(d, ok, p, a, b, q);
        } else {
            lemma_clusters_are_linked(d, num_clusters, threshold, h, ok, t - 1, p, b);
            lemma_clusters_are_linked(d, num_clusters, threshold, h, ok, t - 1, a, q);
            lemma_linked_across(d, ok, p, b, a, q);
        }
    }
}

/// Renumbering keeps the number of clusters, and uses all numbers below it.
proof fn lemma_renumbered(labels: Seq<usize>, out: Seq<usize>, i: int)
    requires
        renumbered(labels, out),
        0 <= i <= labels.len(),
    ensures
        clusters(out.take(i)) == clusters(labels.take(i)),
        forall|b: int| 0 <= b < i ==> #[trigger] out[b] < clusters(labels.take(i)),
        forall|v: usize| v < clusters(labels.take(i)) ==> #[trigger] out.take(i).contains(v),
    decreases i,
{
    if i == 0 {
        assert(labels.take(0).to_set() =~= Set::<usize>::empty());
        assert(out.take(0).to_set() =~= Set::<usize>::empty());
    } else {
        lemma_renumbered(labels, out, i - 1);
        lemma_one_more(labels, i - 1);
        lemma_one_more(out, i - 1);
        let l = labels.take(i - 1);
        let o = out.take(i - 1);
        vstd::seq_lib::seq_to_set_is_finite(l);
        vstd::seq_lib::seq_to_set_is_finite(o);
        if first_use(labels, i - 1) {
            assert(out[i - 1] == clusters(l));
            assert(!o.contains(out[i - 1])) by {
                if o.contains(out[i - 1]) {
                    let k = choose|k: int| 0 <= k < o.len() && o[k] == out[i - 1];
                    assert(out[k] < clusters(l));
                }
            }
        } else {
            let k = choose|k: int| 0 <= k < l.len() && l[k] == labels[i - 1];
            assert(labels[k] == labels[i - 1]);
            assert(out[k] == out[i - 1]);
            assert(o[k] == out[i - 1]);
            assert(l.to_set().insert(labels[i - 1]) =~= l.to_set());
            assert(o.to_set().insert(out[i - 1]) =~= o.to_set());
        }
        assert forall|v: usize| v < clusters(labels.take(i)) implies #[trigger] out.take(
            i,
        ).contains(v) by {
            assert(out.take(i).to_set().contains(v) <==> o.to_set().insert(out[i - 1]).contains(v));
            if v < clusters(l) {
                assert(o.contains(v));
            }
        }
    }
}

proof fn lemma_one_more(s: Seq<usize>, i: int)
    requires
        0 <= i < s.len(),
    ensures
        s.take(i + 1).to_set() == s.take(i).to_set().insert(s[i]),
{
    let before = s.take(i);
    assert(s.take(i + 1) =~= before.push(s[i]));
    assert forall|x: usize| before.to_set().insert(s[i]).contains(x) implies s.take(
        i + 1,
    ).to_set().contains(x) by {
        if x == s[i] {
            assert(before.push(s[i])[i] == x);
        } else {
            let k = choose|k: int| 0 <= k < before.len() && before[k] == x;
            assert(before.push(s[i])[k] == x);
        }
    }
    assert(s.take(i + 1).to_set() =~= before.to_set().insert(s[i]));
}

/// There is one label per embedding, and the labels are exactly the numbers
/// from 0 up to the number of clusters.
pub proof fn law_labels_are_dense(
    d: DistanceMatrix,
    num_clusters: Option<usize>,
    threshold: Measure,
    out: Seq<usize>,
)
    requires
        clustering(d, num_clusters, threshold, out),
    ensures
        out.len() == d.len(),
        forall|a: int| 0 <= a < out.len() ==> #[trigger] out[a] < clusters(out),
        forall|v: usize| v < clusters(out) ==> #[trigger] out.contains(v),
{
    let h = choose|h: Seq<Seq<usize>>| #[trigger]
        history(d, num_clusters, threshold, h) && renumbered(h.last(), out);
    lemma_partitions(d, num_clusters, threshold, h, h.len() - 1);
    lemma_renumbered(h.last(), out, out.len() as int);
    assert(out.take(out.len() as int) =~= out);
    assert(h.last().take(out.len() as int) =~= h.last());
}

/// Asked for `k` clusters, the clustering has exactly `k`, except that it has
/// at least one and no more than there are embeddings.
pub proof fn law_number_of_clusters(d: DistanceMatrix, k: usize, threshold: Measure, out: Seq<usize>)
    requires
        clustering(d, Some(k), threshold, out),
    ensures
        clusters(out) == (if wanted(k) < d.len() {
            wanted(k)
        } else {
            d.len()
        }),
{
    let h = choose|h: Seq<Seq<usize>>| #[trigger]
        history(d, Some(k), threshold, h) && renumbered(h.last(), out);
    lemma_partitions(d, Some(k), threshold, h, h.len() - 1);
    lemma_renumbered(h.last(), out, out.len() as int);
    assert(out.take(out.len() as int) =~= out);
    assert(h.last().take(out.len() as int) =~= h.last());
    if h.len() > 1 {
        lemma_partitions(d, Some(k), threshold, h, h.len() - 2);
        assert(!settled(d, Some(k), threshold, h[h.len() - 2]));
    }
}

/// Without a number of clusters, two embeddings have the same label exactly
/// where a chain of embeddings leads from one to the other, none of whose
/// steps exceeds the threshold.
pub proof fn law_threshold_components(
    d: DistanceMatrix,
    threshold: Measure,
    out: Seq<usize>,
    p: int,
    q: int,
)
    requires
        clustering(d, None, threshold, out),
        0 <= p < d.len(),
        0 <= q < d.len(),
    ensures
        out[p] == out[q] <==> linked(d, within(threshold), p, q),
{
    let h = choose|h: Seq<Seq<usize>>| #[trigger]
        history(d, None, threshold, h) && renumbered(h.last(), out);
    let end = h.len() - 1;
    lemma_partitions(d, None, threshold, h, end);
    let ok = within(threshold);
    if out[p] == out[q] {
        assert forall|s: int, a: int, b: int|
            0 <= s < h.len() - 1 && #[trigger] closest(d, h[s], a, b) implies ok(d.gap(a, b)) by {
            assert(!settled(d, None, threshold, h[s]));
            let (x, y) = choose|x: int, y: int| #[trigger]
                apart(h[s], x, y) && !exceeds(d.gap(x, y), threshold);
            assert(nearer(d, h[s], a, b, x, y));
        }
        lemma_clusters_are_linked(d, None, threshold, h, ok, end, p, q);
    }
    if linked(d, ok, p, q) {
        let path = choose|path: Seq<int>| #[trigger]
            chain(d, ok, path) && path[0] == p && path[path.len() - 1] == q;
        lemma_chain_stays(d, threshold, h.last(), path, path.len() - 1);
    }
}

/// Raising the threshold only joins clusters: what has the same label under a
/// threshold has it under every higher one.
pub proof fn law_higher_thresholds_join(
    d: DistanceMatrix,
    low: Measure,
    high: Measure,
    a: Seq<usize>,
    b: Seq<usize>,
    p: int,
    q: int,
)
    requires
        clustering(d, None, low, a),
        clustering(d, None, high, b),
        !low.nan(),
        !high.nan(),
        low.value() <= high.value(),
        0 <= p < d.len(),
        0 <= q < d.len(),
    ensures
        a[p] == a[q] ==> b[p] == b[q],
{
    law_threshold_components(d, low, a, p, q);
    law_threshold_components(d, high, b, p, q);
    if a[p] == a[q] {
        let path = choose|path: Seq<int>| #[trigger]
            chain(d, within(low), path) && path[0] == p && path[path.len() - 1] == q;
        assert(chain(d, within(high), path)) by {
            assert forall|i: int, j: int|
                0 <= i < path.len() && 0 <= j < path.len() && j == i + 1 implies within(high)(
                d.gap(#[trigger] path[i], #[trigger] path[j]),
            ) by {
                assert(within(low)(d.gap(path[i], path[j])));
            }
        }
    }
}

/// Where every distance exceeds the threshold, each embedding is alone, and is
/// its own label.
pub proof fn law_threshold_below_every_distance(
    d: DistanceMatrix,
    threshold: Measure,
    out: Seq<usize>,
)
    requires
        clustering(d, None, threshold, out),
        forall|i: int, j: int|
            0 <= i < j < d.len() ==> exceeds(#[trigger] d.gap(i, j), threshold),
    ensures
        out == singletons(d.len()),
{
    let h = choose|h: Seq<Seq<usize>>| #[trigger]
        history(d, None, threshold, h) && renumbered(h.last(), out);
    lemma_len_fits(d);
    let start = singletons(d.len());
    assert forall|a: int, b: int| #[trigger] apart(start, a, b) implies exceeds(
        d.gap(a, b),
        threshold,
    ) by {}
    assert(settled(d, None, threshold, h[0]));
    assert(h.len() == 1);
    lemma_singletons_are_numbered(d.len(), out);
}

/// Where no distance exceeds the threshold, all embeddings have the label 0.
pub proof fn law_threshold_above_every_distance(
    d: DistanceMatrix,
    threshold: Measure,
    out: Seq<usize>,
    p: int,
)
    requires
        clustering(d, None, threshold, out),
        forall|i: int, j: int|
            0 <= i < j < d.len() ==> !exceeds(#[trigger] d.gap(i, j), threshold),
        0 <= p < d.len(),
    ensures
        out[p] == 0,
{
    law_labels_are_dense(d, None, threshold, out);
    assert(out[p] < clusters(out));
    assert(out.contains(0usize));
    let k = choose|k: int| 0 <= k < out.len() && out[k] == 0;
    law_threshold_components(d, threshold, out, k, p);
    if k != p {
        law_distance_is_symmetric(d, k, p);
        lemma_linked_to_itself(d, within(threshold), k);
        lemma_linked_to_itself(d, within(threshold), p);
        assert(within(threshold)(d.gap(k, p)));
        lemma_linked_across(d, within(threshold), k, k, p, p);
    }
}

/// The pattern of 2, the greatest distance that two vectors of length one have.
pub const GREATEST_DISTANCE_BITS: u32 = 0x4000_0000;

/// The distances lie from 0 to 2, as far as they are numbers.
pub open spec fn cosine(d: DistanceMatrix) -> bool {
    forall|i: int, j: int|
        0 <= i < j < d.len() ==> (#[trigger] d.at(i, j)).nan() || 0 <= d.at(i, j).value() <= (
        Measure { bits: GREATEST_DISTANCE_BITS }).value()
}

/// A negative threshold leaves every embedding alone. A threshold of 2 or more
/// puts all of them in one cluster, if all their distances are numbers.
pub proof fn law_extreme_thresholds(d: DistanceMatrix, threshold: Measure, out: Seq<usize>)
    requires
        cosine(d),
        clustering(d, None, threshold, out),
        !threshold.nan(),
    ensures
        threshold.value() < 0 ==> out == singletons(d.len()),
        (Measure { bits: GREATEST_DISTANCE_BITS }).value() <= threshold.value() && (forall|
            i: int,
            j: int,
        |
            0 <= i < j < d.len() ==> !(#[trigger] d.at(i, j)).nan()) ==> forall|p: int|
            0 <= p < out.len() ==> #[trigger] out[p] == 0,
{
    let infinity = Measure { bits: INFINITY_BITS };
    law_infinities_bound_the_numbers(Measure { bits: 0 }, infinity);
    assert((Measure { bits: 0 }).value() == 0);
    law_labels_are_dense(d, None, threshold, out);
    if threshold.value() < 0 {
        assert forall|i: int, j: int| 0 <= i < j < d.len() implies exceeds(
            #[trigger] d.gap(i, j),
            threshold,
        ) by {
            assert(d.at(i, j).nan() || 0 <= d.at(i, j).value());
        }
        law_threshold_below_every_distance(d, threshold, out);
    }
    if (Measure { bits: GREATEST_DISTANCE_BITS }).value() <= threshold.value() && (forall|
        i: int,
        j: int,
    |
        0 <= i < j < d.len() ==> !(#[trigger] d.at(i, j)).nan()) {
        assert forall|i: int, j: int| 0 <= i < j < d.len() implies !exceeds(
            #[trigger] d.gap(i, j),
            threshold,
        ) by {
            assert(!d.at(i, j).nan());
        }
        assert forall|p: int| 0 <= p < out.len() implies #[trigger] out[p] == 0 by {
            law_threshold_above_every_distance(d, threshold, out, p);
        }
    }
}

/// In a settled partition no admitted chain leaves a cluster.
proof fn lemma_chain_stays(
    d: DistanceMatrix,
    threshold: Measure,
    labels: Seq<usize>,
    path: Seq<int>,
    i: int,
)
    requires
        settled(d, None, threshold, labels),
        labels.len() == d.len(),
        chain(d, within(threshold), path),
        0 <= i < path.len(),
    ensures
        labels[path[0]] == labels[path[i]],
    decreases i,
{
    if i > 0 {
        lemma_chain_stays(d, threshold, labels, path, i - 1);
        let x = path[i - 1];
        let y = path[i];
        law_distance_is_symmetric(d, x, y);
        assert(within(threshold)(d.gap(path[i - 1], path[i])));
        if labels[x] != labels[y] {
            if clusters(labels) <= 1 {
                vstd::seq_lib::seq_to_set_is_finite(labels);
                assert(labels.contains(labels[x]) && labels.contains(labels[y]));
                let s = labels.to_set();
                assert(s.contains(labels[x]) && s.contains(labels[y]));
                assert(s.remove(labels[x]).contains(labels[y]));
                assert(s.remove(labels[x]).len() == s.len() - 1);
                assert(s.remove(labels[x]).len() == 0);
                assert(s.remove(labels[x]) =~= Set::<usize>::empty());
            } else {
                assert(apart(labels, x, y) || apart(labels, y, x));
            }
        }
    }
}

/// Clusters lie no closer to each other than the steps that hold them
/// together: any two embeddings of one cluster are linked by steps no longer
/// than the distance of any two embeddings of different clusters.
pub proof fn law_clusters_are_spaced(
    d: DistanceMatrix,
    num_clusters: Option<usize>,
    threshold: Measure,
    out: Seq<usize>,
    a: int,
    b: int,
    p: int,
    q: int,
)
    requires
        clustering(d, num_clusters, threshold, out),
        0 <= a < d.len(),
        0 <= b < d.len(),
        0 <= p < d.len(),
        0 <= q < d.len(),
        out[a] == out[b],
        out[p] != out[q],
    ensures
        linked(d, at_most(d.gap(p, q)), a, b),
{
    let h = choose|h: Seq<Seq<usize>>| #[trigger]
        history(d, num_clusters, threshold, h) && renumbered(h.last(), out);
    let end = h.len() - 1;
    lemma_partitions(d, num_clusters, threshold, h, end);
    law_distance_is_symmetric(d, p, q);
    let ok = at_most(d.gap(p, q));
    assert forall|s: int, x: int, y: int|
        0 <= s < h.len() - 1 && #[trigger] closest(d, h[s], x, y) implies ok(d.gap(x, y)) by {
        lemma_partitions(d, num_clusters, threshold, h, s);
        if h[s][p] == h[s][q] {
            lemma_together(d, num_clusters, threshold, h, s, end, p, q);
        }
        assert(apart(h[s], p, q) || apart(h[s], q, p));
    }
    lemma_clusters_are_linked(d, num_clusters, threshold, h, ok, end, a, b);
}

/// The partitions of two runs agree as far as both go, whatever ends them.
proof fn lemma_same_run(
    d: DistanceMatrix,
    num_clusters: Option<usize>,
    threshold: Measure,
    other_number: Option<usize>,
    other_threshold: Measure,
    g: Seq<Seq<usize>>,
    h: Seq<Seq<usize>>,
    t: int,
)
    requires
        history(d, num_clusters, threshold, g),
        history(d, other_number, other_threshold, h),
        0 <= t < g.len(),
        t < h.len(),
    ensures
        g[t] == h[t],
    decreases t,
{
    if t > 0 {
        lemma_same_run(
            d,
            num_clusters,
            threshold,
            other_number,
            other_threshold,
            g,
            h,
            t - 1,
        );
        let before = g[t - 1];
        assert(merge_step(d, g[t - 1], g[t - 1 + 1]));
        assert(merge_step(d, h[t - 1], h[t - 1 + 1]));
        let (a, b) = choose|a: int, b: int| #[trigger]
            closest(d, before, a, b) && g[t] == merged(before, before[a], before[b]);
        let (p, q) = choose|p: int, q: int| #[trigger]
            closest(d, before, p, q) && h[t] == merged(before, before[p], before[q]);
        assert(apart(before, a, b) && apart(before, p, q));
        assert(nearer(d, before, a, b, p, q) && nearer(d, before, p, q, a, b));
    }
}

/// The distances, the number of clusters and the threshold determine the labels.
pub proof fn law_clustering_is_determined(
    d: DistanceMatrix,
    num_clusters: Option<usize>,
    threshold: Measure,
    out: Seq<usize>,
    other: Seq<usize>,
)
    requires
        clustering(d, num_clusters, threshold, out),
        clustering(d, num_clusters, threshold, other),
    ensures
        out == other,
{
    let g = choose|h: Seq<Seq<usize>>| #[trigger]
        history(d, num_clusters, threshold, h) && renumbered(h.last(), out);
    let h = choose|h: Seq<Seq<usize>>| #[trigger]
        history(d, num_clusters, threshold, h) && renumbered(h.last(), other);
    if g.len() < h.len() {
        lemma_same_run(d, num_clusters, threshold, num_clusters, threshold, g, h, g.len() - 1);
        assert(!settled(d, num_clusters, threshold, h[g.len() - 1]));
    } else if h.len() < g.len() {
        lemma_same_run(d, num_clusters, threshold, num_clusters, threshold, g, h, h.len() - 1);
        assert(!settled(d, num_clusters, threshold, g[h.len() - 1]));
    }
    lemma_same_run(d, num_clusters, threshold, num_clusters, threshold, g, h, g.len() - 1);
    let labels = g.last();
    assert(labels == h.last());
    assert forall|a: int| 0 <= a < out.len() implies out[a] == other[a] by {
        lemma_first_of(labels, a);
        let f = choose|f: int| 0 <= f <= a && labels[f] == labels[a] && first_use(labels, f);
        assert(out[f] == out[a] && other[f] == other[a]);
        assert(out[f] == clusters(labels.take(f)) && other[f] == clusters(labels.take(f)));
    }
    assert(out =~= other);
}

/// Every cluster has a first point.
proof fn lemma_first_of(labels: Seq<usize>, a: int)
    requires
        0 <= a < labels.len(),
    ensures
        exists|f: int| 0 <= f <= a && labels[f] == labels[a] && first_use(labels, f),
    decreases a,
{
    if !first_use(labels, a) {
        let k = choose|k: int| 0 <= k < labels.take(a).len() && labels.take(a)[k] == labels[a];
        assert(labels[k] == labels[a]);
        lemma_first_of(labels, k);
    } else {
        assert(labels[a] == labels[a] && first_use(labels, a));
    }
}

/// The distance that clustering goes by is the one that was given for the pair,
/// wherever the two embeddings are in the list; one that is no number counts as
/// infinite.
pub proof fn law_distances_are_as_given(d: DistanceMatrix, i: int, j: int)
    ensures
        !d.at(i, j).nan() ==> d.gap(i, j) == d.at(i, j).value(),
        d.at(i, j).nan() ==> d.gap(i, j) == (Measure { bits: 0x7F80_0000 }).value(),
        d.gap(i, j) == d.gap(j, i),
{
    law_distance_is_symmetric(d, i, j);
}

/// The order in which a run names clusters is that of their numbers.
proof fn lemma_numbers_follow_names(labels: Seq<usize>, out: Seq<usize>, p: int, q: int)
    requires
        well_named(labels),
        renumbered(labels, out),
        0 <= p < labels.len(),
        0 <= q < labels.len(),
    ensures
        labels[p] < labels[q] <==> out[p] < out[q],
        labels[p] == labels[q] <==> out[p] == out[q],
{
    if labels[p] < labels[q] {
        lemma_later_names(labels, out, p, q);
    } else if labels[q] < labels[p] {
        lemma_later_names(labels, out, q, p);
    }
}

proof fn lemma_later_names(labels: Seq<usize>, out: Seq<usize>, p: int, q: int)
    requires
        well_named(labels),
        renumbered(labels, out),
        0 <= p < labels.len(),
        0 <= q < labels.len(),
        labels[p] < labels[q],
    ensures
        out[p] < out[q],
{
    let a = labels[p] as int;
    let b = labels[q] as int;
    assert(labels[p] <= p && labels[a] == labels[p]);
    assert(labels[q] <= q && labels[b] == labels[q]);
    assert(first_use(labels, b)) by {
        if labels.take(b).contains(labels[b]) {
            let k = choose|k: int| 0 <= k < labels.take(b).len() && labels.take(b)[k] == labels[b];
            assert(labels[k] <= k);
        }
    }
    assert(out[b] == clusters(labels.take(b)));
    lemma_renumbered(labels, out, b);
    assert(out[a] < clusters(labels.take(b)));
    assert(out[a] == out[p] && out[b] == out[q]);
}

/// The labels in use are the numbers from 0 up to the number of clusters asked
/// for, at least one, as far as there are embeddings; each embedding has one.
pub proof fn law_labels_in_use(
    d: DistanceMatrix,
    k: usize,
    threshold: Measure,
    out: Seq<usize>,
    label: usize,
)
    requires
        clustering(d, Some(k), threshold, out),
    ensures
        out.len() == d.len(),
        (exists|a: int| 0 <= a < d.len() && #[trigger] out[a] == label) <==> label < d.len() && (label
            < k || label == 0),
{
    law_labels_are_dense(d, Some(k), threshold, out);
    law_number_of_clusters(d, k, threshold, out);
    if label < d.len() && (label < k || label == 0) {
        assert(out.contains(label));
        let a = choose|a: int| 0 <= a < out.len() && out[a] == label;
        assert(out[a] == label);
    }
}

/// Labels are given in the order in which they are needed: before a label is
/// first used, all smaller ones have been.
pub proof fn law_labels_count_up(
    d: DistanceMatrix,
    num_clusters: Option<usize>,
    threshold: Measure,
    out: Seq<usize>,
    a: int,
    label: usize,
)
    requires
        clustering(d, num_clusters, threshold, out),
        0 <= a < d.len(),
        label < out[a],
    ensures
        out.len() == d.len(),
        exists|b: int| 0 <= b < a && #[trigger] out[b] == label,
{
    law_labels_are_dense(d, num_clusters, threshold, out);
    let h = choose|h: Seq<Seq<usize>>| #[trigger]
        history(d, num_clusters, threshold, h) && renumbered(h.last(), out);
    let labels = h.last();
    lemma_first_of(labels, a);
    let f = choose|f: int| 0 <= f <= a && labels[f] == labels[a] && first_use(labels, f);
    assert(out[f] == out[a]);
    assert(out[f] == clusters(labels.take(f)));
    lemma_renumbered(labels, out, f);
    assert(out.take(f).contains(label));
    let b = choose|b: int| 0 <= b < out.take(f).len() && out.take(f)[b] == label;
    assert(out[b] == label);
}

/// Each embedding that is alone is its own label.
proof fn lemma_singletons_are_numbered(n: nat, out: Seq<usize>)
    requires
        n <= usize::MAX,
        renumbered(singletons(n), out),
    ensures
        out == singletons(n),
{
    let start = singletons(n);
    assert forall|a: int| 0 <= a < out.len() implies out[a] == start[a] by {
        assert(!start.take(a).contains(start[a])) by {
            if start.take(a).contains(start[a]) {
                let k = choose|k: int| 0 <= k < start.take(a).len() && start.take(a)[k] == start[a];
                assert(start[k] == start[a]);
            }
        }
        assert(first_use(start, a));
        assert(start.take(a) =~= singletons(a as nat));
        lemma_singletons(a as nat);
    }
    assert(out =~= start);
}

/// Asked for as many clusters as there are embeddings, or more, each is alone.
pub proof fn law_enough_clusters_leave_all_alone(
    d: DistanceMatrix,
    k: usize,
    threshold: Measure,
    out: Seq<usize>,
    a: int,
)
    requires
        clustering(d, Some(k), threshold, out),
        d.len() <= k,
        0 <= a < d.len(),
    ensures
        out.len() == d.len(),
        out[a] == a,
{
    let h = choose|h: Seq<Seq<usize>>| #[trigger]
        history(d, Some(k), threshold, h) && renumbered(h.last(), out);
    lemma_len_fits(d);
    lemma_partitions(d, Some(k), threshold, h, 0);
    assert(settled(d, Some(k), threshold, h[0]));
    assert(h.len() == 1);
    lemma_singletons_are_numbered(d.len(), out);
}

/// Asked for one cluster fewer, the clustering joins exactly the two clusters
/// with the closest pair of embeddings, by the distances as they were given; of
/// pairs that are as close, the one in the clusters with the smallest labels.
/// What is no number is as far as infinity.
pub proof fn law_one_cluster_fewer(
    d: DistanceMatrix,
    k: usize,
    threshold: Measure,
    other_threshold: Measure,
    more: Seq<usize>,
    fewer: Seq<usize>,
) -> (pair: (int, int))
    requires
        1 <= k < d.len(),
        clustering(d, Some((k + 1) as usize), threshold, more),
        clustering(d, Some(k), other_threshold, fewer),
    ensures
        more.len() == d.len() && fewer.len() == d.len(),
        0 <= pair.0 < d.len() && 0 <= pair.1 < d.len(),
        more[pair.0] < more[pair.1],
        forall|p: int, q: int|
            0 <= p < d.len() && 0 <= q < d.len() ==> (#[trigger] fewer[p] == #[trigger] fewer[q]
                <==> (more[p] == more[q] || (more[p] == more[pair.0] && more[q] == more[pair.1]) || (
            more[p] == more[pair.1] && more[q] == more[pair.0]))),
        forall|p: int, q: int|
            0 <= p < d.len() && 0 <= q < d.len() && #[trigger] more[p] < #[trigger] more[q] ==> {
                let mine = d.at(pair.0, pair.1);
                let other = d.at(p, q);
                &&& !mine.nan() ==> !other.less(mine)
                &&& mine.nan() ==> other.nan() || other.bits == 0x7F80_0000
                &&& (if mine.nan() || other.nan() {
                    (mine.nan() || mine.bits == 0x7F80_0000) && (other.nan() || other.bits
                        == 0x7F80_0000)
                } else {
                    !mine.less(other)
                }) ==> more[pair.0] < more[p] || (more[pair.0] == more[p] && more[pair.1] <= more[q])
            },
{
    let c = Some((k + 1) as usize);
    lemma_len_fits(d);
    let g = choose|h: Seq<Seq<usize>>| #[trigger]
        history(d, c, threshold, h) && renumbered(h.last(), more);
    let h = choose|h: Seq<Seq<usize>>| #[trigger]
        history(d, Some(k), other_threshold, h) && renumbered(h.last(), fewer);
    law_number_of_clusters(d, (k + 1) as usize, threshold, more);
    law_number_of_clusters(d, k, other_threshold, fewer);
    law_labels_are_dense(d, c, threshold, more);
    law_labels_are_dense(d, Some(k), other_threshold, fewer);
    lemma_partitions(d, c, threshold, g, g.len() - 1);
    lemma_partitions(d, Some(k), other_threshold, h, h.len() - 1);
    lemma_count_is_kept(g.last(), more);
    lemma_count_is_kept(h.last(), fewer);
    assert(h.len() == g.len() + 1);
    lemma_same_run(d, c, threshold, Some(k), other_threshold, g, h, g.len() - 1);
    let before = g.last();
    let after = h.last();
    let t = g.len() - 1;
    assert(h[t] == before && h[t + 1] == after);
    assert(merge_step(d, h[t], h[t + 1]));
    let (x, y) = choose|a: int, b: int| #[trigger]
        closest(d, before, a, b) && after == merged(before, before[a], before[b]);
    assert(apart(before, x, y));
    lemma_numbers_follow_names(before, more, x, y);
    assert forall|p: int, q: int|
        0 <= p < d.len() && 0 <= q < d.len() implies (#[trigger] fewer[p] == #[trigger] fewer[q]
        <==> (more[p] == more[q] || (more[p] == more[x] && more[q] == more[y]) || (more[p]
        == more[y] && more[q] == more[x]))) by {
        assert(fewer[p] == fewer[q] <==> after[p] == after[q]);
        lemma_numbers_follow_names(before, more, p, q);
        lemma_numbers_follow_names(before, more, p, x);
        lemma_numbers_follow_names(before, more, p, y);
        lemma_numbers_follow_names(before, more, q, x);
        lemma_numbers_follow_names(before, more, q, y);
    }
    assert forall|p: int, q: int|
        0 <= p < d.len() && 0 <= q < d.len() && #[trigger] more[p] < #[trigger] more[q] implies {
        let mine = d.at(x, y);
        let other = d.at(p, q);
        &&& !mine.nan() ==> !other.less(mine)
        &&& mine.nan() ==> other.nan() || other.bits == 0x7F80_0000
        &&& (if mine.nan() || other.nan() {
            (mine.nan() || mine.bits == 0x7F80_0000) && (other.nan() || other.bits == 0x7F80_0000)
        } else {
            !mine.less(other)
        }) ==> more[x] < more[p] || (more[x] == more[p] && more[y] <= more[q])
    } by {
        lemma_numbers_follow_names(before, more, p, q);
        lemma_numbers_follow_names(before, more, x, p);
        lemma_numbers_follow_names(before, more, y, q);
        lemma_numbers_follow_names(before, more, q, y);
        assert(apart(before, p, q));
        assert(nearer(d, before, x, y, p, q));
        let infinity = Measure { bits: INFINITY_BITS };
        if !d.at(p, q).nan() {
            law_infinities_bound_the_numbers(d.at(p, q), infinity);
        }
        if !d.at(x, y).nan() {
            law_infinities_bound_the_numbers(d.at(x, y), infinity);
        }
    }
    (x, y)
}

/// Renumbering keeps the number of clusters.
proof fn lemma_count_is_kept(labels: Seq<usize>, out: Seq<usize>)
    requires
        renumbered(labels, out),
    ensures
        clusters(out) == clusters(labels),
{
    lemma_renumbered(labels, out, out.len() as int);
    assert(out.take(out.len() as int) =~= out);
    assert(labels.take(out.len() as int) =~= labels);
}

/// Without a number of clusters, embeddings along a path have one label, if no
/// step of it is longer than the threshold, by the distances as they were
/// given. A distance that is no number is as long as infinity.
pub proof fn law_close_embeddings_share_a_label(
    d: DistanceMatrix,
    threshold: Measure,
    out: Seq<usize>,
    path: Seq<int>,
)
    requires
        clustering(d, None, threshold, out),
        path.len() > 0,
        forall|i: int| 0 <= i < path.len() ==> 0 <= #[trigger] path[i] < d.len(),
        forall|i: int, j: int|
            0 <= i < path.len() && 0 <= j < path.len() && j == i + 1 ==> {
                let step = d.at(#[trigger] path[i], #[trigger] path[j]);
                if step.nan() {
                    threshold.nan() || threshold.bits == 0x7F80_0000
                } else {
                    !threshold.less(step)
                }
            },
    ensures
        out.len() == d.len(),
        out[path[0]] == out[path[path.len() - 1]],
{
    law_labels_are_dense(d, None, threshold, out);
    assert forall|i: int, j: int|
        0 <= i < path.len() && 0 <= j < path.len() && j == i + 1 implies within(threshold)(
        d.gap(#[trigger] path[i], #[trigger] path[j]),
    ) by {
        let step = d.at(path[i], path[j]);
        assert(if step.nan() {
            threshold.nan() || threshold.bits == 0x7F80_0000
        } else {
            !threshold.less(step)
        });
    }
    assert(chain(d, within(threshold), path));
    law_threshold_components(d, threshold, out, path[0], path[path.len() - 1]);
}

/// Without a number of clusters, two embeddings whose distance is a number not
/// above the threshold have one label.
pub proof fn law_close_pairs_share_a_label(
    d: DistanceMatrix,
    threshold: Measure,
    out: Seq<usize>,
    p: int,
    q: int,
)
    requires
        clustering(d, None, threshold, out),
        0 <= p < d.len(),
        0 <= q < d.len(),
        !d.at(p, q).nan(),
        !threshold.less(d.at(p, q)),
    ensures
        out[p] == out[q],
{
    law_close_embeddings_share_a_label(d, threshold, out, seq![p, q]);
}

/// Without a number of clusters, embeddings with one label are joined by a path
/// no step of which is longer than the threshold, by the distances as they were
/// given.
pub proof fn law_shared_labels_are_linked(
    d: DistanceMatrix,
    threshold: Measure,
    out: Seq<usize>,
    p: int,
    q: int,
) -> (path: Seq<int>)
    requires
        clustering(d, None, threshold, out),
        0 <= p < d.len(),
        0 <= q < d.len(),
        out[p] == out[q],
    ensures
        path.len() > 0 && path[0] == p && path[path.len() - 1] == q,
        forall|i: int| 0 <= i < path.len() ==> 0 <= #[trigger] path[i] < d.len(),
        forall|i: int, j: int|
            0 <= i < path.len() && 0 <= j < path.len() && j == i + 1 ==> {
                let step = d.at(#[trigger] path[i], #[trigger] path[j]);
                if step.nan() {
                    threshold.nan() || threshold.bits == 0x7F80_0000
                } else {
                    !threshold.less(step)
                }
            },
{
    law_threshold_components(d, threshold, out, p, q);
    let path = choose|path: Seq<int>| #[trigger]
        chain(d, within(threshold), path) && path[0] == p && path[path.len() - 1] == q;
    let infinity = Measure { bits: INFINITY_BITS };
    if !threshold.nan() {
        law_infinities_bound_the_numbers(threshold, infinity);
    }
    assert forall|i: int, j: int|
        0 <= i < path.len() && 0 <= j < path.len() && j == i + 1 implies {
        let step = d.at(#[trigger] path[i], #[trigger] path[j]);
        if step.nan() {
            threshold.nan() || threshold.bits == 0x7F80_0000
        } else {
            !threshold.less(step)
        }
    } by {
        assert(within(threshold)(d.gap(path[i], path[j])));
    }
    path
}

} // verus!
