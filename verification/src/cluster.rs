//! Agglomerative clustering of speaker embeddings by their pairwise distances.
//!
//! Clusters are joined by single linkage: the distance of two clusters is the
//! smallest distance between a member of the one and a member of the other.

use crate::measure::{Measure, INFINITY_BITS};
use std::collections::HashMap;
use vstd::prelude::*;

verus! {

broadcast use vstd::std_specs::hash::group_hash_axioms;

/// The pairwise distances of a list of embeddings.
pub struct DistanceMatrix {
    /// Row `j` holds the distances of embedding `j` to the embeddings before it.
    rows: Vec<Vec<Measure>>,
}

impl DistanceMatrix {
    #[verifier::type_invariant]
    spec fn triangular(self) -> bool {
        forall|j: int| 0 <= j < self.rows@.len() ==> (#[trigger] self.rows@[j])@.len() == j
    }

    /// The number of embeddings.
    pub closed spec fn len(self) -> nat {
        self.rows@.len()
    }

    /// The distance of embeddings `i` and `j`, in either order.
    pub closed spec fn at(self, i: int, j: int) -> Measure {
        if i < j {
            self.rows@[j]@[i]
        } else if j < i {
            self.rows@[i]@[j]
        } else {
            Measure { bits: 0 }
        }
    }

    /// The distance as a number. What is no number is as far as can be.
    pub open spec fn gap(self, i: int, j: int) -> int {
        if self.at(i, j).nan() {
            (Measure { bits: INFINITY_BITS }).value()
        } else {
            self.at(i, j).value()
        }
    }

    /// The distances of no embeddings.
    pub fn new() -> (r: DistanceMatrix)
        ensures
            r.len() == 0,
    {
        DistanceMatrix { rows: Vec::new() }
    }

    /// Adds an embedding, with its distances to those already there.
    pub fn push(&mut self, row: Vec<Measure>)
        requires
            row@.len() == old(self).len(),
        ensures
            final(self).len() == old(self).len() + 1,
            forall|i: int, j: int|
                0 <= i < old(self).len() && 0 <= j < old(self).len() ==> #[trigger] final(self).at(
                    i,
                    j,
                ) == old(self).at(i, j),
            forall|i: int|
                0 <= i < old(self).len() ==> #[trigger] final(self).at(i, old(self).len() as int)
                    == row@[i],
    {
        proof {
            use_type_invariant(&*self);
        }
        let mut rows: Vec<Vec<Measure>> = Vec::new();
        std::mem::swap(&mut rows, &mut self.rows);
        rows.push(row);
        self.rows = rows;
    }

    /// The number of embeddings.
    pub fn size(&self) -> (r: usize)
        ensures
            r == self.len(),
    {
        self.rows.len()
    }

    /// The distance of two different embeddings, infinite where it is no number.
    fn measured(&self, i: usize, j: usize) -> (r: Measure)
        requires
            i < self.len(),
            j < self.len(),
            i != j,
        ensures
            !r.nan(),
            r.value() == self.gap(i as int, j as int),
    {
        proof {
            use_type_invariant(self);
        }
        let m: Measure = if i < j {
            self.rows[j][i]
        } else {
            self.rows[i][j]
        };
        if m.is_nan() {
            Measure { bits: INFINITY_BITS }
        } else {
            m
        }
    }
}

/// A distance does not depend on the order of its two embeddings.
pub proof fn law_distance_is_symmetric(d: DistanceMatrix, i: int, j: int)
    ensures
        d.at(i, j) == d.at(j, i),
        d.gap(i, j) == d.gap(j, i),
{
}

/// A matrix is in memory, so its embeddings can be counted.
pub proof fn lemma_len_fits(d: DistanceMatrix)
    ensures
        d.len() <= usize::MAX,
{
    assert(d.rows@.len() == d.rows.len());
}

/// A partition of `n` points names for each point the cluster that it is in.
/// This is the one where each point is alone.
pub open spec fn singletons(n: nat) -> Seq<usize> {
    Seq::new(n, |a: int| a as usize)
}

/// The number of clusters.
pub open spec fn clusters(labels: Seq<usize>) -> nat {
    labels.to_set().len()
}

/// Points `a` and `b` are in different clusters, that of `a` being named first.
pub open spec fn apart(labels: Seq<usize>, a: int, b: int) -> bool {
    0 <= a < labels.len() && 0 <= b < labels.len() && labels[a] < labels[b]
}

/// The pair `(a, b)` is closer than the pair `(p, q)`, or as close and in
/// clusters named no later.
pub open spec fn nearer(
    d: DistanceMatrix,
    labels: Seq<usize>,
    a: int,
    b: int,
    p: int,
    q: int,
) -> bool {
    ||| d.gap(a, b) < d.gap(p, q)
    ||| {
        &&& d.gap(a, b) == d.gap(p, q)
        &&& labels[a] < labels[p] || (labels[a] == labels[p] && labels[b] <= labels[q])
    }
}

/// Of all pairs of points in different clusters, `(a, b)` comes first.
pub open spec fn closest(d: DistanceMatrix, labels: Seq<usize>, a: int, b: int) -> bool {
    &&& apart(labels, a, b)
    &&& forall|p: int, q: int| #[trigger]
        apart(labels, p, q) ==> nearer(d, labels, a, b, p, q)
}

/// The partition after cluster `gone` has joined cluster `keep`.
pub open spec fn merged(labels: Seq<usize>, keep: usize, gone: usize) -> Seq<usize> {
    Seq::new(
        labels.len(),
        |a: int|
            if labels[a] == gone {
                keep
            } else {
                labels[a]
            },
    )
}

/// `after` is `before` with its two closest clusters joined.
pub open spec fn merge_step(d: DistanceMatrix, before: Seq<usize>, after: Seq<usize>) -> bool {
    exists|a: int, b: int| #[trigger]
        closest(d, before, a, b) && after == merged(before, before[a], before[b])
}

/// A distance lies above the threshold.
pub open spec fn exceeds(gap: int, threshold: Measure) -> bool {
    !threshold.nan() && gap > threshold.value()
}

/// How many clusters are asked for: at least one.
pub open spec fn wanted(k: usize) -> nat {
    if k == 0 {
        1
    } else {
        k as nat
    }
}

/// There is nothing left to join: one cluster, or as few clusters as are asked
/// for, or, where no number is asked for, all remaining distances between
/// clusters above the threshold.
pub open spec fn settled(
    d: DistanceMatrix,
    num_clusters: Option<usize>,
    threshold: Measure,
    labels: Seq<usize>,
) -> bool {
    ||| clusters(labels) <= 1
    ||| match num_clusters {
        Some(k) => clusters(labels) <= wanted(k),
        None => forall|a: int, b: int| #[trigger]
            apart(labels, a, b) ==> exceeds(d.gap(a, b), threshold),
    }
}

/// A run of the clustering: each point starts alone, the closest two clusters
/// are joined at each step, and the run ends as soon as the partition is settled.
pub open spec fn history(
    d: DistanceMatrix,
    num_clusters: Option<usize>,
    threshold: Measure,
    h: Seq<Seq<usize>>,
) -> bool {
    &&& h.len() > 0
    &&& h[0] == singletons(d.len())
    &&& forall|t: int|
        0 <= t < h.len() - 1 ==> !settled(d, num_clusters, threshold, #[trigger] h[t])
            && merge_step(d, h[t], h[t + 1])
    &&& settled(d, num_clusters, threshold, h.last())
}

/// Point `a` is the first of its cluster.
pub open spec fn first_use(labels: Seq<usize>, a: int) -> bool {
    !labels.take(a).contains(labels[a])
}

/// `out` names the clusters of `labels` by 0, 1, 2 and so on, in the order in
/// which they first occur.
pub open spec fn renumbered(labels: Seq<usize>, out: Seq<usize>) -> bool {
    &&& out.len() == labels.len()
    &&& forall|a: int, b: int|
        0 <= a < out.len() && 0 <= b < out.len() ==> ((#[trigger] out[a] == #[trigger] out[b])
            <==> labels[a] == labels[b])
    &&& forall|a: int|
        0 <= a < out.len() && first_use(labels, a) ==> #[trigger] out[a] == clusters(
            labels.take(a),
        )
}

/// `out` is the outcome of the clustering.
pub open spec fn clustering(
    d: DistanceMatrix,
    num_clusters: Option<usize>,
    threshold: Measure,
    out: Seq<usize>,
) -> bool {
    exists|h: Seq<Seq<usize>>| #[trigger]
        history(d, num_clusters, threshold, h) && renumbered(h.last(), out)
}

/// What holds of every partition of a run: a cluster has the name of one of
/// its points, which is none after its own points.
pub open spec fn well_named(labels: Seq<usize>) -> bool {
    forall|a: int|
        0 <= a < labels.len() ==> (#[trigger] labels[a]) <= a && labels[labels[a] as int]
            == labels[a]
}

/// In a partition with more than one cluster some two points are apart.
pub proof fn lemma_some_apart(labels: Seq<usize>)
    requires
        clusters(labels) > 1,
    ensures
        exists|a: int, b: int| apart(labels, a, b),
{
    if !exists|a: int, b: int| apart(labels, a, b) {
        if labels.len() > 0 {
            assert forall|x: usize| labels.to_set().contains(x) implies x == labels[0] by {
                let i = choose|i: int| 0 <= i < labels.len() && labels[i] == x;
                assert(!apart(labels, 0, i) && !apart(labels, i, 0));
            }
            assert(labels.to_set() =~= set![labels[0]]);
        } else {
            assert(labels.to_set() =~= Set::<usize>::empty());
        }
    }
}

/// Joining two clusters leaves one cluster fewer, and well named.
pub proof fn lemma_merged(labels: Seq<usize>, a: int, b: int)
    requires
        apart(labels, a, b),
        well_named(labels),
    ensures
        clusters(merged(labels, labels[a], labels[b])) == clusters(labels) - 1,
        well_named(merged(labels, labels[a], labels[b])),
{
    let after = merged(labels, labels[a], labels[b]);
    vstd::seq_lib::seq_to_set_is_finite(labels);
    assert(after.to_set() =~= labels.to_set().remove(labels[b])) by {
        assert forall|x: usize| labels.to_set().remove(labels[b]).contains(x) implies after.to_set()
            .contains(x) by {
            let i = choose|i: int| 0 <= i < labels.len() && labels[i] == x;
            assert(after[i] == x);
        }
        assert forall|x: usize| after.to_set().contains(x) implies labels.to_set().remove(
            labels[b],
        ).contains(x) by {
            let i = choose|i: int| 0 <= i < after.len() && after[i] == x;
            assert(labels.contains(labels[i]));
            assert(labels.contains(labels[a]));
        }
    }
    assert(labels.contains(labels[b]));
    assert forall|c: int| 0 <= c < after.len() implies (#[trigger] after[c]) <= c
        && after[after[c] as int] == after[c] by {
        assert(labels[c] <= c && labels[labels[c] as int] == labels[c]);
        assert(labels[labels[a] as int] == labels[a]);
    }
}

/// The clusters of the partition where each point is alone are the points.
pub proof fn lemma_singletons(n: nat)
    requires
        n <= usize::MAX,
    ensures
        clusters(singletons(n)) == n,
        well_named(singletons(n)),
{
    let s = singletons(n);
    assert(s.no_duplicates());
    s.unique_seq_to_set();
}

/// The closest two points in different clusters.
fn closest_pair(d: &DistanceMatrix, cluster_of: &Vec<usize>) -> (r: (usize, usize))
    requires
        cluster_of@.len() == d.len(),
        clusters(cluster_of@) > 1,
    ensures
        closest(*d, cluster_of@, r.0 as int, r.1 as int),
{
    let n: usize = cluster_of.len();
    let mut best: Option<(usize, usize)> = None;
    for a in 0..n
        invariant
            n == cluster_of@.len() == d.len(),
            match best {
                Some((x, y)) => apart(cluster_of@, x as int, y as int) && forall|p: int, q: int|
                    p < a && #[trigger] apart(cluster_of@, p, q) ==> nearer(
                        *d,
                        cluster_of@,
                        x as int,
                        y as int,
                        p,
                        q,
                    ),
                None => forall|p: int, q: int| p < a ==> !#[trigger] apart(cluster_of@, p, q),
            },
    {
        for b in 0..n
            invariant
                a < n,
                n == cluster_of@.len() == d.len(),
                match best {
                    Some((x, y)) => apart(cluster_of@, x as int, y as int) && forall|p: int, q: int|
                        (p < a || (p == a && q < b)) && #[trigger] apart(cluster_of@, p, q)
                            ==> nearer(*d, cluster_of@, x as int, y as int, p, q),
                    None => forall|p: int, q: int|
                        (p < a || (p == a && q < b)) ==> !#[trigger] apart(cluster_of@, p, q),
                },
        {
            if cluster_of[a] < cluster_of[b] {
                assert(apart(cluster_of@, a as int, b as int));
                let better: bool = match best {
                    None => true,
                    Some((x, y)) => {
                        let mine: Measure = d.measured(a, b);
                        let other: Measure = d.measured(x, y);
                        mine.lt(&other) || (!other.lt(&mine) && (cluster_of[a] < cluster_of[x] || (
                        cluster_of[a] == cluster_of[x] && cluster_of[b] < cluster_of[y])))
                    },
                };
                if better {
                    best = Some((a, b));
                }
            }
        }
    }
    proof {
        lemma_some_apart(cluster_of@);
    }
    match best {
        Some(pair) => pair,
        None => (0, 0),
    }
}

/// Lets cluster `gone` join cluster `keep`.
fn merge(cluster_of: &mut Vec<usize>, keep: usize, gone: usize)
    ensures
        final(cluster_of)@ == merged(old(cluster_of)@, keep, gone),
{
    let n: usize = cluster_of.len();
    let mut c: usize = 0;
    while c < n
        invariant
            n == cluster_of@.len() == old(cluster_of)@.len(),
            c <= n,
            forall|i: int|
                0 <= i < c ==> #[trigger] cluster_of@[i] == merged(old(cluster_of)@, keep, gone)[i],
            forall|i: int| c <= i < n ==> #[trigger] cluster_of@[i] == old(cluster_of)@[i],
        decreases n - c,
    {
        if cluster_of[c] == gone {
            cluster_of.set(c, keep);
        }
        c = c + 1;
    }
    assert(cluster_of@ =~= merged(old(cluster_of)@, keep, gone));
}

/// Names the clusters 0, 1, 2 and so on, as they first occur.
fn renumber(cluster_of: &Vec<usize>) -> (out: Vec<usize>)
    ensures
        renumbered(cluster_of@, out@),
{
    let n: usize = cluster_of.len();
    let ghost labels = cluster_of@;
    let mut remap: HashMap<usize, usize> = HashMap::new();
    let mut next: usize = 0;
    let mut out: Vec<usize> = Vec::new();
    assert(labels.take(0).to_set() =~= Set::<usize>::empty());
    for i in 0..n
        invariant
            n == labels.len(),
            labels == cluster_of@,
            out@.len() == i,
            next == clusters(labels.take(i as int)),
            next <= i,
            forall|c: usize| #[trigger]
                remap@.dom().contains(c) <==> labels.take(i as int).contains(c),
            forall|b: int| 0 <= b < i ==> remap@[labels[b]] == #[trigger] out@[b],
            forall|b: int| 0 <= b < i ==> #[trigger] out@[b] < next,
            forall|a: int, b: int|
                0 <= a < i && 0 <= b < i ==> ((#[trigger] out@[a] == #[trigger] out@[b])
                    <==> labels[a] == labels[b]),
            forall|a: int|
                0 <= a < i && first_use(labels, a) ==> #[trigger] out@[a] == clusters(
                    labels.take(a),
                ),
    {
        let c: usize = cluster_of[i];
        proof {
            let before = labels.take(i as int);
            vstd::seq_lib::seq_to_set_is_finite(before);
            assert(labels.take(i + 1) =~= before.push(c));
            assert(labels.take(i + 1).to_set() =~= before.to_set().insert(c)) by {
                assert forall|x: usize| before.to_set().insert(c).contains(x) implies labels.take(
                    i + 1,
                ).to_set().contains(x) by {
                    if x == c {
                        assert(before.push(c)[i as int] == c);
                    } else {
                        let k = choose|k: int| 0 <= k < before.len() && before[k] == x;
                        assert(before.push(c)[k] == x);
                    }
                }
            }
            assert forall|b: int| 0 <= b < i implies before.contains(#[trigger] labels[b]) by {
                assert(before[b] == labels[b]);
            }
            assert forall|x: usize|
                labels.take(i + 1).contains(x) <==> (before.contains(x) || x == c) by {
                assert(labels.take(i + 1).to_set().contains(x) <==> before.to_set().insert(
                    c,
                ).contains(x));
            }
        }
        let known: Option<usize> = match remap.get(&c) {
            Some(l) => Some(*l),
            None => None,
        };
        let label: usize = match known {
            Some(l) => {
                proof {
                    let k = choose|k: int|
                        0 <= k < labels.take(i as int).len() && labels.take(i as int)[k] == c;
                    assert(labels[k] == c && out@[k] == l);
                    assert(labels.take(i as int).to_set().insert(c) =~= labels.take(
                        i as int,
                    ).to_set());
                }
                l
            },
            None => {
                let l: usize = next;
                next = next + 1;
                remap.insert(c, l);
                l
            },
        };
        out.push(label);
    }
    assert(labels.take(n as int) =~= labels);
    out
}

/// Clusters embeddings by single linkage.
///
/// With `num_clusters` given, clusters are joined until that many remain (one
/// at least); otherwise until the smallest distance between two of them
/// exceeds `threshold`. The result has one label per embedding.
pub fn agglomerative(
    d: &DistanceMatrix,
    num_clusters: Option<usize>,
    threshold: Measure,
) -> (out: Vec<usize>)
    ensures
        clustering(*d, num_clusters, threshold, out@),
{
    let n: usize = d.size();
    let mut cluster_of: Vec<usize> = Vec::new();
    for i in 0..n
        invariant
            cluster_of@.len() == i,
            forall|a: int| 0 <= a < i ==> #[trigger] cluster_of@[a] == a,
    {
        cluster_of.push(i);
    }
    assert(cluster_of@ =~= singletons(d.len()));
    let mut remaining: usize = n;
    let ghost mut h: Seq<Seq<usize>> = seq![cluster_of@];
    proof {
        lemma_singletons(d.len());
    }
    let mut done: bool = false;
    while !done
        invariant
            d.len() == cluster_of@.len(),
            remaining == clusters(cluster_of@),
            well_named(cluster_of@),
            h.len() > 0,
            h[0] == singletons(d.len()),
            h.last() == cluster_of@,
            forall|t: int|
                0 <= t < h.len() - 1 ==> !settled(*d, num_clusters, threshold, #[trigger] h[t])
                    && merge_step(*d, h[t], h[t + 1]),
            done ==> settled(*d, num_clusters, threshold, cluster_of@),
        decreases remaining, (if done { 0int } else { 1int }),
    {
        let enough: bool = match num_clusters {
            Some(k) => {
                let target: usize = if k == 0 {
                    1
                } else {
                    k
                };
                remaining <= target
            },
            None => false,
        };
        if enough || remaining <= 1 {
            done = true;
        } else {
            let (a, b): (usize, usize) = closest_pair(d, &cluster_of);
            let too_far: bool = match num_clusters {
                Some(_) => false,
                None => threshold.lt(&d.measured(a, b)),
            };
            if too_far {
                assert forall|p: int, q: int| #[trigger] apart(cluster_of@, p, q) implies exceeds(
                    d.gap(p, q),
                    threshold,
                ) by {
                    assert(nearer(*d, cluster_of@, a as int, b as int, p, q));
                }
                done = true;
            } else {
                assert(!settled(*d, num_clusters, threshold, cluster_of@)) by {
                    assert(apart(cluster_of@, a as int, b as int));
                }
                let keep: usize = cluster_of[a];
                let gone: usize = cluster_of[b];
                proof {
                    lemma_merged(cluster_of@, a as int, b as int);
                }
                let ghost before = cluster_of@;
                merge(&mut cluster_of, keep, gone);
                remaining = remaining - 1;
                proof {
                    assert(closest(*d, before, a as int, b as int));
                    assert(merge_step(*d, before, cluster_of@));
                    h = h.push(cluster_of@);
                }
            }
        }
    }
    assert(history(*d, num_clusters, threshold, h));
    renumber(&cluster_of)
}

} // verus!
