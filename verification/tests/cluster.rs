use meetings::cluster::{agglomerative, DistanceMatrix};
use meetings::cluster_laws::GREATEST_DISTANCE_BITS;
use meetings::diarizer::CLUSTER_THRESHOLD_BITS;
use meetings::measure::Measure;

fn m(x: f32) -> Measure {
    Measure { bits: x.to_bits() }
}

/// Distances of points on a line.
fn on_a_line(points: &[f32]) -> DistanceMatrix {
    let mut d = DistanceMatrix::new();
    for j in 0..points.len() {
        d.push((0..j).map(|i| m((points[i] - points[j]).abs())).collect());
    }
    d
}

fn random(seed: &mut u32) -> u32 {
    *seed = seed.wrapping_mul(1664525).wrapping_add(1013904223);
    *seed >> 8
}

/// Single linkage by searching all pairs of clusters, again and again.
fn by_exhaustive_search(dist: &Vec<Vec<f32>>, k: Option<usize>, threshold: f32) -> Vec<usize> {
    let n = dist.len();
    let mut of: Vec<usize> = (0..n).collect();
    let mut left = n;
    while left > 1 && !(k.is_some() && left <= k.unwrap().max(1)) {
        let mut best = (f32::INFINITY, 0, 0);
        for i in 0..n {
            for j in i + 1..n {
                for a in 0..n {
                    for b in 0..n {
                        if of[a] == i && of[b] == j && dist[a][b] < best.0 {
                            best = (dist[a][b], i, j);
                        }
                    }
                }
            }
        }
        if k.is_none() && best.0 > threshold {
            break;
        }
        for c in of.iter_mut() {
            if *c == best.2 {
                *c = best.1;
            }
        }
        left -= 1;
    }
    let mut seen: Vec<usize> = Vec::new();
    of.iter()
        .map(|c| match seen.iter().position(|s| s == c) {
            Some(at) => at,
            None => {
                seen.push(*c);
                seen.len() - 1
            }
        })
        .collect()
}

#[test]
fn no_embeddings_have_no_labels() {
    let d = DistanceMatrix::new();
    assert_eq!(d.size(), 0);
    assert_eq!(agglomerative(&d, None, m(0.7155)), Vec::<usize>::new());
    assert_eq!(agglomerative(&d, Some(3), m(0.7155)), Vec::<usize>::new());
}

#[test]
fn one_embedding_is_one_cluster() {
    assert_eq!(agglomerative(&on_a_line(&[4.0]), None, m(0.0)), vec![0]);
    assert_eq!(agglomerative(&on_a_line(&[4.0]), Some(5), m(0.0)), vec![0]);
}

#[test]
fn the_threshold_separates_groups() {
    let d = on_a_line(&[0.0, 5.0, 0.3, 5.4, 0.6, 9.0]);
    assert_eq!(agglomerative(&d, None, m(0.5)), vec![0, 1, 0, 1, 0, 2]);
    // A distance equal to the threshold does not exceed it.
    let e = on_a_line(&[0.0, 1.0, 3.0]);
    assert_eq!(agglomerative(&e, None, m(1.0)), vec![0, 0, 1]);
    assert_eq!(agglomerative(&e, None, m(2.0)), vec![0, 0, 0]);
    assert_eq!(agglomerative(&e, None, m(0.5)), vec![0, 1, 2]);
}

#[test]
fn chains_are_one_cluster() {
    // Single linkage: neighbours hold together what is far apart.
    let d = on_a_line(&[0.0, 1.0, 2.0, 3.0, 4.0]);
    assert_eq!(agglomerative(&d, None, m(1.0)), vec![0, 0, 0, 0, 0]);
}

#[test]
fn a_number_of_clusters_is_met_exactly() {
    let points = [0.0, 5.0, 0.3, 5.4, 0.6, 9.0];
    let d = on_a_line(&points);
    for k in 0..9usize {
        let labels = agglomerative(&d, Some(k), m(0.0));
        let clusters = labels.iter().max().unwrap() + 1;
        assert_eq!(clusters, k.max(1).min(points.len()));
    }
    assert_eq!(agglomerative(&d, Some(2), m(0.0)), vec![0, 1, 0, 1, 0, 1]);
    assert_eq!(agglomerative(&d, Some(0), m(0.0)), vec![0, 0, 0, 0, 0, 0]);
}

#[test]
fn a_number_of_clusters_is_met_without_numbers() {
    let mut d = DistanceMatrix::new();
    d.push(vec![]);
    d.push(vec![m(f32::NAN)]);
    d.push(vec![m(f32::NAN), m(f32::NAN)]);
    assert_eq!(agglomerative(&d, Some(2), m(0.7155)), vec![0, 0, 1]);
    assert_eq!(agglomerative(&d, Some(1), m(0.7155)), vec![0, 0, 0]);
    // Nothing is within a threshold of what is no number.
    assert_eq!(agglomerative(&d, None, m(0.7155)), vec![0, 1, 2]);
}

#[test]
fn ties_go_to_the_clusters_named_first() {
    let d = on_a_line(&[0.0, 1.0, 2.0, 3.0]);
    assert_eq!(agglomerative(&d, Some(3), m(0.0)), vec![0, 0, 1, 2]);
    assert_eq!(agglomerative(&d, Some(2), m(0.0)), vec![0, 0, 0, 1]);
}

#[test]
fn labels_follow_first_occurrence() {
    let d = on_a_line(&[7.0, 0.0, 7.1, 0.1, 3.0]);
    assert_eq!(agglomerative(&d, None, m(0.5)), vec![0, 1, 0, 1, 2]);
}

#[test]
fn clustering_agrees_with_exhaustive_search() {
    let mut seed: u32 = 7;
    for round in 0..120 {
        let n = 1 + (random(&mut seed) % 9) as usize;
        let mut dist = vec![vec![0.0f32; n]; n];
        let mut d = DistanceMatrix::new();
        for j in 0..n {
            let mut row = Vec::new();
            for i in 0..j {
                // Coarse distances, so that there are ties.
                let x = (random(&mut seed) % 12) as f32 / 8.0;
                dist[i][j] = x;
                dist[j][i] = x;
                row.push(m(x));
            }
            d.push(row);
        }
        let k = match round % 3 {
            0 => None,
            _ => Some((random(&mut seed) % 10) as usize),
        };
        assert_eq!(agglomerative(&d, k, m(0.7155)), by_exhaustive_search(&dist, k, 0.7155));
    }
}

#[test]
fn the_threshold_has_its_pattern() {
    assert_eq!(0.7155f32.to_bits(), CLUSTER_THRESHOLD_BITS);
}

#[test]
fn raising_the_threshold_only_joins_clusters() {
    let mut seed = 11;
    for _ in 0..30 {
        let points: Vec<f32> = (0..9).map(|_| (random(&mut seed) % 200) as f32 / 100.0).collect();
        let d = on_a_line(&points);
        let mut before = agglomerative(&d, None, m(-1.0));
        assert_eq!(before, (0..9).collect::<Vec<usize>>());
        for step in 0..41 {
            let after = agglomerative(&d, None, m(step as f32 * 0.05));
            for i in 0..9 {
                for j in 0..9 {
                    assert!(before[i] != before[j] || after[i] == after[j]);
                }
            }
            before = after;
        }
        // The last threshold is 2.
        assert_eq!(before, vec![0; 9]);
    }
    assert_eq!(2.0f32.to_bits(), GREATEST_DISTANCE_BITS);
}
