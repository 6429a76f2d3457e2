//! What the segmentation model tells of a window: which of three local
//! speakers talk, at most two at a time; and how the local speakers of a
//! window are matched to the speaker channels of the recording.

use crate::measure::{Measure, NEG_INFINITY_BITS};
use vstd::prelude::*;

verus! {

/// Local speakers of a window, and speaker channels of a recording.
pub const MAX_LOCAL_SPEAKERS: usize = 3;

/// Classes that the segmentation model tells apart.
pub const POWERSET_CLASSES: usize = 7;

/// Activity below one hundredth takes no part in matching speakers.
pub const MIN_ACTIVITY_BITS: u32 = 0x3C23_D70A;

/// The local speakers that talk in a class: none, one, or two of them.
pub open spec fn members(class: int) -> Seq<usize> {
    if class == 1 {
        seq![0usize]
    } else if class == 2 {
        seq![1usize]
    } else if class == 3 {
        seq![2usize]
    } else if class == 4 {
        seq![0usize, 1usize]
    } else if class == 5 {
        seq![0usize, 2usize]
    } else if class == 6 {
        seq![1usize, 2usize]
    } else {
        Seq::empty()
    }
}

/// The local speakers that talk in a class.
pub fn powerset_members(class: usize) -> (r: Vec<usize>)
    requires
        class < POWERSET_CLASSES,
    ensures
        r@ == members(class as int),
{
    let mut r: Vec<usize> = Vec::new();
    if class == 1 || class == 4 || class == 5 {
        r.push(0);
    }
    if class == 2 || class == 4 || class == 6 {
        r.push(1);
    }
    if class == 3 || class == 5 || class == 6 {
        r.push(2);
    }
    assert(r@ =~= members(class as int));
    r
}

/// The classes are exactly the sets of at most two of the three speakers:
/// each class is one, and each is the class of one number.
pub proof fn law_classes_are_small_speaker_sets(speakers: Set<usize>)
    requires
        speakers.finite(),
        speakers.len() <= 2,
        forall|s: usize| #[trigger] speakers.contains(s) ==> s < MAX_LOCAL_SPEAKERS,
    ensures
        exists|class: int|
            0 <= class < POWERSET_CLASSES && #[trigger] members(class).to_set() == speakers,
        forall|a: int, b: int|
            0 <= a < POWERSET_CLASSES && 0 <= b < POWERSET_CLASSES && #[trigger] members(a).to_set()
                == #[trigger] members(b).to_set() ==> a == b,
        forall|a: int| #[trigger] members(a).len() <= 2,
{
    let has0 = speakers.contains(0usize);
    let has1 = speakers.contains(1usize);
    let has2 = speakers.contains(2usize);
    if has0 && has1 && has2 {
        let rest = speakers.remove(0usize).remove(1usize);
        assert(rest.contains(2usize));
        assert(rest.len() == speakers.len() - 2);
        assert(rest =~= Set::<usize>::empty());
    }
    let class: int = if has0 && has1 {
        4
    } else if has0 && has2 {
        5
    } else if has1 && has2 {
        6
    } else if has0 {
        1
    } else if has1 {
        2
    } else if has2 {
        3
    } else {
        0
    };
    assert forall|c: int, s: usize| #[trigger] members(c).to_set().contains(s) <==> ((s == 0 && (c == 1 || c
        == 4 || c == 5)) || (s == 1 && (c == 2 || c == 4 || c == 6)) || (s == 2 && (c == 3 || c == 5
        || c == 6))) by {
        let m = members(c);
        if m.len() > 0 {
            assert(m.contains(m[0]));
        }
        if m.len() > 1 {
            assert(m.contains(m[1]));
        }
    }
    assert(members(class).to_set() =~= speakers);
    assert forall|a: int, b: int|
        0 <= a < POWERSET_CLASSES && 0 <= b < POWERSET_CLASSES && #[trigger] members(a).to_set()
            == #[trigger] members(b).to_set() implies a == b by {
        let sa = members(a).to_set();
        let sb = members(b).to_set();
        assert(sa.contains(0usize) == sb.contains(0usize));
        assert(sa.contains(1usize) == sb.contains(1usize));
        assert(sa.contains(2usize) == sb.contains(2usize));
    }
}

/// Whether an activity is high enough to take part in matching speakers.
pub fn takes_part(activity: Measure) -> (r: bool)
    ensures
        r == !activity.less(Measure { bits: MIN_ACTIVITY_BITS }),
{
    !activity.lt(&Measure { bits: MIN_ACTIVITY_BITS })
}

/// How many ways there are to match three speakers to three channels.
pub const PERMUTATIONS: usize = 6;

/// One way to match: local speaker `l` goes to channel `matching(p)[l]`.
pub open spec fn matching(p: int) -> Seq<usize> {
    if p == 1 {
        seq![0usize, 2usize, 1usize]
    } else if p == 2 {
        seq![1usize, 0usize, 2usize]
    } else if p == 3 {
        seq![1usize, 2usize, 0usize]
    } else if p == 4 {
        seq![2usize, 0usize, 1usize]
    } else if p == 5 {
        seq![2usize, 1usize, 0usize]
    } else {
        seq![0usize, 1usize, 2usize]
    }
}

/// One way to match local speakers to channels.
pub fn permutation(p: usize) -> (r: [usize; 3])
    requires
        p < PERMUTATIONS,
    ensures
        r@ == matching(p as int),
{
    let r: [usize; 3] = if p == 0 {
        [0, 1, 2]
    } else if p == 1 {
        [0, 2, 1]
    } else if p == 2 {
        [1, 0, 2]
    } else if p == 3 {
        [1, 2, 0]
    } else if p == 4 {
        [2, 0, 1]
    } else {
        [2, 1, 0]
    };
    assert(r@ =~= matching(p as int));
    r
}

/// A score counts where it is a number above negative infinity.
pub open spec fn counts(score: Measure) -> bool {
    (Measure { bits: NEG_INFINITY_BITS }).less(score)
}

/// Score `p` is the first of the highest scores that count.
pub open spec fn highest(scores: Seq<Measure>, p: int) -> bool {
    &&& 0 <= p < scores.len()
    &&& counts(scores[p])
    &&& forall|q: int| 0 <= q < scores.len() ==> !scores[p].less(#[trigger] scores[q])
    &&& forall|q: int| 0 <= q < p && counts(#[trigger] scores[q]) ==> scores[q].less(scores[p])
}

/// The way to match local speakers to channels that has the highest score,
/// the first of these where several have it; speakers keep their order where
/// no score counts. `scores[p]` is the score of `permutation(p)`.
pub fn best_permutation(scores: &[Measure; 6]) -> (r: [usize; 3])
    ensures
        (forall|p: int| 0 <= p < PERMUTATIONS ==> !counts(#[trigger] scores@[p])) ==> r@ == matching(
            0,
        ),
        forall|p: int| #[trigger] highest(scores@, p) ==> r@ == matching(p),
        (exists|p: int| 0 <= p < PERMUTATIONS && counts(#[trigger] scores@[p])) ==> exists|p: int|
            highest(scores@, p),
{
    let mut best: usize = 0;
    let mut best_score: Measure = Measure { bits: NEG_INFINITY_BITS };
    for p in 0..PERMUTATIONS
        invariant
            best < PERMUTATIONS,
            scores@.len() == PERMUTATIONS,
            !best_score.nan(),
            forall|q: int| 0 <= q < p ==> !best_score.less(#[trigger] scores@[q]),
            ({
                ||| best_score.bits == NEG_INFINITY_BITS && best == 0
                ||| best < p && best_score == scores@[best as int] && counts(best_score) && forall|
                    q: int,
                |
                    0 <= q < best && counts(#[trigger] scores@[q]) ==> scores@[q].less(best_score)
            }),
    {
        let s: Measure = scores[p];
        if s.gt(&best_score) {
            proof {
                assert forall|q: int| 0 <= q < p && counts(#[trigger] scores@[q]) implies scores@[q].less(
                    s,
                ) by {
                    assert(!best_score.less(scores@[q]));
                }
                crate::measure::law_infinities_bound_the_numbers(best_score, best_score);
            }
            best_score = s;
            best = p;
        }
    }
    proof {
        if best_score.bits == NEG_INFINITY_BITS {
            assert forall|p: int| 0 <= p < PERMUTATIONS implies !counts(#[trigger] scores@[p]) by {}
            assert forall|p: int| #[trigger] highest(scores@, p) implies false by {
                assert(counts(scores@[p]));
            }
        } else {
            assert(highest(scores@, best as int));
            assert forall|p: int| #[trigger] highest(scores@, p) implies p == best by {
                if p < best {
                    assert(scores@[p].less(scores@[best as int]));
                } else if best < p {
                    assert(scores@[best as int].less(scores@[p]));
                }
            }
            assert(counts(scores@[best as int]));
        }
    }
    permutation(best)
}

/// A matching sends the three speakers to the three channels, no two to one.
pub proof fn law_matchings_are_permutations(p: int, l: int, m: int)
    requires
        0 <= l < MAX_LOCAL_SPEAKERS,
        0 <= m < MAX_LOCAL_SPEAKERS,
        l != m,
    ensures
        matching(p).len() == MAX_LOCAL_SPEAKERS,
        matching(p)[l] < MAX_LOCAL_SPEAKERS,
        matching(p)[l] != matching(p)[m],
{
}

/// The first class has nobody, the next three each of the speakers, the last
/// three each two of them, in order, by the sum of their numbers.
pub proof fn law_classes_are_in_order(class: int)
    requires
        0 <= class < 7,
    ensures
        class == 0 ==> members(class).len() == 0,
        1 <= class <= 3 ==> members(class).len() == 1 && members(class)[0] == class - 1,
        4 <= class ==> members(class).len() == 2 && members(class)[0] < members(class)[1] < 3
            && members(class)[0] + members(class)[1] == class - 3,
{
}

/// The matchings are all different, and in lexicographic order.
pub proof fn law_matchings_are_in_order(p: int, q: int)
    requires
        0 <= p < q < 6,
    ensures
        matching(p)[0] < matching(q)[0] || (matching(p)[0] == matching(q)[0] && matching(p)[1]
            < matching(q)[1]),
{
}

/// The matching with the highest score has one that is a number above negative
/// infinity; no score is above it, and every earlier one that is a number is
/// below it. There is such a score wherever any is a number above negative
/// infinity.
pub proof fn law_highest_scores(scores: Seq<Measure>, p: int, q: int)
    requires
        0 <= q < scores.len(),
    ensures
        highest(scores, p) ==> 0 <= p < scores.len() && !scores[p].nan() && scores[p].bits
            != 0xFF80_0000 && !scores[p].less(scores[q]) && (q < p ==> scores[q].nan()
            || scores[q].less(scores[p])),
        !scores[q].nan() && scores[q].bits != 0xFF80_0000 ==> exists|m: int| highest(scores, m),
        counts(scores[q]) <==> !scores[q].nan() && scores[q].bits != 0xFF80_0000,
{
    let least = Measure { bits: NEG_INFINITY_BITS };
    assert forall|m: int| 0 <= m < scores.len() implies (counts(#[trigger] scores[m])
        <==> !scores[m].nan() && scores[m].bits != 0xFF80_0000) by {
        if !scores[m].nan() {
            crate::measure::law_infinities_bound_the_numbers(scores[m], least);
        }
    }
    if highest(scores, p) && q < p && !scores[q].nan() && !counts(scores[q]) {
        crate::measure::law_infinities_bound_the_numbers(scores[p], scores[q]);
        assert(counts(scores[p]));
    }
    if counts(scores[q]) {
        let m = lemma_highest_so_far(scores, scores.len() as int, q);
        assert(highest(scores, m));
    }
}

proof fn lemma_highest_so_far(scores: Seq<Measure>, n: int, q: int) -> (m: int)
    requires
        0 <= q < n <= scores.len(),
        counts(scores[q]),
    ensures
        0 <= m < n,
        counts(scores[m]),
        forall|k: int| 0 <= k < n ==> !scores[m].less(#[trigger] scores[k]),
        forall|k: int| 0 <= k < m && counts(#[trigger] scores[k]) ==> scores[k].less(scores[m]),
    decreases n,
{
    if q == n - 1 {
        if exists|k: int| 0 <= k < n - 1 && counts(#[trigger] scores[k]) {
            let k = choose|k: int| 0 <= k < n - 1 && counts(#[trigger] scores[k]);
            let m = lemma_highest_so_far(scores, n - 1, k);
            if scores[m].less(scores[n - 1]) {
                n - 1
            } else {
                m
            }
        } else {
            assert forall|k: int| 0 <= k < n implies !scores[n - 1].less(#[trigger] scores[k]) by {
                if k < n - 1 {
                    assert(!counts(scores[k]));
                }
            }
            n - 1
        }
    } else {
        let m = lemma_highest_so_far(scores, n - 1, q);
        if scores[m].less(scores[n - 1]) {
            n - 1
        } else {
            m
        }
    }
}

} // verus!
