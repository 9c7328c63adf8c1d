use crate::ant::Ant;
use vstd::prelude::*;

verus! {

/// A closed tour and the sum of its weights.
pub struct Tour {
    pub path: Vec<usize>,
    pub length: u64,
}

/// A tour as nodes and length.
pub type TourView = (Seq<usize>, u64);

/// Of the best tour so far `a` and a candidate `b`, the one kept: `b` only
/// where it is strictly shorter, so that among equal lengths the first stays.
pub open spec fn better(a: Option<TourView>, b: Option<TourView>) -> Option<TourView> {
    match (a, b) {
        (_, None) => a,
        (None, Some(_)) => b,
        (Some(x), Some(y)) => if y.1 < x.1 {
            b
        } else {
            a
        },
    }
}

/// The tour kept after offering each of `s` in turn, from `init`.
pub open spec fn fold_best(init: Option<TourView>, s: Seq<Option<TourView>>) -> Option<TourView>
    decreases s.len(),
{
    if s.len() == 0 {
        init
    } else {
        better(fold_best(init, s.drop_last()), s.last())
    }
}

/// The length of a tour, if there is one.
pub open spec fn length_of(t: Option<TourView>) -> Option<u64> {
    match t {
        Some(x) => Some(x.1),
        None => None,
    }
}

/// What an ant offers: its tour, if it finished one without giving up.
pub open spec fn offered(ant: Ant, targets: Seq<usize>) -> Option<TourView> {
    if !ant.stuck() && ant.is_done(targets) {
        Some((ant.path_seq(), ant.length()))
    } else {
        None
    }
}

/// The shortest tour found so far over all ants and rounds.
pub struct BestTour {
    best: Option<Tour>,
}

impl BestTour {
    /// The tour kept, as nodes and length.
    pub closed spec fn current(&self) -> Option<TourView> {
        match self.best {
            Some(t) => Some((t.path@, t.length)),
            None => None,
        }
    }

    /// No tour yet.
    pub fn new() -> (r: BestTour)
        ensures
            r.current() is None,
    {
        BestTour { best: None }
    }

    /// Keeps the ant's tour where it finished one without giving up and it is
    /// strictly shorter than the tour kept (or none is kept).
    pub fn offer(&mut self, ant: &Ant, targets: &Vec<usize>)
        ensures
            final(self).current() == better(old(self).current(), offered(*ant, targets@)),
    {
        match ant.tour(targets) {
            None => {},
            Some(t) => {
                let shorter = match &self.best {
                    None => true,
                    Some(b) => t.length < b.length,
                };
                if shorter {
                    self.best = Some(t);
                }
            },
        }
    }

    /// The length of the tour kept, if any.
    pub fn length(&self) -> (r: Option<u64>)
        ensures
            r == length_of(self.current()),
    {
        match &self.best {
            Some(t) => Some(t.length),
            None => None,
        }
    }

    /// The tour kept, if any.
    pub fn into_tour(self) -> (r: Option<Tour>)
        ensures
            r matches Some(t) ==> self.current() == Some((t.path@, t.length)),
            r is None <==> self.current() is None,
    {
        self.best
    }
}

/// What the tour kept after offering `s` from `init` is: none only where
/// nothing was offered, and otherwise one of those offered whose length is at
/// most that of each one offered.
pub proof fn lemma_fold_best_is_min(init: Option<TourView>, s: Seq<Option<TourView>>)
    ensures
        fold_best(init, s) is None <==> init is None && forall|i: int| 0 <= i < s.len() ==> #[trigger] s[i] is None,
        fold_best(init, s) matches Some(x) ==> {
            &&& init == Some(x) || s.contains(Some(x))
            &&& init matches Some(y) ==> x.1 <= y.1
            &&& forall|i: int| 0 <= i < s.len() ==> (#[trigger] s[i] matches Some(y) ==> x.1 <= y.1)
        },
    decreases s.len(),
{
    if s.len() > 0 {
        let q = s.drop_last();
        lemma_fold_best_is_min(init, q);
        assert forall|i: int| 0 <= i < q.len() implies #[trigger] q[i] == s[i] by {}
        if let Some(x) = fold_best(init, s) {
            if s.last() == Some(x) {
                assert(s[s.len() - 1] == Some(x));
            } else if q.contains(Some(x)) {
                let k = choose|k: int| 0 <= k < q.len() && q[k] == Some(x);
                assert(s[k] == Some(x));
            }
            assert forall|i: int| 0 <= i < s.len() implies (#[trigger] s[i] matches Some(y) ==> x.1 <= y.1) by {
                if i < q.len() {
                    assert(q[i] == s[i]);
                    if let Some(y) = s[i] {
                        assert(fold_best(init, q) is Some);
                    }
                } else {
                    assert(s[i] == s.last());
                }
            }
        }
        if fold_best(init, s) is None {
            assert forall|i: int| 0 <= i < s.len() implies #[trigger] s[i] is None by {
                if i < q.len() {
                    assert(q[i] is None);
                }
            }
        }
    }
}

/// The length of the tour kept does not depend on the order in which the
/// same tours are offered: the ants of a round may report in any order.
pub proof fn lemma_best_length_order_free(
    init: Option<TourView>,
    s1: Seq<Option<TourView>>,
    s2: Seq<Option<TourView>>,
)
    requires
        s1.to_multiset() == s2.to_multiset(),
    ensures
        length_of(fold_best(init, s1)) == length_of(fold_best(init, s2)),
{
    lemma_fold_best_is_min(init, s1);
    lemma_fold_best_is_min(init, s2);
    broadcast use vstd::seq_lib::group_to_multiset_ensures;

    let f1 = fold_best(init, s1);
    let f2 = fold_best(init, s2);
    if f1 is None {
        assert forall|i: int| 0 <= i < s2.len() implies #[trigger] s2[i] is None by {
            assert(s2.contains(s2[i]));
            assert(s2.to_multiset().count(s2[i]) > 0);
            assert(s1.to_multiset().count(s2[i]) > 0);
            assert(s1.contains(s2[i]));
            let k = choose|k: int| 0 <= k < s1.len() && s1[k] == s2[i];
            assert(s1[k] is None);
        }
    } else if f2 is None {
        assert forall|i: int| 0 <= i < s1.len() implies #[trigger] s1[i] is None by {
            assert(s1.contains(s1[i]));
            assert(s1.to_multiset().count(s1[i]) > 0);
            assert(s2.to_multiset().count(s1[i]) > 0);
            assert(s2.contains(s1[i]));
            let k = choose|k: int| 0 <= k < s2.len() && s2[k] == s1[i];
            assert(s2[k] is None);
        }
    } else {
        let x1 = f1->Some_0;
        let x2 = f2->Some_0;
        if s1.contains(Some(x1)) {
            assert(s1.to_multiset().count(Some(x1)) > 0);
            assert(s2.to_multiset().count(Some(x1)) > 0);
            assert(s2.contains(Some(x1)));
            let k = choose|k: int| 0 <= k < s2.len() && s2[k] == Some(x1);
            assert(s2[k] matches Some(y) ==> x2.1 <= y.1);
        }
        if s2.contains(Some(x2)) {
            assert(s2.to_multiset().count(Some(x2)) > 0);
            assert(s1.to_multiset().count(Some(x2)) > 0);
            assert(s1.contains(Some(x2)));
            let k = choose|k: int| 0 <= k < s1.len() && s1[k] == Some(x2);
            assert(s1[k] matches Some(y) ==> x1.1 <= y.1);
        }
    }
}

} // verus!
