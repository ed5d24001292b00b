//! Collections of samples, each with a key, from which statistics are computed.

use vstd::multiset::Multiset;
use vstd::prelude::*;

verus! {

broadcast use vstd::multiset::group_multiset_axioms;

/// A collection of samples with an associated key.
pub trait Metrics<K> {
    /// The values of the samples, in the order in which they were added.
    spec fn sample_values(&self) -> Seq<u64>;

    /// Adds a new sample to the collection.
    fn add_sample(&mut self, key: K, value: u64)
        ensures
            final(self).sample_values() == old(self).sample_values().push(value);

    /// Returns `true` if the collection contains no samples.
    fn is_empty(&self) -> (res: bool)
        ensures
            res == (self.sample_values().len() == 0);

    /// Returns the number of samples.
    fn count(&self) -> (n: usize)
        ensures
            n == self.sample_values().len();
}

/// Metrics that store every sample and compute statistics on demand.
pub struct OfflineMetrics<K> {
    data: Vec<(K, u64)>,
}

/// Whether the values of a list of samples are in non-decreasing order.
pub open spec fn sorted_by_value<K>(s: Seq<(K, u64)>) -> bool {
    forall|i: int, j: int| 0 <= i <= j < s.len() ==> #[trigger] s[i].1 <= #[trigger] s[j].1
}

impl<K> OfflineMetrics<K> {
    /// The samples.
    pub closed spec fn samples(&self) -> Seq<(K, u64)> {
        self.data@
    }

    /// Creates a new, empty `OfflineMetrics`.
    pub fn new() -> (m: Self)
        ensures
            m.samples().len() == 0,
            m.sample_values().len() == 0,
    {
        let m = OfflineMetrics { data: Vec::new() };
        assert(m.sample_values() =~= Seq::<u64>::empty());
        m
    }

    /// The values of the samples are those of `samples`, in the same order.
    pub proof fn lemma_sample_values(&self)
        ensures
            self.sample_values() == self.samples().map_values(|s: (K, u64)| s.1),
            self.sample_values().len() == self.samples().len(),
    {
    }

    /// Sorts the samples by value and returns those at the 5%, 25%, 50%, 75% and 95% positions
    /// (positions `n / 20`, `n / 4`, `n / 2`, `3n / 4` and `19n / 20` of the `n` samples).
    pub fn quartiles(&mut self) -> (q: [&(K, u64); 5])
        requires
            old(self).samples().len() > 0,
            old(self).samples().len() * 19 <= usize::MAX,
        ensures
            final(self).samples().to_multiset() == old(self).samples().to_multiset(),
            sorted_by_value(final(self).samples()),
            ({
                let s = final(self).samples();
                let n = s.len() as int;
                *q[0] == s[n / 20] && *q[1] == s[n / 4] && *q[2] == s[n / 2] && *q[3] == s[(n * 3) / 4]
                    && *q[4] == s[(n * 19) / 20]
            }),
    {
        let n = self.data.len();
        let mut sorted: Vec<(K, u64)> = Vec::new();
        let ghost orig = self.data@;
        proof {
            sorted@.to_multiset_ensures();
            assert(sorted@.to_multiset() =~= Multiset::empty());
            assert(Multiset::<(K, u64)>::empty().add(orig.to_multiset()) =~= orig.to_multiset());
        }
        while self.data.len() > 0
            invariant
                sorted_by_value(sorted@),
                sorted@.len() + self.data@.len() == n,
                n == orig.len(),
                sorted@.to_multiset().add(self.data@.to_multiset()) == orig.to_multiset(),
            decreases self.data@.len(),
        {
            let ghost before = self.data@;
            let x = self.data.pop().unwrap();
            proof {
                assert(before == self.data@.push(x));
            }
            let mut j = sorted.len();
            while j > 0 && sorted[j - 1].1 > x.1
                invariant
                    j <= sorted@.len(),
                    forall|k: int| j <= k < sorted@.len() ==> sorted@[k].1 > x.1,
                decreases j,
            {
                j = j - 1;
            }
            let ghost old_sorted = sorted@;
            sorted.insert(j, x);
            proof {
                assert(sorted@ == old_sorted.insert(j as int, x));
                vstd::seq_lib::to_multiset_insert(old_sorted, j as int, x);
                vstd::seq_lib::to_multiset_build(self.data@, x);
                assert(sorted@.to_multiset() == old_sorted.to_multiset().insert(x));
                assert(before.to_multiset() == self.data@.to_multiset().insert(x));
                assert(sorted@.to_multiset().add(self.data@.to_multiset()) =~= old_sorted.to_multiset().add(before.to_multiset()));
                assert forall|a: int, b: int| 0 <= a <= b < sorted@.len() implies #[trigger] sorted@[a].1 <= #[trigger] sorted@[b].1 by {
                    if b < j {
                    } else if b == j {
                        if a < j {
                            assert(old_sorted[a].1 <= old_sorted[j - 1].1);
                        }
                    } else if a < j {
                        assert(old_sorted[a].1 <= old_sorted[b - 1].1);
                    } else if a == j {
                        assert(old_sorted[b - 1].1 > x.1);
                    } else {
                        assert(old_sorted[a - 1].1 <= old_sorted[b - 1].1);
                    }
                }
            }
        }
        proof {
            self.data@.to_multiset_ensures();
            assert(self.data@.to_multiset() =~= Multiset::empty());
            assert(sorted@.to_multiset().add(Multiset::empty()) =~= sorted@.to_multiset());
        }
        self.data = sorted;
        let data = &self.data;
        [&data[n / 20], &data[n / 4], &data[n / 2], &data[(n * 3) / 4], &data[(n * 19) / 20]]
    }
}

impl<K> Metrics<K> for OfflineMetrics<K> {
    closed spec fn sample_values(&self) -> Seq<u64> {
        self.data@.map_values(|s: (K, u64)| s.1)
    }

    fn add_sample(&mut self, key: K, value: u64) {
        self.data.push((key, value));
        assert(self.data@.map_values(|s: (K, u64)| s.1) =~= old(self).data@.map_values(|s: (K, u64)| s.1).push(value));
    }

    fn is_empty(&self) -> (res: bool) {
        self.data.len() == 0
    }

    fn count(&self) -> (n: usize) {
        self.data.len()
    }
}

} // verus!
