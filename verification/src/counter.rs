use vstd::prelude::*;

use vstd::std_specs::cmp::PartialEqSpec;

verus! {

/// The largest value in `s`, or 0 for an empty sequence.
pub open spec fn seq_max_u32(s: Seq<u32>) -> int
    decreases s.len(),
{
    if s.len() == 0 {
        0
    } else {
        let m = seq_max_u32(s.drop_last());
        if s.last() as int >= m {
            s.last() as int
        } else {
            m
        }
    }
}

/// The keys of `keys` whose paired count equals `m`, in order.
pub open spec fn keys_with_count<K>(keys: Seq<K>, counts: Seq<u32>, m: int) -> Seq<K>
    decreases keys.len(),
{
    if keys.len() == 0 || counts.len() < keys.len() {
        Seq::empty()
    } else {
        let init = keys_with_count(keys.drop_last(), counts.take(keys.len() - 1), m);
        if counts[keys.len() - 1] as int == m {
            init.push(keys.last())
        } else {
            init
        }
    }
}

/// Whether `j` is the first position of `keys` whose element equals `k`
/// under `K`'s equality.
pub open spec fn first_eq_at<K: PartialEq>(keys: Seq<K>, k: K, j: int) -> bool {
    &&& 0 <= j < keys.len()
    &&& keys[j].eq_spec(&k)
    &&& forall|l: int| 0 <= l < j ==> !(#[trigger] keys[l].eq_spec(&k))
}

/// Counts how often each key has been added. Keys are compared with `==`;
/// a count saturates instead of overflowing.
pub struct Counter<K> {
    keys: Vec<K>,
    counts: Vec<u32>,
}

impl<K: PartialEq> Counter<K> {
    /// The distinct keys seen so far, in first-seen order.
    pub closed spec fn keys(&self) -> Seq<K> {
        self.keys@
    }

    /// The count paired with each key.
    pub closed spec fn counts(&self) -> Seq<u32> {
        self.counts@
    }

    pub open spec fn wf(&self) -> bool {
        self.keys().len() == self.counts().len()
    }

    pub fn new() -> (r: Counter<K>)
        ensures
            r.wf(),
            r.keys() == Seq::<K>::empty(),
            r.counts() == Seq::<u32>::empty(),
    {
        Counter { keys: Vec::new(), counts: Vec::new() }
    }

    /// Adds one occurrence of `key`: bumps the count of the first key equal
    /// to it, or appends it with count 1.
    pub fn add(&mut self, key: K)
        requires
            old(self).wf(),
        ensures
            final(self).wf(),
            K::obeys_eq_spec() ==> if exists|j: int| first_eq_at(old(self).keys(), key, j) {
                exists|j: int|
                    {
                        &&& first_eq_at(old(self).keys(), key, j)
                        &&& final(self).keys() == old(self).keys()
                        &&& final(self).counts() == old(self).counts().update(
                            j,
                            if old(self).counts()[j] < u32::MAX {
                                (old(self).counts()[j] + 1) as u32
                            } else {
                                u32::MAX
                            },
                        )
                    }
            } else {
                &&& final(self).keys() == old(self).keys().push(key)
                &&& final(self).counts() == old(self).counts().push(1u32)
            },
    {
        let n = self.keys.len();
        let mut j: usize = 0;
        while j < n
            invariant
                self == old(self),
                n == old(self).keys().len(),
                j <= n,
                old(self).wf(),
                K::obeys_eq_spec() ==> forall|l: int|
                    0 <= l < j ==> !(#[trigger] old(self).keys()[l].eq_spec(&key)),
            decreases n - j,
        {
            if self.keys[j] == key {
                let c = self.counts[j];
                self.counts[j] = if c < u32::MAX {
                    c + 1
                } else {
                    c
                };
                proof {
                    if K::obeys_eq_spec() {
                        assert(first_eq_at(old(self).keys(), key, j as int));
                    }
                }
                return ;
            }
            j += 1;
        }
        self.keys.push(key);
        self.counts.push(1);
    }

    /// The keys tied at the highest count, in first-seen order; empty only
    /// for an empty counter.
    pub fn most_common<'a>(&'a self) -> (r: Vec<&'a K>)
        requires
            self.wf(),
        ensures
            r@.len() == keys_with_count(
                self.keys(),
                self.counts(),
                seq_max_u32(self.counts()),
            ).len(),
            forall|i: int|
                0 <= i < r@.len() ==> *r@[i] == keys_with_count(
                    self.keys(),
                    self.counts(),
                    seq_max_u32(self.counts()),
                )[i],
            r@.len() == 0 <==> self.keys().len() == 0,
    {
        let n = self.counts.len();
        let mut maxc: u32 = 0;
        let mut j: usize = 0;
        while j < n
            invariant
                n == self.counts().len(),
                j <= n,
                maxc as int == seq_max_u32(self.counts().take(j as int)),
            decreases n - j,
        {
            proof {
                assert(self.counts().take(j as int + 1).drop_last() =~= self.counts().take(
                    j as int,
                ));
            }
            let c = self.counts[j];
            if c > maxc {
                maxc = c;
            }
            j += 1;
        }
        proof {
            assert(self.counts().take(n as int) =~= self.counts());
        }
        let ghost m = seq_max_u32(self.counts());
        let mut mc: Vec<&K> = Vec::new();
        let mut k: usize = 0;
        while k < n
            invariant
                n == self.counts().len(),
                self.wf(),
                k <= n,
                maxc as int == m,
                mc@.len() == keys_with_count(
                    self.keys().take(k as int),
                    self.counts().take(k as int),
                    m,
                ).len(),
                forall|i: int|
                    0 <= i < mc@.len() ==> *mc@[i] == keys_with_count(
                        self.keys().take(k as int),
                        self.counts().take(k as int),
                        m,
                    )[i],
            decreases n - k,
        {
            proof {
                assert(self.keys().take(k as int + 1).drop_last() =~= self.keys().take(k as int));
                assert(self.counts().take(k as int + 1).take(k as int) =~= self.counts().take(
                    k as int,
                ));
                assert(self.keys().take(k as int + 1).last() == self.keys()[k as int]);
                assert(self.counts().take(k as int + 1)[k as int] == self.counts()[k as int]);
            }
            if self.counts[k] == maxc {
                mc.push(&self.keys[k]);
            }
            k += 1;
        }
        proof {
            assert(self.keys().take(n as int) =~= self.keys());
            assert(self.counts().take(n as int) =~= self.counts());
            if self.keys().len() > 0 {
                lemma_max_attained(self.keys(), self.counts(), m);
            }
        }
        mc
    }
}

/// The highest count occurs in every non-empty counter, so some key is
/// always tied at the maximum.
proof fn lemma_max_attained<K>(keys: Seq<K>, counts: Seq<u32>, m: int)
    requires
        keys.len() == counts.len(),
        keys.len() > 0,
        m == seq_max_u32(counts),
    ensures
        keys_with_count(keys, counts, m).len() > 0,
    decreases keys.len(),
{
    if counts.last() as int == m {
    } else {
        assert(m == seq_max_u32(counts.drop_last()));
        assert(keys.len() > 1) by {
            if keys.len() == 1 {
                assert(counts.drop_last().len() == 0);
            }
        }
        assert(counts.drop_last() =~= counts.take(keys.len() - 1));
        lemma_max_attained(keys.drop_last(), counts.take(keys.len() - 1), m);
    }
}

} // verus!
