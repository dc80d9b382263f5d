use rand::rngs::StdRng;
use rand::Rng;
use vstd::prelude::*;

verus! {

/// rand's `StdRng`, the random source draws are made from; opaque here.
#[verifier::external_type_specification]
#[verifier::external_body]
pub struct ExStdRng(StdRng);

/// Relies on rand's `Rng::gen_range` over `0..n`: a value below `n`, which
/// must be positive (an empty range panics).
#[verifier::external_body]
fn draw_below(rng: &mut StdRng, n: u32) -> (r: u32)
    requires
        n > 0,
    ensures
        r < n,
{
    rng.gen_range(0..n)
}

/// How many times `k` occurs among the keys of `keys`, weighted by `counts`.
pub open spec fn count_in(keys: Seq<char>, counts: Seq<u32>, k: char) -> nat
    decreases keys.len(),
{
    if keys.len() == 0 {
        0
    } else {
        let i = keys.len() - 1;
        count_in(keys.drop_last(), counts.drop_last(), k) + if keys[i] == k {
            counts[i] as nat
        } else {
            0nat
        }
    }
}

/// The sum of all counts.
pub open spec fn sum_of(counts: Seq<u32>) -> nat
    decreases counts.len(),
{
    if counts.len() == 0 {
        0
    } else {
        sum_of(counts.drop_last()) + counts.last() as nat
    }
}

/// The key whose range of weight holds `index`, walking the entries in order.
pub open spec fn key_at(keys: Seq<char>, counts: Seq<u32>, index: int) -> char
    decreases keys.len(),
{
    if keys.len() == 0 {
        ' '
    } else if index < counts[0] {
        keys[0]
    } else {
        key_at(keys.drop_first(), counts.drop_first(), index - counts[0])
    }
}

/// A multiset of observed characters that can be drawn from in proportion to
/// how often each was observed.
pub struct FrequencyTable {
    pub keys: Vec<char>,
    pub counts: Vec<u32>,
    pub population: u32,
}

impl FrequencyTable {
    /// Keys are distinct, each count is positive, and the population is
    /// their sum.
    pub open spec fn wf(&self) -> bool {
        &&& self.keys@.len() == self.counts@.len()
        &&& forall|i: int, j: int|
            0 <= i < j < self.keys@.len() ==> self.keys@[i] != self.keys@[j]
        &&& forall|i: int| 0 <= i < self.counts@.len() ==> self.counts@[i] > 0
        &&& self.population as nat == sum_of(self.counts@)
    }

    /// How many times `k` has been observed.
    pub open spec fn count(&self, k: char) -> nat {
        count_in(self.keys@, self.counts@, k)
    }

    /// The number of observations made.
    pub open spec fn total(&self) -> nat {
        self.population as nat
    }

    /// The key that the draw of `index` in `[0, total)` selects.
    pub open spec fn selected(&self, index: int) -> char {
        key_at(self.keys@, self.counts@, index)
    }

    pub fn new() -> (r: FrequencyTable)
        ensures
            r.wf(),
            r.total() == 0,
            forall|k: char| r.count(k) == 0,
    {
        FrequencyTable { keys: Vec::new(), counts: Vec::new(), population: 0 }
    }

    /// Records one more observation of `key`.
    pub fn observe(&mut self, key: char)
        requires
            old(self).wf(),
            old(self).population < u32::MAX,
        ensures
            final(self).wf(),
            final(self).total() == old(self).total() + 1,
            final(self).count(key) == old(self).count(key) + 1,
            forall|k: char| k != key ==> final(self).count(k) == old(self).count(k),
    {
        let n = self.keys.len();
        let mut i: usize = 0;
        while i < n
            invariant
                n == self.keys@.len(),
                0 <= i <= n,
                forall|j: int| 0 <= j < i ==> self.keys@[j] != key,
            ensures
                0 <= i <= n,
                forall|j: int| 0 <= j < i ==> self.keys@[j] != key,
                i < n ==> self.keys@[i as int] == key,
            decreases n - i,
        {
            if self.keys[i] == key {
                break;
            }
            i = i + 1;
        }
        proof {
            lemma_bounded_entries(self.keys@, self.counts@);
        }
        if i < n {
            let c = self.counts[i];
            assert(c as nat <= sum_of(self.counts@));
            let ghost old_counts = self.counts@;
            self.counts.set(i, c + 1);
            proof {
                lemma_bump(self.keys@, old_counts, i as int);
            }
        } else {
            let ghost old_keys = self.keys@;
            let ghost old_counts = self.counts@;
            self.keys.push(key);
            self.counts.push(1);
            proof {
                assert(self.keys@.drop_last() == old_keys);
                assert(self.counts@.drop_last() == old_counts);
            }
        }
        self.population = self.population + 1;
    }

    /// The key whose share of the population holds `index`, walking the
    /// entries in their fixed order: the inverse of the cumulative counts.
    pub fn sample_at(&self, index: u32) -> (r: char)
        requires
            self.wf(),
            index < self.population,
        ensures
            r == self.selected(index as int),
            self.count(r) > 0,
    {
        let n = self.keys.len();
        let mut i: usize = 0;
        let mut rest: u32 = index;
        proof {
            assert(self.keys@.subrange(0, n as int) == self.keys@);
            assert(self.counts@.subrange(0, n as int) == self.counts@);
        }
        while i < n
            invariant
                self.wf(),
                n == self.keys@.len(),
                0 <= i <= n,
                rest < sum_of(self.counts@.subrange(i as int, n as int)),
                self.selected(index as int) == key_at(
                    self.keys@.subrange(i as int, n as int),
                    self.counts@.subrange(i as int, n as int),
                    rest as int,
                ),
            decreases n - i,
        {
            let ghost ks = self.keys@.subrange(i as int, n as int);
            let ghost cs = self.counts@.subrange(i as int, n as int);
            proof {
                lemma_sum_first(cs);
                assert(ks.drop_first() == self.keys@.subrange(i + 1, n as int));
                assert(cs.drop_first() == self.counts@.subrange(i + 1, n as int));
            }
            if rest < self.counts[i] {
                proof {
                    lemma_count_of_key(self.keys@, self.counts@, i as int);
                }
                return self.keys[i];
            }
            rest = rest - self.counts[i];
            i = i + 1;
        }
        proof {
            assert(false);
        }
        self.keys[0]
    }

    /// How many times `key` has been observed.
    pub fn count_of(&self, key: char) -> (r: u32)
        requires
            self.wf(),
        ensures
            r == self.count(key),
    {
        let n = self.keys.len();
        let mut i: usize = 0;
        while i < n
            invariant
                self.wf(),
                n == self.keys@.len(),
                0 <= i <= n,
                forall|j: int| 0 <= j < i ==> self.keys@[j] != key,
            decreases n - i,
        {
            if self.keys[i] == key {
                proof {
                    lemma_count_of_key(self.keys@, self.counts@, i as int);
                }
                return self.counts[i];
            }
            i = i + 1;
        }
        proof {
            lemma_count_absent(self.keys@, self.counts@, key);
        }
        0
    }

    /// Draws a key with probability proportional to its count.
    pub fn rand(&self, rng: &mut StdRng) -> (r: char)
        requires
            self.wf(),
            self.total() > 0,
        ensures
            exists|index: int| 0 <= index < self.total() && r == self.selected(index),
            self.count(r) > 0,
    {
        let index = draw_below(rng, self.population);
        self.sample_at(index)
    }
}

/// The population of a well-formed table is the sum of its counts, and the
/// count of each of its distinct keys is the one stored beside it: no
/// observation is lost or counted twice.
pub proof fn lemma_total_is_sum_of_counts(t: FrequencyTable)
    requires
        t.wf(),
    ensures
        t.total() == sum_of(t.counts@),
        forall|i: int| 0 <= i < t.keys@.len() ==> #[trigger] t.count(t.keys@[i]) == t.counts@[i],
{
    assert forall|i: int| 0 <= i < t.keys@.len() implies #[trigger] t.count(t.keys@[i]) == t.counts@[i] by {
        lemma_count_of_key(t.keys@, t.counts@, i);
    }
}

/// A table all of whose observations are of `k` selects `k` on every draw,
/// whatever index the random source hands it.
pub proof fn lemma_single_key_always_selected(t: FrequencyTable, k: char, index: int)
    requires
        t.wf(),
        t.count(k) == t.total(),
        0 <= index < t.total(),
    ensures
        t.selected(index) == k,
{
    lemma_all_keys_are(t.keys@, t.counts@, k);
    if t.keys@.len() > 1 {
        assert(t.keys@[0] != t.keys@[1]);
    }
    if t.keys@.len() == 0 {
        assert(sum_of(t.counts@) == 0);
    }
    assert(t.counts@.drop_last().len() == 0);
    assert(sum_of(t.counts@.drop_last()) == 0);
}

/// Where the count of `k` makes up the whole sum of positive counts, every
/// key is `k`.
proof fn lemma_all_keys_are(keys: Seq<char>, counts: Seq<u32>, k: char)
    requires
        keys.len() == counts.len(),
        forall|i: int| 0 <= i < counts.len() ==> counts[i] > 0,
        count_in(keys, counts, k) == sum_of(counts),
    ensures
        forall|i: int| 0 <= i < keys.len() ==> keys[i] == k,
    decreases keys.len(),
{
    if keys.len() > 0 {
        lemma_count_at_most_sum(keys.drop_last(), counts.drop_last(), k);
        lemma_all_keys_are(keys.drop_last(), counts.drop_last(), k);
        assert forall|i: int| 0 <= i < keys.len() implies keys[i] == k by {
            if i < keys.len() - 1 {
                assert(keys.drop_last()[i] == keys[i]);
            }
        }
    }
}

/// The count of any key is at most the sum of all counts.
proof fn lemma_count_at_most_sum(keys: Seq<char>, counts: Seq<u32>, k: char)
    requires
        keys.len() == counts.len(),
    ensures
        count_in(keys, counts, k) <= sum_of(counts),
    decreases keys.len(),
{
    if keys.len() > 0 {
        lemma_count_at_most_sum(keys.drop_last(), counts.drop_last(), k);
    }
}

/// The sum of a non-empty sequence is its first count plus the rest.
proof fn lemma_sum_first(counts: Seq<u32>)
    requires
        counts.len() > 0,
    ensures
        sum_of(counts) == counts[0] as nat + sum_of(counts.drop_first()),
    decreases counts.len(),
{
    if counts.len() > 1 {
        lemma_sum_first(counts.drop_last());
        assert(counts.drop_last().drop_first() == counts.drop_first().drop_last());
        assert(counts.drop_first().last() == counts.last());
        assert(counts.drop_last()[0] == counts[0]);
        assert(sum_of(counts.drop_first()) == sum_of(counts.drop_first().drop_last())
            + counts.drop_first().last() as nat);
    } else {
        assert(counts.drop_last().len() == 0);
        assert(counts.drop_first().len() == 0);
        assert(sum_of(counts.drop_last()) == 0);
        assert(sum_of(counts.drop_first()) == 0);
    }
}

/// With distinct keys, the count of the key at `i` is the count stored at `i`.
proof fn lemma_count_of_key(keys: Seq<char>, counts: Seq<u32>, i: int)
    requires
        keys.len() == counts.len(),
        0 <= i < keys.len(),
        forall|a: int, b: int| 0 <= a < b < keys.len() ==> keys[a] != keys[b],
    ensures
        count_in(keys, counts, keys[i]) == counts[i] as nat,
    decreases keys.len(),
{
    let last = keys.len() - 1;
    if i == last {
        lemma_count_absent(keys.drop_last(), counts.drop_last(), keys[i]);
    } else {
        assert(keys.drop_last()[i] == keys[i]);
        lemma_count_of_key(keys.drop_last(), counts.drop_last(), i);
    }
}

/// A key that does not occur has count zero.
proof fn lemma_count_absent(keys: Seq<char>, counts: Seq<u32>, k: char)
    requires
        keys.len() == counts.len(),
        forall|a: int| 0 <= a < keys.len() ==> keys[a] != k,
    ensures
        count_in(keys, counts, k) == 0,
    decreases keys.len(),
{
    if keys.len() > 0 {
        lemma_count_absent(keys.drop_last(), counts.drop_last(), k);
    }
}

/// Each count is at most the sum of all counts.
proof fn lemma_bounded_entries(keys: Seq<char>, counts: Seq<u32>)
    ensures
        forall|i: int| 0 <= i < counts.len() ==> counts[i] as nat <= sum_of(counts),
    decreases counts.len(),
{
    if counts.len() > 0 {
        lemma_bounded_entries(keys, counts.drop_last());
        assert forall|i: int| 0 <= i < counts.len() implies counts[i] as nat <= sum_of(counts) by {
            if i < counts.len() - 1 {
                assert(counts.drop_last()[i] == counts[i]);
            }
        }
    }
}

/// Adding one to the count at `i` adds one to the sum and to the count of
/// that entry's key, and to no other key's count.
proof fn lemma_bump(keys: Seq<char>, counts: Seq<u32>, i: int)
    requires
        keys.len() == counts.len(),
        0 <= i < counts.len(),
        counts[i] < u32::MAX,
        forall|a: int, b: int| 0 <= a < b < keys.len() ==> keys[a] != keys[b],
    ensures
        sum_of(counts.update(i, (counts[i] + 1) as u32)) == sum_of(counts) + 1,
        count_in(keys, counts.update(i, (counts[i] + 1) as u32), keys[i])
            == count_in(keys, counts, keys[i]) + 1,
        forall|k: char|
            k != keys[i] ==> count_in(keys, counts.update(i, (counts[i] + 1) as u32), k)
                == count_in(keys, counts, k),
    decreases counts.len(),
{
    let up = counts.update(i, (counts[i] + 1) as u32);
    let last = counts.len() - 1;
    assert(keys.drop_last().len() == up.drop_last().len());
    if i == last {
        assert(up.drop_last() == counts.drop_last());
        assert forall|k: char| k != keys[i] implies count_in(keys, up, k) == count_in(keys, counts, k) by {
            assert(count_in(keys, up, k) == count_in(keys.drop_last(), up.drop_last(), k));
            assert(count_in(keys, counts, k) == count_in(keys.drop_last(), counts.drop_last(), k));
        }
    } else {
        assert(up.drop_last() == counts.drop_last().update(i, (counts[i] + 1) as u32));
        assert(keys.drop_last()[i] == keys[i]);
        lemma_bump(keys.drop_last(), counts.drop_last(), i);
        assert(keys[last] != keys[i]);
        assert(up[last] == counts[last]);
        assert forall|k: char| k != keys[i] implies count_in(keys, up, k) == count_in(keys, counts, k) by {
            assert(count_in(keys.drop_last(), up.drop_last(), k) == count_in(keys.drop_last(), counts.drop_last(), k));
        }
    }
}

} // verus!
