use vstd::prelude::*;

verus! {

/// The number of unordered pairs of distinct elements drawn from a set of
/// `n` elements: `tri(n) == 0 + 1 + ... + (n - 1) == n * (n - 1) / 2`.
pub open spec fn tri(n: nat) -> nat
    decreases n,
{
    if n == 0 {
        0
    } else {
        tri((n - 1) as nat) + (n - 1) as nat
    }
}

pub proof fn lemma_tri_mono(a: nat, b: nat)
    requires
        a <= b,
    ensures
        tri(a) <= tri(b),
    decreases b,
{
    if a < b {
        lemma_tri_mono(a, (b - 1) as nat);
    }
}

proof fn lemma_tri_double(n: nat)
    ensures
        2 * tri(n) == n * (n - 1),
    decreases n,
{
    if n > 0 {
        let m = (n - 1) as nat;
        lemma_tri_double(m);
        assert(tri(n) == tri(m) + m);
        assert(2 * tri(n) == m * (m - 1) + 2 * m);
        assert(m * (m - 1) + 2 * m == n * (n - 1)) by (nonlinear_arith)
            requires
                m == n - 1 && n >= 1,
        ;
    } else {
        assert(n * (n - 1) == 0) by (nonlinear_arith)
            requires
                n == 0,
        ;
    }
}

/// The triangular sum has the familiar closed form `n * (n - 1) / 2`.
pub proof fn lemma_tri_closed_form(n: nat)
    ensures
        tri(n) == n * (n - 1) / 2,
{
    lemma_tri_double(n);
}

/// One entry of the index: a key together with the dense offset of the first
/// pair in which this key is the smaller element.
#[derive(Debug)]
pub struct Value {
    offset: usize,
    value: u64,
}

#[derive(Debug, Clone, Copy, PartialEq, Eq, Structural)]
pub enum IndexError {
    SimilarKeys,
    MissingKey(u64),
}

#[derive(Debug)]
pub struct Index(Vec<Value>);

impl Index {
    /// The keys of the index, in storage order.
    pub closed spec fn keys(self) -> Seq<u64> {
        self.0@.map(|i: int, v: Value| v.value)
    }

    /// The base offset recorded for the entry at position `i`.
    pub closed spec fn off(self, i: int) -> int {
        self.0@[i].offset as int
    }

    /// Well-formedness: keys strictly increase with position, and the entry
    /// at position `i` carries the offset of the first pair whose smaller
    /// element it is, namely `tri(n) - tri(n - i)`.
    pub open spec fn wf(self) -> bool {
        let n = self.keys().len() as int;
        &&& forall|i: int, j: int| 0 <= i < j < n ==> self.keys()[i] < self.keys()[j]
        &&& forall|i: int|
            0 <= i < n ==> #[trigger] self.off(i) == tri(n as nat) - tri((n - i) as nat)
    }

    /// The number of unordered pairs of distinct keys.
    pub open spec fn spec_total(self) -> nat {
        tri(self.keys().len())
    }

    pub open spec fn contains_key(self, k: u64) -> bool {
        self.keys().contains(k)
    }

    /// The position of key `k` in the index; meaningful only when present.
    pub open spec fn idx_of(self, k: u64) -> int {
        choose|i: int| 0 <= i < self.keys().len() && self.keys()[i] == k
    }

    /// The dense offset of the pair made of the keys at positions `i < j`.
    pub open spec fn rank(self, i: int, j: int) -> int {
        self.off(i) + j - i - 1
    }

    /// The outcome of resolving two keys to the dense offset of their
    /// unordered pair: equal keys are refused, then both keys must belong to
    /// the key set, the smaller one being checked first.
    pub open spec fn spec_position(self, key_a: u64, key_b: u64) -> Result<usize, IndexError> {
        if key_a == key_b {
            Err(IndexError::SimilarKeys)
        } else {
            let lo = if key_a < key_b { key_a } else { key_b };
            let hi = if key_a < key_b { key_b } else { key_a };
            if !self.contains_key(lo) {
                Err(IndexError::MissingKey(lo))
            } else if !self.contains_key(hi) {
                Err(IndexError::MissingKey(hi))
            } else {
                Ok(self.rank(self.idx_of(lo), self.idx_of(hi)) as usize)
            }
        }
    }

    /// Consecutive base offsets differ by the number of keys above the
    /// earlier one.
    proof fn lemma_off_step(self, i: int)
        requires
            self.wf(),
            0 <= i,
            i + 1 < self.keys().len(),
        ensures
            self.off(i + 1) == self.off(i) + self.keys().len() - 1 - i,
    {
        let n = self.keys().len() as int;
        assert(tri((n - i) as nat) == tri((n - i - 1) as nat) + (n - i - 1));
    }

    proof fn lemma_off_mono(self, i: int, j: int)
        requires
            self.wf(),
            0 <= i <= j < self.keys().len(),
        ensures
            self.off(i) <= self.off(j),
    {
        let n = self.keys().len() as int;
        lemma_tri_mono((n - j) as nat, (n - i) as nat);
    }

    /// The base offset of the last key equals the total number of pairs.
    proof fn lemma_off_last(self)
        requires
            self.wf(),
            self.keys().len() > 0,
        ensures
            self.off(self.keys().len() - 1) == self.spec_total(),
    {
        assert(tri(0) == 0);
        assert(tri(1) == 0);
    }

    /// Every pair of positions `i < j` is ranked into the dense range.
    pub proof fn lemma_rank_bounds(self, i: int, j: int)
        requires
            self.wf(),
            0 <= i < j < self.keys().len(),
        ensures
            0 <= self.rank(i, j) < self.spec_total(),
    {
        let n = self.keys().len() as int;
        self.lemma_off_step(i);
        self.lemma_off_mono(i + 1, n - 1);
        self.lemma_off_last();
    }

    /// In a well-formed index each key occurs at exactly one position.
    proof fn lemma_idx_of(self, i: int, k: u64)
        requires
            self.wf(),
            0 <= i < self.keys().len(),
            self.keys()[i] == k,
        ensures
            self.contains_key(k),
            self.idx_of(k) == i,
    {
        assert(self.contains_key(k)) by {
            assert(self.keys()[i] == k);
        }
        let w = self.idx_of(k);
        assert(0 <= w < self.keys().len() && self.keys()[w] == k) by {
            assert(self.keys()[i] == k);
        }
        if w < i {
            assert(self.keys()[w] < self.keys()[i]);
        } else if i < w {
            assert(self.keys()[i] < self.keys()[w]);
        }
    }

    /// The number of unordered pairs of distinct keys, read off as the base
    /// offset of the last entry (zero when the index is empty).
    pub fn total_values(&self) -> (r: usize)
        requires
            self.wf(),
        ensures
            r == self.spec_total(),
            r == self.keys().len() * (self.keys().len() - 1) / 2,
    {
        proof {
            if self.keys().len() > 0 {
                self.lemma_off_last();
            }
            lemma_tri_closed_form(self.keys().len());
        }
        if self.0.len() == 0 {
            0
        } else {
            self.0[self.0.len() - 1].offset
        }
    }

    /// Binary search for a key over the ascending key list.
    fn search(&self, key: u64) -> (r: Option<usize>)
        requires
            self.wf(),
        ensures
            match r {
                Some(i) => i < self.keys().len() && self.keys()[i as int] == key,
                None => !self.contains_key(key),
            },
    {
        let mut lo: usize = 0;
        let mut hi: usize = self.0.len();
        while lo < hi
            invariant
                self.wf(),
                lo <= hi <= self.keys().len(),
                forall|i: int| 0 <= i < lo ==> self.keys()[i] < key,
                forall|i: int| hi <= i < self.keys().len() ==> key < self.keys()[i],
            decreases hi - lo,
        {
            let mid = lo + (hi - lo) / 2;
            let v = self.0[mid].value;
            proof {
                assert(self.keys()[mid as int] == self.0@[mid as int].value);
            }
            if v < key {
                lo = mid + 1;
            } else if key < v {
                hi = mid;
            } else {
                return Some(mid);
            }
        }
        proof {
            assert forall|i: int| 0 <= i < self.keys().len() implies self.keys()[i] != key by {}
        }
        None
    }

    /// Resolves two keys, given in either order, to the dense offset of
    /// their unordered pair. Equal keys are refused with `SimilarKeys`; a
    /// key outside the key set is refused with `MissingKey` carrying it, the
    /// smaller key being checked first. Both keys present, the offset is the
    /// rank of the pair in enumeration order.
    pub fn position(&self, key_a: &u64, key_b: &u64) -> (r: Result<usize, IndexError>)
        requires
            self.wf(),
        ensures
            r == self.spec_position(*key_a, *key_b),
            *key_a == *key_b <==> r == Err::<usize, IndexError>(IndexError::SimilarKeys),
            *key_a != *key_b && !self.contains_key(*key_a) && self.contains_key(*key_b) ==> r
                == Err::<usize, IndexError>(IndexError::MissingKey(*key_a)),
            *key_a != *key_b && self.contains_key(*key_a) && !self.contains_key(*key_b) ==> r
                == Err::<usize, IndexError>(IndexError::MissingKey(*key_b)),
            *key_a != *key_b && self.contains_key(*key_a) && self.contains_key(*key_b) ==> r is Ok
                && r->Ok_0 < self.spec_total(),
    {
        if *key_a == *key_b {
            return Err(IndexError::SimilarKeys);
        }
        let left: u64 = if *key_a < *key_b {
            *key_a
        } else {
            *key_b
        };
        let right: u64 = if *key_a < *key_b {
            *key_b
        } else {
            *key_a
        };
        let start = match self.search(left) {
            Some(i) => i,
            None => {
                return Err(IndexError::MissingKey(left));
            },
        };
        let end = match self.search(right) {
            Some(i) => i,
            None => {
                return Err(IndexError::MissingKey(right));
            },
        };
        proof {
            self.lemma_idx_of(start as int, left);
            self.lemma_idx_of(end as int, right);
            if end <= start {
                if end < start {
                    assert(self.keys()[end as int] < self.keys()[start as int]);
                }
                assert(false);
            }
            self.lemma_rank_bounds(start as int, end as int);
            if self.keys().len() > 0 {
                self.lemma_off_last();
            }
        }
        Ok(self.0[start].offset + (end - start - 1))
    }

    /// Builds the index from an arbitrary key collection: duplicates are
    /// collapsed, the keys are sorted ascending, and each key is assigned
    /// the base offset of its first pair.
    pub fn from_keys(keys: Vec<u64>) -> (r: Index)
        requires
            tri(keys@.len() as nat) <= usize::MAX,
        ensures
            r.wf(),
            forall|k: u64| r.contains_key(k) <==> keys@.contains(k),
    {
        let mut sorted: Vec<u64> = Vec::new();
        let mut idx: usize = 0;
        while idx < keys.len()
            invariant
                idx <= keys@.len(),
                sorted@.len() <= idx,
                forall|i: int, j: int| 0 <= i < j < sorted@.len() ==> sorted@[i] < sorted@[j],
                forall|k: u64| sorted@.contains(k) <==> keys@.subrange(0, idx as int).contains(k),
            decreases keys@.len() - idx,
        {
            let k = keys[idx];
            insert_unique_sorted(&mut sorted, k);
            proof {
                let pre = keys@.subrange(0, idx as int);
                let post = keys@.subrange(0, idx + 1);
                assert(post =~= pre.push(k));
                assert forall|x: u64| sorted@.contains(x) implies post.contains(x) by {
                    if pre.contains(x) {
                        let w = choose|w: int| 0 <= w < pre.len() && pre[w] == x;
                        assert(post[w] == x);
                    } else {
                        assert(x == k);
                        assert(post[pre.len() as int] == x);
                    }
                }
                assert forall|x: u64| post.contains(x) implies sorted@.contains(x) by {
                    let w = choose|w: int| 0 <= w < post.len() && post[w] == x;
                    if w < pre.len() {
                        assert(pre[w] == x);
                        assert(pre.contains(x));
                    } else {
                        assert(x == k);
                    }
                }
            }
            idx = idx + 1;
        }
        proof {
            assert(keys@.subrange(0, keys@.len() as int) == keys@);
            lemma_tri_mono(sorted@.len(), keys@.len());
        }
        Index::from_sorted(sorted)
    }

    /// Assigns base offsets to a strictly ascending key list: the running
    /// offset starts at zero and advances, after each key, by the number of
    /// keys still ahead of it.
    fn from_sorted(sorted: Vec<u64>) -> (r: Index)
        requires
            forall|i: int, j: int| 0 <= i < j < sorted@.len() ==> sorted@[i] < sorted@[j],
            tri(sorted@.len() as nat) <= usize::MAX,
        ensures
            r.wf(),
            r.keys() == sorted@,
    {
        let n = sorted.len();
        let mut values: Vec<Value> = Vec::with_capacity(n);
        let mut offset: usize = 0;
        let mut i: usize = 0;
        while i < n
            invariant
                i <= n,
                n == sorted@.len(),
                tri(n as nat) <= usize::MAX,
                values@.len() == i,
                offset == tri(n as nat) - tri((n - i) as nat),
                forall|j: int|
                    0 <= j < i ==> (#[trigger] values@[j]).value == sorted@[j]
                        && values@[j].offset == tri(n as nat) - tri((n - j) as nat),
            decreases n - i,
        {
            proof {
                lemma_tri_mono((n - i) as nat, n as nat);
                assert(tri((n - i) as nat) == tri((n - i - 1) as nat) + (n - i - 1));
            }
            values.push(Value { offset, value: sorted[i] });
            offset = offset + (n - 1 - i);
            i = i + 1;
        }
        let r = Index(values);
        proof {
            assert(r.keys() =~= sorted@);
        }
        r
    }
}

/// Two strictly ascending sequences holding the same set of values are the
/// same sequence.
pub proof fn lemma_sorted_unique_seqs_equal(s1: Seq<u64>, s2: Seq<u64>)
    requires
        forall|i: int, j: int| 0 <= i < j < s1.len() ==> s1[i] < s1[j],
        forall|i: int, j: int| 0 <= i < j < s2.len() ==> s2[i] < s2[j],
        forall|k: u64| s1.contains(k) <==> s2.contains(k),
    ensures
        s1 == s2,
    decreases s1.len(),
{
    if s1.len() == 0 {
        if s2.len() > 0 {
            assert(s2.contains(s2[0]));
            assert(false);
        }
        assert(s1 =~= s2);
    } else if s2.len() == 0 {
        assert(s1.contains(s1[0]));
        assert(false);
    } else {
        let m1 = s1.last();
        let m2 = s2.last();
        assert(s1.contains(m1)) by {
            assert(s1[s1.len() - 1] == m1);
        }
        assert(s2.contains(m2)) by {
            assert(s2[s2.len() - 1] == m2);
        }
        assert(m1 <= m2) by {
            let w = choose|w: int| 0 <= w < s2.len() && s2[w] == m1;
            if w < s2.len() - 1 {
                assert(s2[w] < s2[s2.len() - 1]);
            }
        }
        assert(m2 <= m1) by {
            let w = choose|w: int| 0 <= w < s1.len() && s1[w] == m2;
            if w < s1.len() - 1 {
                assert(s1[w] < s1[s1.len() - 1]);
            }
        }
        let t1 = s1.drop_last();
        let t2 = s2.drop_last();
        assert forall|k: u64| t1.contains(k) implies t2.contains(k) by {
            let w = choose|w: int| 0 <= w < t1.len() && t1[w] == k;
            assert(s1[w] == k);
            assert(s1.contains(k));
            assert(k < m1) by {
                assert(s1[w] < s1[s1.len() - 1]);
            }
            let u = choose|u: int| 0 <= u < s2.len() && s2[u] == k;
            assert(u < s2.len() - 1);
            assert(t2[u] == k);
        }
        assert forall|k: u64| t2.contains(k) implies t1.contains(k) by {
            let w = choose|w: int| 0 <= w < t2.len() && t2[w] == k;
            assert(s2[w] == k);
            assert(s2.contains(k));
            assert(k < m2) by {
                assert(s2[w] < s2[s2.len() - 1]);
            }
            let u = choose|u: int| 0 <= u < s1.len() && s1[u] == k;
            assert(u < s1.len() - 1);
            assert(t1[u] == k);
        }
        lemma_sorted_unique_seqs_equal(t1, t2);
        assert(s1 =~= s2) by {
            assert(forall|i: int| 0 <= i < s1.len() - 1 ==> s1[i] == t1[i] && s2[i] == t2[i]);
        }
    }
}

impl Index {
    /// Law: the construction is deterministic — the key list of a
    /// well-formed index is the one strictly ascending listing of its key
    /// set.
    pub proof fn lemma_keys_determined(self, s: Seq<u64>)
        requires
            self.wf(),
            forall|i: int, j: int| 0 <= i < j < s.len() ==> s[i] < s[j],
            forall|k: u64| self.contains_key(k) <==> s.contains(k),
        ensures
            self.keys() == s,
    {
        lemma_sorted_unique_seqs_equal(self.keys(), s);
    }

    /// Law: the rank of the pair at positions `i < j` has the closed form
    /// `tri(n) - tri(n - i) + j - i - 1` over the key count `n`: all pairs
    /// of earlier keys come first, then the walk from `i` to `j`.
    pub proof fn lemma_rank_value(self, i: int, j: int)
        requires
            self.wf(),
            0 <= i < j < self.keys().len(),
        ensures
            self.rank(i, j) == tri(self.keys().len()) - tri(
                (self.keys().len() - i) as nat,
            ) + j - i - 1,
    {
    }

    /// Law: resolving a pair of keys does not depend on the order in which
    /// the two keys are given.
    pub proof fn lemma_position_symmetric(self, a: u64, b: u64)
        ensures
            self.spec_position(a, b) == self.spec_position(b, a),
    {
    }

    /// Law: the pair of the keys at positions `i < j` resolves to exactly
    /// its rank in enumeration order.
    pub proof fn lemma_rank_is_position(self, i: int, j: int)
        requires
            self.wf(),
            0 <= i < j < self.keys().len(),
        ensures
            self.spec_position(self.keys()[i], self.keys()[j]) == Ok::<usize, IndexError>(
                self.rank(i, j) as usize,
            ),
    {
        let a = self.keys()[i];
        let b = self.keys()[j];
        assert(a < b);
        self.lemma_idx_of(i, a);
        self.lemma_idx_of(j, b);
        self.lemma_rank_bounds(i, j);
        self.lemma_off_last();
    }

    /// Law: distinct unordered pairs of positions receive distinct ranks.
    proof fn lemma_rank_injective(self, i: int, j: int, k: int, l: int)
        requires
            self.wf(),
            0 <= i < j < self.keys().len(),
            0 <= k < l < self.keys().len(),
            !(i == k && j == l),
        ensures
            self.rank(i, j) != self.rank(k, l),
    {
        if i == k {
            assert(self.rank(i, j) != self.rank(k, l));
        } else if i < k {
            self.lemma_off_step(i);
            self.lemma_off_mono(i + 1, k);
        } else {
            self.lemma_off_step(k);
            self.lemma_off_mono(k + 1, i);
        }
    }

    /// Law: distinct unordered pairs of keys from the key set resolve to
    /// distinct offsets.
    pub proof fn lemma_position_injective(self, a: u64, b: u64, c: u64, d: u64)
        requires
            self.wf(),
            a != b,
            c != d,
            self.contains_key(a),
            self.contains_key(b),
            self.contains_key(c),
            self.contains_key(d),
            !(a == c && b == d),
            !(a == d && b == c),
        ensures
            self.spec_position(a, b) != self.spec_position(c, d),
    {
        let n = self.keys().len() as int;
        let lo1 = if a < b { a } else { b };
        let hi1 = if a < b { b } else { a };
        let lo2 = if c < d { c } else { d };
        let hi2 = if c < d { d } else { c };
        let i = choose|w: int| 0 <= w < n && self.keys()[w] == lo1;
        let j = choose|w: int| 0 <= w < n && self.keys()[w] == hi1;
        let k = choose|w: int| 0 <= w < n && self.keys()[w] == lo2;
        let l = choose|w: int| 0 <= w < n && self.keys()[w] == hi2;
        self.lemma_idx_of(i, lo1);
        self.lemma_idx_of(j, hi1);
        self.lemma_idx_of(k, lo2);
        self.lemma_idx_of(l, hi2);
        if j <= i {
            if j < i {
                assert(self.keys()[j] < self.keys()[i]);
            }
            assert(false);
        }
        if l <= k {
            if l < k {
                assert(self.keys()[l] < self.keys()[k]);
            }
            assert(false);
        }
        assert(!(i == k && j == l));
        self.lemma_rank_injective(i, j, k, l);
        self.lemma_rank_bounds(i, j);
        self.lemma_rank_bounds(k, l);
        self.lemma_off_last();
    }

    /// Every offset at or above the base offset of position `i`, and below
    /// the total, is the rank of some pair no earlier than `i`.
    proof fn lemma_rank_surjective_from(self, t: int, i: int)
        requires
            self.wf(),
            0 <= i < self.keys().len(),
            self.off(i) <= t < self.spec_total(),
        ensures
            exists|u: int, v: int|
                0 <= u < v < self.keys().len() && #[trigger] self.rank(u, v) == t,
        decreases self.keys().len() - i,
    {
        let n = self.keys().len() as int;
        if t < self.off(i) + (n - 1 - i) {
            let j = t - self.off(i) + i + 1;
            assert(self.rank(i, j) == t);
        } else {
            if i == n - 1 {
                self.lemma_off_last();
                assert(false);
            }
            self.lemma_off_step(i);
            self.lemma_rank_surjective_from(t, i + 1);
        }
    }

    /// Law: every offset in the dense range is taken by some unordered pair
    /// of keys, so the offsets cover `0 .. total` with no gap.
    pub proof fn lemma_position_surjective(self, t: usize)
        requires
            self.wf(),
            t < self.spec_total(),
        ensures
            exists|a: u64, b: u64|
                self.contains_key(a) && self.contains_key(b) && a < b && #[trigger] self
                    .spec_position(a, b) == Ok::<usize, IndexError>(t),
    {
        let n = self.keys().len() as int;
        if n == 0 {
            assert(tri(0) == 0);
            assert(false);
        }
        assert(self.off(0) == 0) by {
            assert(self.off(0) == tri(n as nat) - tri((n - 0) as nat));
        }
        self.lemma_rank_surjective_from(t as int, 0);
        let (u, v) = choose|u: int, v: int|
            0 <= u < v < self.keys().len() && #[trigger] self.rank(u, v) == t;
        self.lemma_rank_is_position(u, v);
        let a = self.keys()[u];
        let b = self.keys()[v];
        self.lemma_idx_of(u, a);
        self.lemma_idx_of(v, b);
        assert(self.contains_key(a) && self.contains_key(b) && a < b && self.spec_position(a, b)
            == Ok::<usize, IndexError>(t));
    }

    /// Law: a pair of two distinct keys of the key set always resolves to
    /// an offset in the dense range.
    pub proof fn lemma_position_in_range(self, a: u64, b: u64)
        requires
            self.wf(),
            a != b,
            self.contains_key(a),
            self.contains_key(b),
        ensures
            self.spec_position(a, b) is Ok,
            self.spec_position(a, b)->Ok_0 < self.spec_total(),
    {
        let n = self.keys().len() as int;
        let lo = if a < b { a } else { b };
        let hi = if a < b { b } else { a };
        let i = choose|w: int| 0 <= w < n && self.keys()[w] == lo;
        let j = choose|w: int| 0 <= w < n && self.keys()[w] == hi;
        self.lemma_idx_of(i, lo);
        self.lemma_idx_of(j, hi);
        if j <= i {
            if j < i {
                assert(self.keys()[j] < self.keys()[i]);
            }
            assert(false);
        }
        self.lemma_rank_bounds(i, j);
        self.lemma_off_last();
    }

    /// A fresh enumeration of all unordered pairs, in offset order.
    pub fn iter_key_pairs(&self) -> (r: IndexKeyPairIter<'_>)
        requires
            self.wf(),
        ensures
            r.wf(),
            r.idx() == *self,
            r.emitted() == 0,
    {
        IndexKeyPairIter::new(self)
    }
}

/// A cursor over all unordered pairs of keys of an index, in offset order:
/// the smallest key is paired with every larger key in ascending order, then
/// the next key, until no pair remains.
#[derive(Debug)]
pub struct IndexKeyPairIter<'a> {
    index: &'a Index,
    key: usize,
    walk: usize,
}

impl<'a> IndexKeyPairIter<'a> {
    /// The index being enumerated.
    pub closed spec fn idx(self) -> Index {
        *self.index
    }

    /// The cursor either stands on a pair still to be emitted or rests just
    /// past the last one.
    pub closed spec fn wf(self) -> bool {
        let n = self.idx().keys().len() as int;
        &&& self.idx().wf()
        &&& if n == 0 {
            self.key == 0 && self.walk == 1
        } else {
            &&& self.key < n
            &&& 1 <= self.walk
            &&& self.key + self.walk <= n
            &&& (self.key + self.walk == n ==> self.key == n - 1)
        }
    }

    /// How many pairs have been emitted so far; it equals the rank of the
    /// pair the cursor stands on.
    pub closed spec fn emitted(self) -> nat {
        if self.idx().keys().len() == 0 {
            0
        } else {
            (self.idx().off(self.key as int) + self.walk - 1) as nat
        }
    }

    fn new(index: &'a Index) -> (r: IndexKeyPairIter<'a>)
        requires
            index.wf(),
        ensures
            r.wf(),
            r.idx() == *index,
            r.emitted() == 0,
    {
        IndexKeyPairIter { index, key: 0, walk: 1 }
    }

    /// Emits the next unordered pair, or `None` once every pair has been
    /// emitted. Each emitted pair is the one ranked at the number of pairs
    /// emitted before it, so the enumeration follows offset order exactly.
    pub fn next(&mut self) -> (r: Option<(u64, u64)>)
        requires
            old(self).wf(),
        ensures
            final(self).wf(),
            final(self).idx() == old(self).idx(),
            match r {
                Some(p) => {
                    &&& old(self).emitted() < old(self).idx().spec_total()
                    &&& final(self).emitted() == old(self).emitted() + 1
                    &&& p.0 < p.1
                    &&& exists|i: int, j: int|
                        0 <= i < j < old(self).idx().keys().len() && p.0 == old(
                            self,
                        ).idx().keys()[i] && p.1 == old(self).idx().keys()[j] && #[trigger] old(
                            self,
                        ).idx().rank(i, j) == old(self).emitted()
                },
                None => {
                    &&& old(self).emitted() == old(self).idx().spec_total()
                    &&& final(self).emitted() == old(self).emitted()
                },
            },
    {
        let n = self.index.0.len();
        if self.key + self.walk >= n {
            proof {
                if n == 0 {
                    assert(tri(0) == 0);
                } else {
                    self.index.lemma_off_last();
                }
            }
            return None;
        }
        let ghost okey = self.key as int;
        let ghost owalk = self.walk as int;
        let left = self.index.0[self.key].value;
        let right = self.index.0[self.key + self.walk].value;
        proof {
            assert(self.index.keys()[okey] == self.index.0@[okey].value);
            assert(self.index.keys()[okey + owalk] == self.index.0@[okey + owalk].value);
            self.index.lemma_rank_bounds(okey, okey + owalk);
            self.index.lemma_off_step(okey);
        }
        if self.key + self.walk + 1 == n {
            self.key = self.key + 1;
            self.walk = 1;
        } else {
            self.walk = self.walk + 1;
        }
        proof {
            let keys = self.index.keys();
            assert(0 <= okey < okey + owalk < keys.len());
            assert(left == keys[okey]);
            assert(right == keys[okey + owalk]);
            assert(self.index.rank(okey, okey + owalk) == self.index.off(okey) + owalk - 1);
        }
        Some((left, right))
    }
}

/// Inserts `k` into a strictly ascending vector, keeping it strictly
/// ascending; a key already present is left alone.
fn insert_unique_sorted(v: &mut Vec<u64>, k: u64)
    requires
        forall|i: int, j: int| 0 <= i < j < old(v)@.len() ==> old(v)@[i] < old(v)@[j],
    ensures
        forall|i: int, j: int| 0 <= i < j < final(v)@.len() ==> final(v)@[i] < final(v)@[j],
        forall|x: u64| final(v)@.contains(x) <==> (old(v)@.contains(x) || x == k),
        final(v)@.len() <= old(v)@.len() + 1,
{
    let ghost orig = v@;
    let mut idx: usize = 0;
    while idx < v.len() && v[idx] < k
        invariant
            v@ == orig,
            idx <= v@.len(),
            forall|i: int| 0 <= i < idx ==> v@[i] < k,
        decreases v@.len() - idx,
    {
        idx = idx + 1;
    }
    if idx < v.len() && v[idx] == k {
        proof {
            assert(v@.contains(k)) by {
                assert(v@[idx as int] == k);
            }
            assert(forall|x: u64| v@.contains(x) <==> (orig.contains(x) || x == k));
        }
        return ;
    }
    v.insert(idx, k);
    proof {
        let new = v@;
        assert forall|i: int, j: int| 0 <= i < j < new.len() implies new[i] < new[j] by {
            assert(forall|i: int| 0 <= i < idx ==> new[i] == orig[i]);
            assert(new[idx as int] == k);
            assert(forall|i: int| idx < i < new.len() ==> new[i] == orig[i - 1]);
            if j == idx {
                assert(new[i] < k);
            } else if i == idx {
                assert(orig[j - 1] >= k) by {
                    if j - 1 > idx {
                        assert(orig[idx as int] < orig[j - 1]);
                    }
                }
                assert(orig[j - 1] != k) by {
                    if orig[j - 1] == k && idx < orig.len() {
                        assert(orig[idx as int] >= k);
                    }
                }
            } else if i < idx && j > idx {
                if idx < orig.len() {
                    assert(orig[i] < k);
                    assert(orig[j - 1] >= orig[idx as int] >= k);
                } else {
                    assert(false);
                }
            }
        }
        assert forall|x: u64| new.contains(x) implies (orig.contains(x) || x == k) by {
            let w = choose|w: int| 0 <= w < new.len() && new[w] == x;
            if w < idx {
                assert(orig[w] == x);
            } else if w > idx {
                assert(orig[w - 1] == x);
            }
        }
        assert forall|x: u64| orig.contains(x) implies new.contains(x) by {
            let w = choose|w: int| 0 <= w < orig.len() && orig[w] == x;
            if w < idx {
                assert(new[w] == x);
            } else {
                assert(new[w + 1] == x);
            }
        }
        assert(new[idx as int] == k);
    }
}

} // verus!
