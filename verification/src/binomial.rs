pub mod index;
pub mod store;

pub use index::Index;
pub use index::IndexError;
pub use store::Store;

use vstd::prelude::*;

verus! {

use crate::binomial::index::tri;

/// A pairwise storage backed by a flat vector.
pub type Lookup<V> = Storage<V, Vec<V>>;

/// Slot `p` of the value sequence `s` holds a value that `func` may return
/// for the pair of keys ranked `p` by `index`.
pub open spec fn slot_filled<V, F: Fn(u64, u64) -> V>(
    index: Index,
    func: F,
    s: Seq<V>,
    p: int,
) -> bool {
    exists|i: int, j: int|
        0 <= i < j < index.keys().len() && #[trigger] index.rank(i, j) == p && call_ensures(
            func,
            (index.keys()[i], index.keys()[j]),
            s[p],
        )
}

/// Law: a value written for one unordered pair is read back through either
/// order of its two keys, while the slot of every other pair of the key set
/// keeps its value.
pub proof fn lemma_write_isolated<V>(
    index: Index,
    s: Seq<V>,
    v: V,
    a: u64,
    b: u64,
    c: u64,
    d: u64,
)
    requires
        index.wf(),
        s.len() == index.spec_total(),
        a != b,
        index.contains_key(a),
        index.contains_key(b),
        c != d,
        index.contains_key(c),
        index.contains_key(d),
    ensures
        index.spec_position(a, b) is Ok,
        index.spec_position(a, b) == index.spec_position(b, a),
        index.spec_position(a, b)->Ok_0 < s.len(),
        s.update(index.spec_position(a, b)->Ok_0 as int, v)[index.spec_position(
            a,
            b,
        )->Ok_0 as int] == v,
        !(a == c && b == d) && !(a == d && b == c) ==> s.update(
            index.spec_position(a, b)->Ok_0 as int,
            v,
        )[index.spec_position(c, d)->Ok_0 as int] == s[index.spec_position(c, d)->Ok_0 as int],
{
    index.lemma_position_symmetric(a, b);
    index.lemma_position_in_range(a, b);
    index.lemma_position_in_range(c, d);
    if !(a == c && b == d) && !(a == d && b == c) {
        index.lemma_position_injective(a, b, c, d);
    }
}

/// Owns one key index and one value store, built together from one key set:
/// one value is held per unordered pair of distinct keys, and is read or
/// written through the two keys, in either order.
#[derive(Debug)]
#[verifier::reject_recursive_types(V)]
pub struct Storage<V, S> where V: Copy, S: Store<Type = V> {
    index: Index,
    store: S,
}

impl<V: Copy, S: Store<Type = V>> Storage<V, S> {
    /// The key index the storage was built with.
    pub closed spec fn idx(self) -> Index {
        self.index
    }

    /// The stored values, slot by slot in offset order.
    pub closed spec fn contents(self) -> Seq<V> {
        self.store.contents()
    }

    /// The standing invariant: the store holds exactly one value per
    /// unordered pair of the index.
    pub open spec fn wf(self) -> bool {
        self.idx().wf() && self.contents().len() == self.idx().spec_total()
    }

    /// Builds the index from the keys, then a store with one slot per
    /// unordered pair, every slot holding `default`.
    pub fn from_keys(keys: Vec<u64>, default: V) -> (s: Self)
        requires
            tri(keys@.len() as nat) <= usize::MAX,
        ensures
            s.wf(),
            forall|k: u64| s.idx().contains_key(k) <==> keys@.contains(k),
            forall|p: int| 0 <= p < s.contents().len() ==> s.contents()[p] == default,
    {
        let index = Index::from_keys(keys);
        let total = index.total_values();
        let store = S::new(total, default);
        Storage { index, store }
    }

    /// Builds the index from the keys, then fills the store by calling
    /// `func` once per unordered pair, in enumeration order: the value for
    /// the pair ranked `p` lands in slot `p`.
    pub fn from_keys_and_strategy<F: Fn(u64, u64) -> V>(keys: Vec<u64>, func: F) -> (s: Self)
        requires
            tri(keys@.len() as nat) <= usize::MAX,
            forall|a: u64, b: u64|
                keys@.contains(a) && keys@.contains(b) && a < b ==> call_requires(func, (a, b)),
        ensures
            s.wf(),
            forall|k: u64| s.idx().contains_key(k) <==> keys@.contains(k),
            forall|p: int|
                0 <= p < s.contents().len() ==> #[trigger] slot_filled(
                    s.idx(),
                    func,
                    s.contents(),
                    p,
                ),
    {
        let ghost gkeys = keys@;
        let index = Index::from_keys(keys);
        let mut store = S::with_capacity(index.total_values());
        let mut iter = index.iter_key_pairs();
        loop
            invariant_except_break
                iter.wf(),
                iter.idx() == index,
                index.wf(),
                forall|k: u64| index.contains_key(k) <==> gkeys.contains(k),
                forall|a: u64, b: u64|
                    gkeys.contains(a) && gkeys.contains(b) && a < b ==> call_requires(
                        func,
                        (a, b),
                    ),
                store.contents().len() == iter.emitted(),
                iter.emitted() <= index.spec_total(),
                forall|p: int|
                    0 <= p < store.contents().len() ==> #[trigger] slot_filled(
                        index,
                        func,
                        store.contents(),
                        p,
                    ),
            ensures
                index.wf(),
                forall|k: u64| index.contains_key(k) <==> gkeys.contains(k),
                store.contents().len() == index.spec_total(),
                forall|p: int|
                    0 <= p < store.contents().len() ==> #[trigger] slot_filled(
                        index,
                        func,
                        store.contents(),
                        p,
                    ),
            decreases index.spec_total() - iter.emitted(),
        {
            match iter.next() {
                Some(pair) => {
                    proof {
                        let (i, j) = choose|i: int, j: int|
                            0 <= i < j < index.keys().len() && pair.0 == index.keys()[i] && pair.1
                                == index.keys()[j] && #[trigger] index.rank(i, j)
                                == store.contents().len();
                        assert(index.contains_key(pair.0)) by {
                            assert(index.keys()[i] == pair.0);
                        }
                        assert(index.contains_key(pair.1)) by {
                            assert(index.keys()[j] == pair.1);
                        }
                        assert(call_requires(func, (pair.0, pair.1)));
                    }
                    let ghost pre = store.contents();
                    let value = func(pair.0, pair.1);
                    store.push(value);
                    proof {
                        assert forall|p: int|
                            0 <= p < store.contents().len() implies #[trigger] slot_filled(
                            index,
                            func,
                            store.contents(),
                            p,
                        ) by {
                            if p < pre.len() {
                                assert(slot_filled(index, func, pre, p));
                                let (i, j) = choose|i: int, j: int|
                                    0 <= i < j < index.keys().len() && #[trigger] index.rank(i, j)
                                        == p && call_ensures(
                                        func,
                                        (index.keys()[i], index.keys()[j]),
                                        pre[p],
                                    );
                                assert(store.contents()[p] == pre[p]);
                                assert(index.rank(i, j) == p && call_ensures(
                                    func,
                                    (index.keys()[i], index.keys()[j]),
                                    store.contents()[p],
                                ));
                            } else {
                                let (i, j) = choose|i: int, j: int|
                                    0 <= i < j < index.keys().len() && pair.0 == index.keys()[i]
                                        && pair.1 == index.keys()[j] && #[trigger] index.rank(i, j)
                                        == pre.len();
                                assert(store.contents()[p] == value);
                                assert(index.rank(i, j) == p && call_ensures(
                                    func,
                                    (index.keys()[i], index.keys()[j]),
                                    store.contents()[p],
                                ));
                            }
                        }
                    }
                },
                None => { break ; },
            }
        }
        Storage { index, store }
    }

    /// Assembles a storage from an index and a store already holding one
    /// value per pair; the caller vouches for that consistency.
    pub fn from_raw_parts(index: Index, store: S) -> (s: Self)
        requires
            index.wf(),
            store.contents().len() == index.spec_total(),
        ensures
            s.wf(),
            s.idx() == index,
            s.contents() == store.contents(),
    {
        Storage { index, store }
    }

    /// Takes the storage apart into its index and its store.
    pub fn into_raw_parts(self) -> (r: (Index, S))
        ensures
            r.0 == self.idx(),
            r.1.contents() == self.contents(),
    {
        (self.index, self.store)
    }

    /// A reference to the value stored for the unordered pair of the two
    /// keys, or the index's error when the pair is invalid.
    pub fn get<'a>(&'a self, key_a: &u64, key_b: &u64) -> (r: Result<&'a V, IndexError>)
        requires
            self.wf(),
        ensures
            match (r, self.idx().spec_position(*key_a, *key_b)) {
                (Ok(v), Ok(p)) => *v == self.contents()[p as int],
                (Err(e), Err(f)) => e == f,
                _ => false,
            },
    {
        let position = match self.index.position(key_a, key_b) {
            Ok(p) => p,
            Err(e) => {
                return Err(e);
            },
        };
        Ok(self.store.ref_at(position))
    }

    /// A mutable reference to the value stored for the unordered pair of
    /// the two keys, or the index's error when the pair is invalid. What
    /// the caller leaves in it becomes the pair's value; every other slot
    /// keeps its value.
    pub fn get_mut<'a>(&'a mut self, key_a: &u64, key_b: &u64) -> (r: Result<
        &'a mut V,
        IndexError,
    >)
        requires
            old(self).wf(),
        ensures
            final(self).idx() == old(self).idx(),
            final(self).wf(),
            r is Ok <==> old(self).idx().spec_position(*key_a, *key_b) is Ok,
            r is Ok ==> (old(self).idx().spec_position(*key_a, *key_b) matches Ok(p)
                && *r.unwrap() == old(self).contents()[p as int]
                && final(self).contents() == old(self).contents().update(
                p as int,
                *final(r.unwrap()),
            )),
            r is Err ==> r->Err_0 == old(self).idx().spec_position(*key_a, *key_b)->Err_0
                && final(self).contents() == old(self).contents(),
    {
        let position = match self.index.position(key_a, key_b) {
            Ok(p) => p,
            Err(e) => {
                return Err(e);
            },
        };
        Ok(self.store.mut_ref_at(position))
    }
}

} // verus!
