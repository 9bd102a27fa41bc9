//! The key-value store: a mapping from byte-string keys to values, each
//! entry carrying an optional expiry instant. A key whose expiry has
//! passed is logically absent even while still physically present.

use vstd::prelude::*;
use crate::value::Value;
use crate::value::ValueModel;

verus! {

broadcast use vstd::std_specs::vec::group_vec_axioms, vstd::seq::group_seq_axioms;

/// One stored binding: a key, its value, and the instant (in
/// milliseconds) at which it lapses, if any.
pub struct Entry {
    pub key: Vec<u8>,
    pub value: Value,
    pub expires_at: Option<u64>,
}

/// The in-memory store. Keys are unique; all operations are total.
pub struct MemoryDb {
    entries: Vec<Entry>,
}

/// First match for `k` in a run of entries: its value model and expiry.
pub open spec fn lookup_seq(es: Seq<Entry>, k: Seq<u8>) -> Option<(ValueModel, Option<u64>)>
    decreases es.len(),
{
    if es.len() == 0 {
        None
    } else if es[0].key@ == k {
        Some((es[0].value.model(), es[0].expires_at))
    } else {
        lookup_seq(es.subrange(1, es.len() as int), k)
    }
}

/// A key whose lookup fails is carried by no entry.
proof fn lemma_lookup_none_absent(es: Seq<Entry>, k: Seq<u8>)
    requires
        lookup_seq(es, k) is None,
    ensures
        forall|j: int| 0 <= j < es.len() ==> (#[trigger] es[j].key)@ != k,
    decreases es.len(),
{
    if es.len() > 0 {
        let rest = es.subrange(1, es.len() as int);
        lemma_lookup_none_absent(rest, k);
        assert forall|j: int| 0 <= j < es.len() implies (#[trigger] es[j].key)@ != k by {
            if j > 0 {
                assert(es[j] == rest[j - 1]);
            }
        }
    }
}

/// A key that no entry carries is not found.
proof fn lemma_lookup_absent(es: Seq<Entry>, k: Seq<u8>)
    requires
        forall|j: int| 0 <= j < es.len() ==> (#[trigger] es[j].key)@ != k,
    ensures
        lookup_seq(es, k) is None,
    decreases es.len(),
{
    if es.len() > 0 {
        lemma_lookup_absent(es.subrange(1, es.len() as int), k);
    }
}

/// Appending an entry leaves earlier keys' lookups alone and binds its
/// own key only where it was unbound.
proof fn lemma_lookup_push(es: Seq<Entry>, e: Entry, k: Seq<u8>)
    ensures
        lookup_seq(es.push(e), k) == if lookup_seq(es, k) is Some {
            lookup_seq(es, k)
        } else if e.key@ == k {
            Some((e.value.model(), e.expires_at))
        } else {
            None
        },
    decreases es.len(),
{
    let es2 = es.push(e);
    if es.len() == 0 {
        assert(es2[0] == e);
        assert(es2.subrange(1, es2.len() as int) =~= Seq::<Entry>::empty());
        if e.key@ == k {
            assert(lookup_seq(es2, k) == Some((e.value.model(), e.expires_at)));
        } else {
            assert(lookup_seq(es2, k) == lookup_seq(es2.subrange(1, es2.len() as int), k));
        }
    } else {
        let rest = es.subrange(1, es.len() as int);
        assert(es2[0] == es[0]);
        assert(es2.subrange(1, es2.len() as int) =~= rest.push(e));
        lemma_lookup_push(rest, e, k);
        if es[0].key@ == k {
            assert(lookup_seq(es2, k) == Some((es[0].value.model(), es[0].expires_at)));
            assert(lookup_seq(es, k) == Some((es[0].value.model(), es[0].expires_at)));
        } else {
            assert(lookup_seq(es2, k) == lookup_seq(rest.push(e), k));
            assert(lookup_seq(es, k) == lookup_seq(rest, k));
        }
    }
}

/// Removing the entry at `i` unbinds exactly its key, given unique keys.
proof fn lemma_lookup_remove(es: Seq<Entry>, i: int, k: Seq<u8>)
    requires
        0 <= i < es.len(),
        forall|p: int, q: int|
            0 <= p < q < es.len() ==> (#[trigger] es[p].key)@ != (#[trigger] es[q].key)@,
    ensures
        lookup_seq(es.remove(i), k) == if es[i].key@ == k {
            None
        } else {
            lookup_seq(es, k)
        },
    decreases es.len(),
{
    let rest = es.subrange(1, es.len() as int);
    if i == 0 {
        assert(es.remove(0) =~= rest);
        if es[0].key@ == k {
            assert(forall|j: int| 0 <= j < rest.len() ==> (#[trigger] rest[j].key)@ != k);
            lemma_lookup_absent(rest, k);
        }
    } else {
        assert(es.remove(i)[0] == es[0]);
        assert(es.remove(i).subrange(1, es.remove(i).len() as int) =~= rest.remove(i - 1));
        lemma_lookup_remove(rest, i - 1, k);
    }
}

impl MemoryDb {
    /// Well-formed: no two entries share a key.
    pub closed spec fn wf(self) -> bool {
        forall|p: int, q: int|
            0 <= p < q < self.entries@.len() ==> (#[trigger] self.entries@[p].key)@
                != (#[trigger] self.entries@[q].key)@
    }

    /// The binding of `k`, expired or not.
    pub closed spec fn lookup(self, k: Seq<u8>) -> Option<(ValueModel, Option<u64>)> {
        lookup_seq(self.entries@, k)
    }

    /// The value visible for `k` at instant `now_ms`: the stored value
    /// unless the key is absent or its expiry has passed.
    pub open spec fn live_at(self, k: Seq<u8>, now_ms: u64) -> Option<ValueModel> {
        match self.lookup(k) {
            None => None,
            Some((m, exp)) => match exp {
                None => Some(m),
                Some(t) => if now_ms < t {
                    Some(m)
                } else {
                    None
                },
            },
        }
    }

    /// An empty store: every key is unbound.
    pub fn new() -> (r: MemoryDb)
        ensures
            r.wf(),
            forall|k: Seq<u8>| r.lookup(k) is None,
    {
        let r = MemoryDb { entries: Vec::new() };
        proof {
            assert forall|k: Seq<u8>| r.lookup(k) is None by {
                assert(r.entries@.len() == 0);
            }
        }
        r
    }

    /// Index of the entry holding `key`, if any.
    fn find(&self, key: &Vec<u8>) -> (r: Option<usize>)
        ensures
            match r {
                Some(i) => i < self.entries@.len() && self.entries@[i as int].key@ == key@
                    && forall|j: int|
                    0 <= j < i ==> (#[trigger] self.entries@[j].key)@ != key@,
                None => forall|j: int|
                    0 <= j < self.entries@.len() ==> (#[trigger] self.entries@[j].key)@ != key@,
            },
    {
        let n = self.entries.len();
        let mut i: usize = 0;
        while i < n
            invariant
                n == self.entries@.len(),
                i <= n,
                forall|j: int|
                    0 <= j < i ==> (#[trigger] self.entries@[j].key)@ != key@,
            decreases n - i,
        {
            if bytes_eq(&self.entries[i].key, key) {
                return Some(i);
            }
            i = i + 1;
        }
        None
    }

    /// Unbinds `key`; idempotent and total.
    pub fn remove(&mut self, key: &Vec<u8>)
        requires
            old(self).wf(),
        ensures
            final(self).wf(),
            final(self).lookup(key@) is None,
            forall|k2: Seq<u8>| k2 != key@ ==> final(self).lookup(k2) == old(self).lookup(k2),
    {
        let found = self.find(key);
        match found {
            None => {
                proof {
                    lemma_lookup_absent(self.entries@, key@);
                }
            },
            Some(i) => {
                let ghost es = self.entries@;
                self.entries.remove(i);
                proof {
                    assert(self.entries@ =~= es.remove(i as int));
                    assert forall|p: int, q: int|
                        0 <= p < q < self.entries@.len() implies (
                    #[trigger] self.entries@[p].key)@ != (#[trigger] self.entries@[q].key)@ by {
                        let p0 = if p < i as int {
                            p
                        } else {
                            p + 1
                        };
                        let q0 = if q < i as int {
                            q
                        } else {
                            q + 1
                        };
                        assert(self.entries@[p] == es[p0]);
                        assert(self.entries@[q] == es[q0]);
                    }
                    assert forall|k2: Seq<u8>| true implies #[trigger] lookup_seq(
                        self.entries@,
                        k2,
                    ) == (if es[i as int].key@ == k2 {
                        None::<(ValueModel, Option<u64>)>
                    } else {
                        lookup_seq(es, k2)
                    }) by {
                        lemma_lookup_remove(es, i as int, k2);
                    }
                }
            },
        }
    }

    /// Binds `key` to `value`, replacing any prior binding and its
    /// expiry. `expires_at` is the instant at which the new binding
    /// lapses, if any.
    pub fn set(&mut self, key: Vec<u8>, value: Value, expires_at: Option<u64>)
        requires
            old(self).wf(),
        ensures
            final(self).wf(),
            final(self).lookup(key@) == Some((value.model(), expires_at)),
            forall|k2: Seq<u8>| k2 != key@ ==> final(self).lookup(k2) == old(self).lookup(k2),
    {
        self.remove(&key);
        let ghost es = self.entries@;
        let e = Entry { key, value, expires_at };
        let ghost ee = e;
        self.entries.push(e);
        proof {
            lemma_lookup_none_absent(es, ee.key@);
            assert forall|p: int, q: int|
                0 <= p < q < self.entries@.len() implies (#[trigger] self.entries@[p].key)@ != (
            #[trigger] self.entries@[q].key)@ by {
                assert(self.entries@[p] == es[p]);
                if q == self.entries@.len() - 1 {
                    assert(self.entries@[q] == ee);
                } else {
                    assert(self.entries@[q] == es[q]);
                }
            }
            assert forall|k2: Seq<u8>| true implies #[trigger] lookup_seq(self.entries@, k2)
                == if lookup_seq(es, k2) is Some {
                lookup_seq(es, k2)
            } else if ee.key@ == k2 {
                Some((ee.value.model(), ee.expires_at))
            } else {
                None
            } by {
                lemma_lookup_push(es, ee, k2);
            }
        }
    }

    /// The value visible for `key` at `now_ms`, copied out: the store
    /// never hands out references to its entries.
    pub fn get(&self, key: &Vec<u8>, now_ms: u64) -> (r: Option<Value>)
        ensures
            match r {
                Some(v) => self.live_at(key@, now_ms) == Some(v.model()),
                None => self.live_at(key@, now_ms) is None,
            },
    {
        let found = self.find(key);
        match found {
            None => {
                proof {
                    lemma_lookup_absent(self.entries@, key@);
                }
                None
            },
            Some(i) => {
                proof {
                    lemma_lookup_seq_present(self.entries@, i as int, key@);
                }
                let live = match &self.entries[i].expires_at {
                    Option::None => true,
                    Option::Some(t) => now_ms < *t,
                };
                if live {
                    Some(self.entries[i].value.duplicate())
                } else {
                    None
                }
            },
        }
    }

    /// Removes `key` only if its binding has lapsed by `now_ms`: the
    /// fire-time check that keeps a timer from deleting a binding that
    /// was legitimately replaced after it was scheduled.
    pub fn remove_expired(&mut self, key: &Vec<u8>, now_ms: u64)
        requires
            old(self).wf(),
        ensures
            final(self).wf(),
            final(self).lookup(key@) == match old(self).lookup(key@) {
                Some((m, exp)) => if exp matches Some(t) && t <= now_ms {
                    None::<(ValueModel, Option<u64>)>
                } else {
                    old(self).lookup(key@)
                },
                None => None::<(ValueModel, Option<u64>)>,
            },
            forall|k2: Seq<u8>| k2 != key@ ==> final(self).lookup(k2) == old(self).lookup(k2),
    {
        let found = self.find(key);
        match found {
            None => {
                proof {
                    lemma_lookup_absent(self.entries@, key@);
                }
            },
            Some(i) => {
                proof {
                    lemma_lookup_seq_present(self.entries@, i as int, key@);
                }
                let lapsed = match &self.entries[i].expires_at {
                    Option::None => false,
                    Option::Some(t) => *t <= now_ms,
                };
                if lapsed {
                    self.remove(key);
                }
            },
        }
    }
}

/// If the entry at `i` holds `k` and no earlier entry does, the lookup
/// finds exactly that entry.
proof fn lemma_lookup_seq_present(es: Seq<Entry>, i: int, k: Seq<u8>)
    requires
        0 <= i < es.len(),
        es[i].key@ == k,
        forall|j: int| 0 <= j < i ==> (#[trigger] es[j].key)@ != k,
    ensures
        lookup_seq(es, k) == Some((es[i].value.model(), es[i].expires_at)),
    decreases i,
{
    if i > 0 {
        let rest = es.subrange(1, es.len() as int);
        lemma_lookup_seq_present(rest, i - 1, k);
    }
}

/// Byte-for-byte equality of two byte vectors.
pub fn bytes_eq(a: &Vec<u8>, b: &Vec<u8>) -> (r: bool)
    ensures
        r == (a@ == b@),
{
    if a.len() != b.len() {
        proof {
            assert(a@.len() != b@.len());
        }
        return false;
    }
    let n = a.len();
    let mut i: usize = 0;
    while i < n
        invariant
            n == a@.len(),
            n == b@.len(),
            i <= n,
            forall|j: int| 0 <= j < i ==> a@[j] == b@[j],
        decreases n - i,
    {
        if a[i] != b[i] {
            return false;
        }
        i = i + 1;
    }
    proof {
        assert(a@ =~= b@);
    }
    true
}

/// Runs of entries that agree key-for-key, model-for-model look up the
/// same way.
proof fn lemma_lookup_congruent(a: Seq<Entry>, b: Seq<Entry>, k: Seq<u8>)
    requires
        a.len() == b.len(),
        forall|i: int| 0 <= i < a.len() ==> (#[trigger] b[i].key)@ == a[i].key@,
        forall|i: int| 0 <= i < a.len() ==> (#[trigger] b[i].value).model() == a[i].value.model(),
        forall|i: int| 0 <= i < a.len() ==> (#[trigger] b[i].expires_at) == a[i].expires_at,
    ensures
        lookup_seq(b, k) == lookup_seq(a, k),
    decreases a.len(),
{
    if a.len() > 0 {
        let ar = a.subrange(1, a.len() as int);
        let br = b.subrange(1, b.len() as int);
        assert(forall|i: int| 0 <= i < ar.len() ==> (#[trigger] br[i].key)@ == ar[i].key@);
        assert(forall|i: int|
            0 <= i < ar.len() ==> (#[trigger] br[i].value).model() == ar[i].value.model());
        assert(forall|i: int| 0 <= i < ar.len() ==> (#[trigger] br[i].expires_at)
            == ar[i].expires_at);
        lemma_lookup_congruent(ar, br, k);
    }
}

impl MemoryDb {
    /// A structural copy: same bindings, same expiries, shared nothing.
    pub fn duplicate(&self) -> (r: MemoryDb)
        ensures
            r.wf() == self.wf(),
            forall|k: Seq<u8>| #[trigger] r.lookup(k) == self.lookup(k),
    {
        let n = self.entries.len();
        let mut out: Vec<Entry> = Vec::new();
        let mut i: usize = 0;
        while i < n
            invariant
                n == self.entries@.len(),
                i <= n,
                out@.len() == i as int,
                forall|j: int| 0 <= j < i ==> (#[trigger] out@[j].key)@ == self.entries@[j].key@,
                forall|j: int|
                    0 <= j < i ==> (#[trigger] out@[j].value).model()
                        == self.entries@[j].value.model(),
                forall|j: int|
                    0 <= j < i ==> (#[trigger] out@[j].expires_at)
                        == self.entries@[j].expires_at,
            decreases n - i,
        {
            let e = &self.entries[i];
            out.push(Entry { key: e.key.clone(), value: e.value.duplicate(), expires_at: e.expires_at });
            i = i + 1;
        }
        let r = MemoryDb { entries: out };
        proof {
            assert forall|k: Seq<u8>| #[trigger] r.lookup(k) == self.lookup(k) by {
                lemma_lookup_congruent(self.entries@, r.entries@, k);
            }
            assert forall|p: int, q: int|
                0 <= p < q < r.entries@.len() && (#[trigger] self.entries@[p].key)@ == (
            #[trigger] self.entries@[q].key)@ implies (r.entries@[p].key)@ == (
            r.entries@[q].key)@ by {}
            assert(r.wf() == self.wf()) by {
                if self.wf() {
                    assert forall|p: int, q: int|
                        0 <= p < q < r.entries@.len() implies (#[trigger] r.entries@[p].key)@
                        != (#[trigger] r.entries@[q].key)@ by {
                        assert((self.entries@[p].key)@ != (self.entries@[q].key)@);
                    }
                }
                if r.wf() {
                    assert forall|p: int, q: int|
                        0 <= p < q < self.entries@.len() implies (
                    #[trigger] self.entries@[p].key)@ != (#[trigger] self.entries@[q].key)@ by {
                        assert((r.entries@[p].key)@ != (r.entries@[q].key)@);
                    }
                }
            }
        }
        r
    }
}

impl MemoryDb {
    /// The keys currently carried, bound or lapsed: what an expiry
    /// sweep must visit. Every binding's key appears here.
    pub fn keys(&self) -> (r: Vec<Vec<u8>>)
        requires
            self.wf(),
        ensures
            forall|i: int| 0 <= i < r@.len() ==> self.lookup((#[trigger] r@[i])@) is Some,
            forall|k: Seq<u8>|
                self.lookup(k) is Some ==> exists|i: int| 0 <= i < r@.len() && (#[trigger] r@[i])@
                    == k,
    {
        let n = self.entries.len();
        let mut out: Vec<Vec<u8>> = Vec::new();
        let mut i: usize = 0;
        while i < n
            invariant
                n == self.entries@.len(),
                i <= n,
                out@.len() == i as int,
                forall|j: int| 0 <= j < i ==> (#[trigger] out@[j])@ == self.entries@[j].key@,
            decreases n - i,
        {
            out.push(self.entries[i].key.clone());
            proof {
                assert(out@[i as int]@ =~= self.entries@[i as int].key@);
            }
            i = i + 1;
        }
        let ghost es = self.entries@;
        proof {
            assert forall|j: int| 0 <= j < out@.len() implies self.lookup(
                (#[trigger] out@[j])@,
            ) is Some by {
                lemma_lookup_seq_present(es, j, es[j].key@);
            }
            assert forall|k: Seq<u8>| self.lookup(k) is Some implies exists|j: int|
                0 <= j < out@.len() && (#[trigger] out@[j])@ == k by {
                if forall|j: int| 0 <= j < es.len() ==> (#[trigger] es[j].key)@ != k {
                    lemma_lookup_absent(es, k);
                }
                let j = choose|j: int| 0 <= j < es.len() && (#[trigger] es[j].key)@ == k;
                assert(out@[j]@ == k);
            }
        }
        out
    }
}

} // verus!
