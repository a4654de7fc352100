//! The datagram key/value store: its state and the rule that keeps the
//! version key read-only.
//!
//! Keys are unique and keep their insertion order; an insert overwrites in
//! place. Requests arrive as one record each: `key=value` inserts, any
//! other record retrieves.

use vstd::prelude::*;

verus! {

/// The store as mathematics: key and value pairs, keys unique.
pub type KvMap = Seq<(Seq<u8>, Seq<u8>)>;

/// No key twice.
pub open spec fn kv_unique(kv: KvMap) -> bool {
    forall|i: int, j: int| 0 <= i < j < kv.len() ==> kv[i].0 != kv[j].0
}

/// Position of a key, or -1.
pub open spec fn kv_index_of(kv: KvMap, key: Seq<u8>) -> int
    decreases kv.len(),
{
    if kv.len() == 0 {
        -1
    } else if kv[0].0 == key {
        0
    } else {
        let r = kv_index_of(kv.skip(1), key);
        if r < 0 {
            -1
        } else {
            r + 1
        }
    }
}

/// The value stored under a key, if any.
pub open spec fn kv_lookup(kv: KvMap, key: Seq<u8>) -> Option<Seq<u8>> {
    let i = kv_index_of(kv, key);
    if i >= 0 {
        Some(kv[i].1)
    } else {
        None
    }
}

/// The store after an insert: overwrite in place or append.
pub open spec fn kv_insert(kv: KvMap, key: Seq<u8>, value: Seq<u8>) -> KvMap
    decreases kv.len(),
{
    if kv.len() == 0 {
        seq![(key, value)]
    } else if kv[0].0 == key {
        seq![(key, value)] + kv.skip(1)
    } else {
        seq![kv[0]] + kv_insert(kv.skip(1), key, value)
    }
}

/// `kv_index_of` finds the position whose predecessors all miss.
proof fn lemma_kv_index_of_at(kv: KvMap, key: Seq<u8>, i: int)
    requires
        0 <= i < kv.len(),
        kv[i].0 == key,
        forall|j: int| 0 <= j < i ==> kv[j].0 != key,
    ensures
        kv_index_of(kv, key) == i,
    decreases i,
{
    if i > 0 {
        lemma_kv_index_of_at(kv.skip(1), key, i - 1);
    }
}

/// `kv_index_of` misses when every entry does.
proof fn lemma_kv_index_of_none(kv: KvMap, key: Seq<u8>)
    requires
        forall|j: int| 0 <= j < kv.len() ==> kv[j].0 != key,
    ensures
        kv_index_of(kv, key) == -1,
    decreases kv.len(),
{
    if kv.len() > 0 {
        lemma_kv_index_of_none(kv.skip(1), key);
    }
}

/// Inserting an existing key overwrites its entry in place.
proof fn lemma_kv_insert_found(kv: KvMap, key: Seq<u8>, value: Seq<u8>, i: int)
    requires
        0 <= i < kv.len(),
        kv[i].0 == key,
        forall|j: int| 0 <= j < i ==> kv[j].0 != key,
    ensures
        kv_insert(kv, key, value) == kv.update(i, (key, value)),
    decreases i,
{
    if i == 0 {
        assert(kv_insert(kv, key, value) =~= kv.update(0, (key, value)));
    } else {
        lemma_kv_insert_found(kv.skip(1), key, value, i - 1);
        assert(kv.skip(1).update(i - 1, (key, value)) =~= kv.update(i, (key, value)).skip(1));
        assert(kv_insert(kv, key, value) =~= kv.update(i, (key, value)));
    }
}

/// Inserting a fresh key appends its entry.
proof fn lemma_kv_insert_missing(kv: KvMap, key: Seq<u8>, value: Seq<u8>)
    requires
        forall|j: int| 0 <= j < kv.len() ==> kv[j].0 != key,
    ensures
        kv_insert(kv, key, value) == kv.push((key, value)),
    decreases kv.len(),
{
    if kv.len() == 0 {
        assert(kv_insert(kv, key, value) =~= kv.push((key, value)));
    } else {
        lemma_kv_insert_missing(kv.skip(1), key, value);
        assert(kv.skip(1).push((key, value)) =~= kv.push((key, value)).skip(1));
        assert(kv_insert(kv, key, value) =~= kv.push((key, value)));
    }
}

/// Byte-for-byte equality of two records.
fn bytes_eq(a: &Vec<u8>, b: &Vec<u8>) -> (r: bool)
    ensures
        r == (a@ == b@),
{
    let n = a.len();
    if n != b.len() {
        proof {
            assert(a@ != b@);
        }
        return false;
    }
    let mut i: usize = 0;
    while i < n
        invariant
            i <= n,
            n == a@.len(),
            n == b@.len(),
            forall|j: int| 0 <= j < i ==> a@[j] == b@[j],
        decreases n - i,
    {
        if a[i] != b[i] {
            proof {
                assert(a@[i as int] != b@[i as int]);
            }
            return false;
        }
        i = i + 1;
    }
    proof {
        assert(a@ =~= b@);
    }
    true
}

/// The store itself.
#[derive(Debug, Clone, PartialEq, Eq)]
pub struct KeyValueStore {
    store: Vec<(Vec<u8>, Vec<u8>)>,
}

impl View for KeyValueStore {
    type V = KvMap;

    closed spec fn view(&self) -> KvMap {
        self.store@.map_values(|p: (Vec<u8>, Vec<u8>)| (p.0@, p.1@))
    }
}

impl Default for KeyValueStore {
    /// An empty store.
    fn default() -> (r: Self)
        ensures
            r@ == Seq::<(Seq<u8>, Seq<u8>)>::empty(),
            r.wf(),
    {
        let r = KeyValueStore { store: Vec::new() };
        proof {
            assert(r@ =~= Seq::<(Seq<u8>, Seq<u8>)>::empty());
        }
        r
    }
}

impl KeyValueStore {
    /// The store's invariant: keys are unique.
    pub open spec fn wf(&self) -> bool {
        kv_unique(self@)
    }

    /// Position of a key in the backing vector.
    fn find_index(&self, key: &Vec<u8>) -> (r: Option<usize>)
        ensures
            match r {
                Some(i) => {
                    &&& i < self@.len()
                    &&& kv_index_of(self@, key@) == i as int
                    &&& self@[i as int].0 == key@
                    &&& forall|j: int| 0 <= j < i ==> self@[j].0 != key@
                },
                None => {
                    &&& kv_index_of(self@, key@) == -1
                    &&& forall|j: int| 0 <= j < self@.len() ==> self@[j].0 != key@
                },
            },
    {
        let n = self.store.len();
        let mut i: usize = 0;
        while i < n
            invariant
                i <= n,
                n == self.store@.len(),
                self@.len() == n,
                forall|j: int|
                    0 <= j < n ==> self@[j] == (self.store@[j].0@, self.store@[j].1@),
                forall|j: int| 0 <= j < i ==> self@[j].0 != key@,
            decreases n - i,
        {
            if bytes_eq(&self.store[i].0, key) {
                proof {
                    lemma_kv_index_of_at(self@, key@, i as int);
                }
                return Some(i);
            }
            i = i + 1;
        }
        proof {
            lemma_kv_index_of_none(self@, key@);
        }
        None
    }

    /// Store a value under a key, overwriting in place when the key is
    /// already there. The answer is always `None`: an insert is not
    /// acknowledged.
    pub fn insert(&mut self, key: &Vec<u8>, value: &Vec<u8>) -> (r: Option<Vec<u8>>)
        requires
            old(self).wf(),
        ensures
            final(self)@ == kv_insert(old(self)@, key@, value@),
            final(self).wf(),
            r is None,
    {
        match self.find_index(key) {
            Some(i) => {
                proof {
                    lemma_kv_insert_found(self@, key@, value@, i as int);
                }
                let ghost before = self@;
                self.store[i] = (key.clone(), value.clone());
                proof {
                    assert(self@ =~= before.update(i as int, (key@, value@)));
                    assert(forall|j: int| 0 <= j < self@.len() ==> self@[j].0 == before[j].0);
                }
            },
            None => {
                let ghost before = self@;
                proof {
                    lemma_kv_insert_missing(self@, key@, value@);
                }
                self.store.push((key.clone(), value.clone()));
                proof {
                    assert(self@ =~= before.push((key@, value@)));
                    assert(forall|j: int| 0 <= j < before.len() ==> self@[j] == before[j]);
                }
            },
        }
        None
    }

    /// Answer a retrieval: `key=value` when the key is known, nothing
    /// otherwise.
    pub fn retrieve(&self, key: &Vec<u8>) -> (r: Option<Vec<u8>>)
        ensures
            match kv_lookup(self@, key@) {
                Some(v) => r matches Some(line) && line@ == key@ + seq![61u8] + v,
                None => r is None,
            },
    {
        match self.find_index(key) {
            Some(i) => {
                let mut line = key.clone();
                line.push(61u8);
                let value = &self.store[i].1;
                line.extend_from_slice(value.as_slice());
                proof {
                    assert(self@[i as int].1 == self.store@[i as int].1@);
                    assert(line@ =~= key@ + seq![61u8] + self@[i as int].1);
                }
                Some(line)
            },
            None => None,
        }
    }
}

/// The key that datagrams may read but never write.
pub open spec fn version_key() -> Seq<u8> {
    seq![118u8, 101u8, 114u8, 115u8, 105u8, 111u8, 110u8]
}

/// One datagram's worth of work.
#[derive(Debug, Clone, PartialEq, Eq)]
pub enum Operation {
    Insert { key: Vec<u8>, value: Vec<u8> },
    Retrieve { key: Vec<u8> },
}

impl Operation {
    /// Read one record as an operation: everything before the first `=`
    /// is the key and the rest the value; a record without `=` retrieves.
    pub fn from_record(record: &Vec<u8>) -> (r: Operation)
        ensures
            match r {
                Operation::Insert { key, value } => {
                    &&& (key@.len() as int) < record@.len()
                    &&& record@[key@.len() as int] == 61u8
                    &&& forall|j: int| 0 <= j < key@.len() ==> record@[j] != 61u8
                    &&& key@ == record@.take(key@.len() as int)
                    &&& value@ == record@.skip(key@.len() as int + 1)
                },
                Operation::Retrieve { key } => {
                    &&& key@ == record@
                    &&& forall|j: int| 0 <= j < record@.len() ==> record@[j] != 61u8
                },
            },
    {
        let n = record.len();
        let mut i: usize = 0;
        while i < n && record[i] != 61u8
            invariant
                i <= n,
                n == record@.len(),
                forall|j: int| 0 <= j < i ==> record@[j] != 61u8,
            decreases n - i,
        {
            i = i + 1;
        }
        if i == n {
            return Operation::Retrieve { key: record.clone() };
        }
        let mut key: Vec<u8> = Vec::new();
        let mut k: usize = 0;
        while k < i
            invariant
                k <= i < n,
                n == record@.len(),
                key@ == record@.take(k as int),
            decreases i - k,
        {
            key.push(record[k]);
            assert(record@.take(k + 1) == record@.take(k as int).push(record@[k as int]));
            k = k + 1;
        }
        let mut value: Vec<u8> = Vec::new();
        let mut v: usize = i + 1;
        while v < n
            invariant
                i + 1 <= v <= n,
                n == record@.len(),
                value@ == record@.subrange(i + 1, v as int),
            decreases n - v,
        {
            value.push(record[v]);
            assert(record@.subrange(i + 1, v + 1) == record@.subrange(i + 1, v as int).push(
                record@[v as int],
            ));
            v = v + 1;
        }
        proof {
            assert(value@ =~= record@.skip(i + 1));
        }
        Operation::Insert { key, value }
    }

    /// Whether this operation may not be carried out: writing the version
    /// key is forbidden.
    pub fn is_forbidden(&self) -> (r: bool)
        ensures
            r == match self {
                Operation::Insert { key, .. } => key@ == version_key(),
                Operation::Retrieve { .. } => false,
            },
    {
        match self {
            Operation::Insert { key, .. } => {
                let version: Vec<u8> = vec![118u8, 101u8, 114u8, 115u8, 105u8, 111u8, 110u8];
                proof {
                    assert(version@ =~= version_key());
                }
                bytes_eq(key, &version)
            },
            Operation::Retrieve { .. } => false,
        }
    }
}

} // verus!
