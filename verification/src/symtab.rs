//! A fixed-bucket chained hash table keyed by short alphanumeric
//! identifiers.
//!
//! The hash of a key is the sum of the lowercased character values, each
//! weighted by a power of two, taken modulo 2^32; the bucket is the hash
//! modulo the bucket count. Each chain node stores the original key text
//! beside the hash, and lookup compares by key, so equal hashes of
//! different keys are plain collisions and never mix entries up.

use vstd::prelude::*;
use vstd::arithmetic::power2::{pow2, lemma_pow2_unfold, lemma2_to64};
use vstd::arithmetic::div_mod::{
    lemma_add_mod_noop_right,
    lemma_mul_mod_noop_left,
    lemma_mul_mod_noop_right,
};
use vstd::string::{StrSliceExecFns, StringExecFns};
use crate::errors::AsmError;

verus! {

/// A character a key may hold: an ASCII digit or letter.
pub open spec fn is_key_char(c: char) -> bool {
    let v = c as u32;
    (48 <= v && v <= 57)  // '0' ..= '9'
    || (65 <= v && v <= 90)  // 'A' ..= 'Z'
    || (97 <= v && v <= 122)  // 'a' ..= 'z'
}

/// Every character of `s` is a key character.
pub open spec fn all_key_chars(s: Seq<char>) -> bool {
    forall|i: int| 0 <= i < s.len() ==> is_key_char(#[trigger] s[i])
}

/// A valid identifier: one to ten key characters.
pub open spec fn valid_key(s: Seq<char>) -> bool {
    1 <= s.len() && s.len() <= 10 && all_key_chars(s)
}

/// The numeric value of `c` lowercased: an upper-case ASCII letter maps
/// to its lower-case counterpart, every other character to itself.
pub open spec fn lower_val(c: char) -> int {
    let v = c as u32;
    if 65 <= v && v <= 90 {
        v + 32
    } else {
        v as int
    }
}

/// The lowercased values of a whole key: the sequence the hash is
/// computed over.
pub open spec fn lower_seq(s: Seq<char>) -> Seq<int> {
    Seq::new(s.len(), |i: int| lower_val(s[i]))
}

/// The hash of the first `n` characters of `s`: the sum of
/// `lower_val(s[i]) * 2^i` over `i < n`, modulo 2^32.
pub open spec fn hash_upto(s: Seq<char>, n: int) -> int
    decreases n,
{
    if n <= 0 {
        0
    } else {
        (hash_upto(s, n - 1) + lower_val(s[n - 1]) * pow2((n - 1) as nat)) % 0x1_0000_0000
    }
}

/// The hash of a key.
pub open spec fn hash_of(s: Seq<char>) -> int {
    hash_upto(s, s.len() as int)
}

/// The hash never leaves `u32` range.
pub proof fn lemma_hash_bounds(s: Seq<char>)
    ensures
        0 <= hash_of(s) < 0x1_0000_0000,
{
    if s.len() == 0 {
    } else {
        assert(hash_of(s) == (hash_upto(s, s.len() - 1) + lower_val(s[s.len() - 1]) * pow2(
            (s.len() - 1) as nat,
        )) % 0x1_0000_0000);
    }
}

/// The hash is computed over the lowercased key: two keys whose
/// lowercased character values agree hash alike. Together with
/// `hash_of` being a function of the key text alone (so that hashing
/// a key twice gives the same value, which is what `hash_str`
/// returns), this is the stated behaviour of the hash.
pub proof fn lemma_hash_case_insensitive(k1: Seq<char>, k2: Seq<char>)
    requires
        lower_seq(k1) == lower_seq(k2),
    ensures
        hash_of(k1) == hash_of(k2),
{
    assert(k1.len() == lower_seq(k1).len());
    assert(k2.len() == lower_seq(k2).len());
    lemma_hash_upto_lower(k1, k2, k1.len() as int);
}

proof fn lemma_hash_upto_lower(k1: Seq<char>, k2: Seq<char>, n: int)
    requires
        lower_seq(k1) == lower_seq(k2),
        k1.len() == k2.len(),
        n <= k1.len(),
    ensures
        hash_upto(k1, n) == hash_upto(k2, n),
    decreases n,
{
    if n > 0 {
        lemma_hash_upto_lower(k1, k2, n - 1);
        assert(lower_seq(k1)[n - 1] == lower_val(k1[n - 1]));
        assert(lower_seq(k2)[n - 1] == lower_val(k2[n - 1]));
    }
}

/// Executable test for `is_key_char`.
fn key_char(c: char) -> (r: bool)
    ensures
        r == is_key_char(c),
{
    let v = c as u32;
    (48 <= v && v <= 57) || (65 <= v && v <= 90) || (97 <= v && v <= 122)
}

/// Character-by-character string comparison, equivalent to equality of
/// the views.
pub fn str_eq(a: &str, b: &str) -> (r: bool)
    ensures
        r == (a@ == b@),
{
    let la = a.unicode_len();
    let lb = b.unicode_len();
    if la != lb {
        return false;
    }
    let mut i: usize = 0;
    while i < la
        invariant
            i <= la,
            la == a@.len(),
            lb == b@.len(),
            la == lb,
            forall|j: int| 0 <= j < i ==> a@[j] == b@[j],
        decreases la - i,
    {
        let ca = a.get_char(i);
        let cb = b.get_char(i);
        if ca != cb {
            return false;
        }
        i += 1;
    }
    proof {
        assert(a@ =~= b@);
    }
    true
}

/// One chain entry: the stored value, the hash of its key, and the key
/// text itself, kept so that lookup can compare by key and treat hash
/// collisions soundly.
pub struct HashNode<T> {
    data: T,
    hash: u32,
    key: String,
}

/// The chained hash table. `size` is the fixed bucket count chosen at
/// construction; `hash_vect` holds one chain per bucket, most recent
/// entry at the end.
pub struct HashMap<T> {
    size: u32,
    hash_vect: Vec<Vec<HashNode<T>>>,
}

/// The value stored under key `k` in one chain: that of the most
/// recently inserted node whose key text equals `k`.
spec fn bucket_find<T>(nodes: Seq<HashNode<T>>, k: Seq<char>) -> Option<T>
    decreases nodes.len(),
{
    if nodes.len() == 0 {
        None
    } else if nodes.last().key@ == k {
        Some(nodes.last().data)
    } else {
        bucket_find(nodes.drop_last(), k)
    }
}

/// Every stored node carries a valid key, its true hash, and sits in
/// the bucket that hash selects.
spec fn wf_node<T>(node: HashNode<T>, size: int, b: int) -> bool {
    &&& valid_key(node.key@)
    &&& node.hash as int == hash_of(node.key@)
    &&& hash_of(node.key@) % size == b
}

impl<T> HashMap<T> {
    /// The bucket the key `k` falls in.
    pub closed spec fn bucket_of(self, k: Seq<char>) -> int {
        hash_of(k) % (self.size as int)
    }

    /// The table's content: the value most recently inserted under `k`.
    pub closed spec fn spec_get(self, k: Seq<char>) -> Option<T> {
        bucket_find(self.hash_vect@[self.bucket_of(k)]@, k)
    }

    /// Structural well-formedness: at least one bucket, and every
    /// stored node valid and in its place.
    pub closed spec fn wf(self) -> bool {
        &&& self.size >= 1
        &&& self.hash_vect@.len() == self.size as int
        &&& forall|b: int, j: int|
            0 <= b < self.hash_vect@.len() && 0 <= j < self.hash_vect@[b]@.len() ==> wf_node(
                #[trigger] self.hash_vect@[b]@[j],
                self.size as int,
                b,
            )
    }

    /// A table with `size` empty buckets.
    pub fn new(size: u32) -> (r: Self)
        requires
            size >= 1,
        ensures
            r.wf(),
            forall|k: Seq<char>| r.spec_get(k) is None,
    {
        let mut hash_vect: Vec<Vec<HashNode<T>>> = Vec::new();
        let mut i: u32 = 0;
        while i < size
            invariant
                i <= size,
                hash_vect@.len() == i as int,
                forall|b: int| 0 <= b < i as int ==> hash_vect@[b]@.len() == 0,
            decreases size - i,
        {
            hash_vect.push(Vec::new());
            i += 1;
        }
        let r = HashMap { size, hash_vect };
        proof {
            assert forall|k: Seq<char>| r.spec_get(k) is None by {
                assert(0 <= r.bucket_of(k) < size);
            }
        }
        r
    }

    /// The hash of `key`, or `InvalidKey` if some character is not
    /// alphanumeric. Defined for keys of any length.
    pub fn hash_str(&self, key: &str) -> (r: Result<u32, AsmError>)
        ensures
            all_key_chars(key@) ==> r == Ok::<u32, AsmError>(hash_of(key@) as u32),
            !all_key_chars(key@) ==> r == Err::<u32, AsmError>(AsmError::InvalidKey),
    {
        let len = key.unicode_len();
        let mut i: usize = 0;
        let mut hash: u32 = 0;
        let mut mult: u32 = 1;
        proof {
            lemma2_to64();
        }
        while i < len
            invariant
                i <= len,
                len == key@.len(),
                all_key_chars(key@.subrange(0, i as int)),
                hash as int == hash_upto(key@, i as int),
                mult as int == pow2(i as nat) % 0x1_0000_0000,
            decreases len - i,
        {
            let c = key.get_char(i);
            if !key_char(c) {
                assert(!all_key_chars(key@));
                return Err(AsmError::InvalidKey);
            }
            let cv = c as u32;
            let v: u32 = if 65 <= cv && cv <= 90 {
                cv + 32
            } else {
                cv
            };
            assert(v as int == lower_val(key@[i as int]));
            proof {
                assert((v as u64) * (mult as u64) <= 0xFFFF_FFFFu64 * 0xFFFF_FFFFu64)
                    by (nonlinear_arith)
                    requires
                        v as u64 <= 0xFFFF_FFFFu64,
                        mult as u64 <= 0xFFFF_FFFFu64,
                ;
            }
            let prod: u64 = (v as u64) * (mult as u64);
            let sum: u64 = (hash as u64) + prod;
            let new_hash: u32 = (sum % 0x1_0000_0000) as u32;
            proof {
                let vi = v as int;
                let p2 = pow2(i as nat) as int;
                lemma_mul_mod_noop_right(vi, p2, 0x1_0000_0000);
                lemma_add_mod_noop_right(hash as int, vi * (p2 % 0x1_0000_0000), 0x1_0000_0000);
                lemma_add_mod_noop_right(hash as int, vi * p2, 0x1_0000_0000);
                assert(new_hash as int == (hash_upto(key@, i as int) + lower_val(key@[i as int])
                    * pow2(i as nat)) % 0x1_0000_0000);
            }
            let mult2: u64 = ((mult as u64) * 2) % 0x1_0000_0000;
            proof {
                lemma_pow2_unfold((i + 1) as nat);
                lemma_mul_mod_noop_left(pow2(i as nat) as int, 2, 0x1_0000_0000);
            }
            hash = new_hash;
            mult = mult2 as u32;
            i += 1;
            proof {
                assert(all_key_chars(key@.subrange(0, i as int)));
                assert(hash as int == hash_upto(key@, i as int));
            }
        }
        proof {
            assert(key@.subrange(0, len as int) =~= key@);
        }
        Ok(hash)
    }

    /// Stores `data` under `key`, shadowing any earlier entry with the
    /// same key. Fails with `KeyTooLong` on a key over ten characters
    /// and with `InvalidKey` on an empty or non-alphanumeric one; a
    /// failed insert leaves the table unchanged.
    pub fn insert(&mut self, data: T, key: &str) -> (r: Result<(), AsmError>)
        requires
            old(self).wf(),
        ensures
            final(self).wf(),
            valid_key(key@) ==> r == Ok::<(), AsmError>(()) && final(self).spec_get(key@)
                == Some(data) && (forall|k2: Seq<char>|
                k2 != key@ ==> final(self).spec_get(k2) == old(self).spec_get(k2)),
            key@.len() > 10 ==> r == Err::<(), AsmError>(AsmError::KeyTooLong),
            key@.len() <= 10 && !valid_key(key@) ==> r == Err::<(), AsmError>(
                AsmError::InvalidKey,
            ),
            r is Err ==> *final(self) == *old(self),
    {
        let len = key.unicode_len();
        if len > 10 {
            return Err(AsmError::KeyTooLong);
        }
        if len == 0 {
            return Err(AsmError::InvalidKey);
        }
        let hash = match self.hash_str(key) {
            Ok(h) => h,
            Err(e) => {
                return Err(e);
            },
        };
        proof {
            lemma_hash_bounds(key@);
        }
        let index = (hash % self.size) as usize;
        let node = HashNode { data, hash, key: String::from_str(key) };
        let ghost old_bucket = self.hash_vect@[index as int]@;
        let ghost the_node = node;
        self.hash_vect[index].push(node);
        proof {
            let s = *self;
            let o = *old(self);
            assert(s.hash_vect@ == o.hash_vect@.update(
                index as int,
                s.hash_vect@[index as int],
            ));
            assert(s.hash_vect@[index as int]@ == old_bucket.push(the_node));
            assert forall|b: int, j: int|
                0 <= b < s.hash_vect@.len() && 0 <= j < s.hash_vect@[b]@.len() implies wf_node(
                s.hash_vect@[b]@[j],
                s.size as int,
                b,
            ) by {
                if b == index as int && j == old_bucket.len() {
                    assert(s.hash_vect@[b]@[j] == the_node);
                } else {
                    assert(s.hash_vect@[b]@[j] == o.hash_vect@[b]@[j]);
                }
            }
            assert(s.spec_get(key@) == Some(data)) by {
                assert(old_bucket.push(the_node).last() == the_node);
            }
            assert forall|k2: Seq<char>| k2 != key@ implies s.spec_get(k2) == o.spec_get(k2) by {
                if s.bucket_of(k2) == index as int {
                    assert(old_bucket.push(the_node).drop_last() =~= old_bucket);
                } else {
                    assert(s.hash_vect@[s.bucket_of(k2)] == o.hash_vect@[o.bucket_of(k2)]);
                }
            }
        }
        Ok(())
    }

    /// Looks `key` up. Returns a borrow of the most recently stored
    /// value, `KeyTooLong` or `InvalidKey` on a malformed key, and
    /// `NotFound` when a valid key has no entry.
    pub fn get(&self, key: &str) -> (r: Result<&T, AsmError>)
        requires
            self.wf(),
        ensures
            match r {
                Ok(v) => valid_key(key@) && self.spec_get(key@) == Some(*v),
                Err(AsmError::KeyTooLong) => key@.len() > 10,
                Err(AsmError::InvalidKey) => key@.len() <= 10 && !valid_key(key@),
                Err(AsmError::NotFound) => valid_key(key@) && self.spec_get(key@) is None,
                Err(_) => false,
            },
    {
        let len = key.unicode_len();
        if len > 10 {
            return Err(AsmError::KeyTooLong);
        }
        if len == 0 {
            return Err(AsmError::InvalidKey);
        }
        let hash = match self.hash_str(key) {
            Ok(h) => h,
            Err(e) => {
                return Err(e);
            },
        };
        proof {
            lemma_hash_bounds(key@);
        }
        let index = (hash % self.size) as usize;
        let bucket = &self.hash_vect[index];
        let mut j = bucket.len();
        proof {
            assert(bucket@.subrange(0, j as int) =~= bucket@);
        }
        while j > 0
            invariant
                j <= bucket@.len(),
                self.wf(),
                bucket@ == self.hash_vect@[index as int]@,
                index as int == self.bucket_of(key@),
                bucket_find(bucket@.subrange(0, j as int), key@) == self.spec_get(key@),
            decreases j,
        {
            j -= 1;
            let node = &bucket[j];
            let ghost prefix = bucket@.subrange(0, j as int + 1);
            proof {
                assert(prefix.last() == bucket@[j as int]);
                assert(prefix.drop_last() =~= bucket@.subrange(0, j as int));
            }
            if str_eq(node.key.as_str(), key) {
                return Ok(&node.data);
            }
        }
        proof {
            assert(bucket@.subrange(0, 0) =~= Seq::<HashNode<T>>::empty());
        }
        Err(AsmError::NotFound)
    }
}

proof fn lemma_bucket_find_key<T>(nodes: Seq<HashNode<T>>, k: Seq<char>)
    requires
        bucket_find(nodes, k) is Some,
    ensures
        exists|j: int| 0 <= j < nodes.len() && nodes[j].key@ == k,
    decreases nodes.len(),
{
    if nodes.last().key@ == k {
        assert(nodes[nodes.len() - 1].key@ == k);
    } else {
        lemma_bucket_find_key(nodes.drop_last(), k);
        let j = choose|j: int| 0 <= j < nodes.drop_last().len() && nodes.drop_last()[j].key@ == k;
        assert(nodes[j].key@ == k);
    }
}

/// Only valid identifiers are ever stored: a key the table holds a
/// value under is a valid key.
pub proof fn lemma_spec_get_valid<T>(m: HashMap<T>, k: Seq<char>)
    requires
        m.wf(),
        m.spec_get(k) is Some,
    ensures
        valid_key(k),
{
    let b = m.bucket_of(k);
    assert(0 <= b < m.hash_vect@.len());
    lemma_bucket_find_key(m.hash_vect@[b]@, k);
    let j = choose|j: int| 0 <= j < m.hash_vect@[b]@.len() && m.hash_vect@[b]@[j].key@ == k;
    assert(wf_node(m.hash_vect@[b]@[j], m.size as int, b));
}

/// An ordered `(value, key)` pair as the dictionary collaborator hands
/// them over.
pub struct ExtractedData<T> {
    pub data: T,
    pub key: String,
}

/// Every pair carries a valid identifier as its key.
pub open spec fn all_pairs_valid<T>(pairs: Seq<ExtractedData<T>>) -> bool {
    forall|i: int| 0 <= i < pairs.len() ==> valid_key(#[trigger] pairs[i].key@)
}

/// The value the most recent pair with key `k` carries, if any.
pub open spec fn lookup_pairs<T>(pairs: Seq<ExtractedData<T>>, k: Seq<char>) -> Option<T>
    decreases pairs.len(),
{
    if pairs.len() == 0 {
        None
    } else if pairs.last().key@ == k {
        Some(pairs.last().data)
    } else {
        lookup_pairs(pairs.drop_last(), k)
    }
}

impl<T> HashMap<T> {
    /// Inserts the pairs in order, draining the vector: an entry later
    /// in `extracted_data` shadows an earlier one with the same key.
    /// Succeeds exactly when every key is a valid identifier, as the
    /// dictionary collaborator guarantees of the dictionaries it
    /// supplies.
    pub fn build(&mut self, extracted_data: &mut Vec<ExtractedData<T>>) -> (r: Result<
        (),
        AsmError,
    >)
        requires
            old(self).wf(),
        ensures
            final(self).wf(),
            r is Ok <==> all_pairs_valid(old(extracted_data)@),
            r is Ok ==> forall|k: Seq<char>|
                final(self).spec_get(k) == match lookup_pairs(old(extracted_data)@, k) {
                    Some(v) => Some(v),
                    None => old(self).spec_get(k),
                },
    {
        let ghost orig = old(extracted_data)@;
        let ghost done: int = 0;
        while extracted_data.len() > 0
            invariant
                self.wf(),
                orig == old(extracted_data)@,
                0 <= done <= orig.len(),
                extracted_data@ =~= orig.subrange(done, orig.len() as int),
                forall|i: int| 0 <= i < done ==> valid_key(#[trigger] orig[i].key@),
                forall|k: Seq<char>|
                    self.spec_get(k) == match lookup_pairs(orig.subrange(0, done), k) {
                        Some(v) => Some(v),
                        None => old(self).spec_get(k),
                    },
            decreases extracted_data@.len(),
        {
            let pair = extracted_data.remove(0);
            proof {
                assert(pair == orig[done]);
            }
            let ExtractedData { data, key } = pair;
            let res = self.insert(data, key.as_str());
            if let Err(e) = res {
                proof {
                    assert(0 <= done < orig.len());
                    assert(!valid_key(orig[done].key@));
                    if all_pairs_valid(orig) {
                        assert(valid_key(orig[done].key@));
                        assert(false);
                    }
                    assert(!all_pairs_valid(orig));
                }
                return Err(e);
            }
            proof {
                let ghost prev = done;
                done = done + 1;
                assert(valid_key(orig[prev].key@));
                assert(extracted_data@ =~= orig.subrange(done, orig.len() as int));
                assert forall|k: Seq<char>|
                    self.spec_get(k) == match lookup_pairs(orig.subrange(0, done), k) {
                        Some(v) => Some(v),
                        None => old(self).spec_get(k),
                    } by {
                    let pre = orig.subrange(0, done);
                    assert(pre.last() == orig[prev]);
                    assert(pre.drop_last() =~= orig.subrange(0, prev));
                }
            }
        }
        proof {
            assert(orig.subrange(0, done) =~= orig);
        }
        Ok(())
    }
}

} // verus!
