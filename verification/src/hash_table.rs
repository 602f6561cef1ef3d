//! A hash table with a fixed number of buckets, each a chained list of keys.

use vstd::prelude::*;
use vstd::arithmetic::div_mod::{lemma_add_mod_noop, lemma_mod_bound, lemma_small_mod};
use vstd::utf8::encode_utf8;
use crate::linked_list::LinkedList;
use crate::queue::Queue;

verus! {

/// Tables with more buckets than this use the weighted-fold hash.
pub const FOLD_THRESHOLD: usize = 30;

/// The weight of a byte that is not divisible by four.
pub const FOLD_WEIGHT: u64 = 255;

/// Why a table could not be built.
#[derive(Debug, Clone, Copy, PartialEq, Eq, Structural)]
pub enum TableError {
    /// A table needs at least one bucket.
    ZeroRows,
}

/// The bytes of a key: its UTF-8 encoding.
pub open spec fn key_bytes(key: Seq<char>) -> Seq<u8> {
    encode_utf8(key)
}

/// The sum of the byte values.
pub open spec fn additive_sum(bytes: Seq<u8>) -> nat
    decreases bytes.len(),
{
    if bytes.len() == 0 {
        0
    } else {
        additive_sum(bytes.drop_last()) + bytes.last() as nat
    }
}

/// What one byte adds to the weighted sum: itself if it is divisible by
/// four, and 255 times itself otherwise.
pub open spec fn byte_weight(byte: u8) -> nat {
    if byte % 4 == 0 {
        byte as nat
    } else {
        byte as nat * 255
    }
}

/// The sum of the weighted byte values.
pub open spec fn weighted_sum(bytes: Seq<u8>) -> nat
    decreases bytes.len(),
{
    if bytes.len() == 0 {
        0
    } else {
        weighted_sum(bytes.drop_last()) + byte_weight(bytes.last())
    }
}

/// The additive hash: the byte sum modulo the number of buckets.
pub open spec fn additive_hash(key: Seq<char>, rows_count: nat) -> nat {
    additive_sum(key_bytes(key)) % rows_count
}

/// The weighted-fold hash: the weighted byte sum modulo the number of
/// buckets.
pub open spec fn weighted_fold_hash(key: Seq<char>, rows_count: nat) -> nat {
    weighted_sum(key_bytes(key)) % rows_count
}

/// The bucket a key belongs to. The hash is chosen by the number of
/// buckets alone.
pub open spec fn bucket_index(key: Seq<char>, rows_count: nat) -> nat {
    if rows_count > FOLD_THRESHOLD {
        weighted_fold_hash(key, rows_count)
    } else {
        additive_hash(key, rows_count)
    }
}

/// The number of keys in all buckets together.
pub open spec fn total_len(buckets: Seq<Seq<Seq<char>>>) -> nat
    decreases buckets.len(),
{
    if buckets.len() == 0 {
        0
    } else {
        total_len(buckets.drop_last()) + buckets.last().len()
    }
}

/// Every key sits in the bucket that its hash names.
pub open spec fn keys_at_home(buckets: Seq<Seq<Seq<char>>>) -> bool {
    forall|i: int, j: int|
        0 <= i < buckets.len() && 0 <= j < buckets[i].len() ==> bucket_index(
            #[trigger] buckets[i][j],
            buckets.len(),
        ) == i
}

/// The buckets after `key` went to the end of its home bucket.
pub open spec fn inserted(buckets: Seq<Seq<Seq<char>>>, key: Seq<char>) -> Seq<Seq<Seq<char>>> {
    let home = bucket_index(key, buckets.len()) as int;
    buckets.update(home, buckets[home].push(key))
}

/// The text of each key of a bucket.
pub open spec fn texts(keys: Seq<String>) -> Seq<Seq<char>> {
    keys.map_values(|key: String| key@)
}

/// A table of `count` empty buckets.
pub open spec fn empty_buckets(count: nat) -> Seq<Seq<Seq<char>>> {
    Seq::new(count, |i: int| Seq::<Seq<char>>::empty())
}

/// Empty buckets hold no key.
pub proof fn lemma_total_len_empty(count: nat)
    ensures
        total_len(empty_buckets(count)) == 0,
        keys_at_home(empty_buckets(count)),
    decreases count,
{
    if count > 0 {
        assert(empty_buckets(count).drop_last() =~= empty_buckets((count - 1) as nat));
        lemma_total_len_empty((count - 1) as nat);
    }
}

/// No bucket holds more keys than the whole table.
pub proof fn lemma_total_len_bounds(buckets: Seq<Seq<Seq<char>>>, i: int)
    requires
        0 <= i < buckets.len(),
    ensures
        buckets[i].len() <= total_len(buckets),
    decreases buckets.len(),
{
    if i < buckets.len() - 1 {
        lemma_total_len_bounds(buckets.drop_last(), i);
    }
}

/// One more key in one bucket is one more key in the table.
pub proof fn lemma_total_len_push(buckets: Seq<Seq<Seq<char>>>, i: int, key: Seq<char>)
    requires
        0 <= i < buckets.len(),
    ensures
        total_len(buckets.update(i, buckets[i].push(key))) == total_len(buckets) + 1,
    decreases buckets.len(),
{
    let after = buckets.update(i, buckets[i].push(key));
    if i < buckets.len() - 1 {
        assert(after.drop_last() =~= buckets.drop_last().update(
            i,
            buckets.drop_last()[i].push(key),
        ));
        lemma_total_len_push(buckets.drop_last(), i, key);
    } else {
        assert(after.drop_last() =~= buckets.drop_last());
    }
}

/// The buckets after each of `keys` was inserted in turn.
pub open spec fn inserted_all(buckets: Seq<Seq<Seq<char>>>, keys: Seq<Seq<char>>) -> Seq<
    Seq<Seq<char>>,
>
    decreases keys.len(),
{
    if keys.len() == 0 {
        buckets
    } else {
        inserted_all(inserted(buckets, keys[0]), keys.drop_first())
    }
}

/// Both hashes name a bucket that exists.
pub proof fn lemma_bucket_index_in_range(key: Seq<char>, rows_count: nat)
    requires
        rows_count > 0,
    ensures
        additive_hash(key, rows_count) < rows_count,
        weighted_fold_hash(key, rows_count) < rows_count,
        bucket_index(key, rows_count) < rows_count,
{
    lemma_mod_bound(additive_sum(key_bytes(key)) as int, rows_count as int);
    lemma_mod_bound(weighted_sum(key_bytes(key)) as int, rows_count as int);
}

/// One insertion keeps the number of buckets, adds one key to the
/// table and leaves every key in its home bucket.
pub proof fn lemma_inserted(buckets: Seq<Seq<Seq<char>>>, key: Seq<char>)
    requires
        buckets.len() > 0,
        keys_at_home(buckets),
    ensures
        inserted(buckets, key).len() == buckets.len(),
        total_len(inserted(buckets, key)) == total_len(buckets) + 1,
        keys_at_home(inserted(buckets, key)),
{
    lemma_bucket_index_in_range(key, buckets.len());
    lemma_total_len_push(buckets, bucket_index(key, buckets.len()) as int, key);
}

/// The table invariant: after any sequence of insertions into an empty
/// table of `rows_count` buckets, the table still has `rows_count`
/// buckets, the bucket lengths add up to the number of insertions, and
/// every key sits in the bucket that its hash names, which is one of
/// the table's buckets.
pub proof fn lemma_inserted_all(rows_count: nat, keys: Seq<Seq<char>>)
    requires
        rows_count > 0,
    ensures
        inserted_all(empty_buckets(rows_count), keys).len() == rows_count,
        total_len(inserted_all(empty_buckets(rows_count), keys)) == keys.len(),
        keys_at_home(inserted_all(empty_buckets(rows_count), keys)),
        forall|k: int| 0 <= k < keys.len() ==> bucket_index(#[trigger] keys[k], rows_count) < rows_count,
{
    lemma_total_len_empty(rows_count);
    lemma_inserted_all_from(empty_buckets(rows_count), keys);
    assert forall|k: int| 0 <= k < keys.len() implies bucket_index(#[trigger] keys[k], rows_count)
        < rows_count by {
        lemma_bucket_index_in_range(keys[k], rows_count);
    }
}

/// Insertions into any table that satisfies the invariant keep it.
pub proof fn lemma_inserted_all_from(buckets: Seq<Seq<Seq<char>>>, keys: Seq<Seq<char>>)
    requires
        buckets.len() > 0,
        keys_at_home(buckets),
    ensures
        inserted_all(buckets, keys).len() == buckets.len(),
        total_len(inserted_all(buckets, keys)) == total_len(buckets) + keys.len(),
        keys_at_home(inserted_all(buckets, keys)),
    decreases keys.len(),
{
    if keys.len() > 0 {
        lemma_inserted(buckets, keys[0]);
        lemma_inserted_all_from(inserted(buckets, keys[0]), keys.drop_first());
    }
}

/// Routing depends on the key and the number of buckets alone: an
/// insertion never changes where a key belongs, so a key that is
/// inserted again lands in the same bucket, behind its first copy.
pub proof fn lemma_same_key_same_bucket(
    buckets: Seq<Seq<Seq<char>>>,
    key: Seq<char>,
    other: Seq<char>,
)
    requires
        buckets.len() > 0,
    ensures
        bucket_index(key, inserted(buckets, other).len()) == bucket_index(key, buckets.len()),
        inserted(inserted(buckets, key), key) == buckets.update(
            bucket_index(key, buckets.len()) as int,
            buckets[bucket_index(key, buckets.len()) as int].push(key).push(key),
        ),
{
    lemma_bucket_index_in_range(key, buckets.len());
    lemma_bucket_index_in_range(other, buckets.len());
    let home = bucket_index(key, buckets.len()) as int;
    assert(inserted(inserted(buckets, key), key) =~= buckets.update(
        home,
        buckets[home].push(key).push(key),
    ));
}

/// A multiset of text keys, spread over a fixed number of buckets.
pub struct HashTable {
    size: usize,
    rows_count: usize,
    rows: Vec<LinkedList<String>>,
}

impl HashTable {
    /// The keys of every bucket, in bucket order and, within a bucket,
    /// in the order they were inserted.
    pub closed spec fn buckets(&self) -> Seq<Seq<Seq<char>>> {
        Seq::new(self.rows@.len(), |i: int| texts(self.rows@[i]@))
    }

    /// The number of buckets the table was built with.
    pub closed spec fn bucket_count(&self) -> nat {
        self.rows_count as nat
    }

    /// The number of insertions so far.
    pub closed spec fn total(&self) -> nat {
        self.size as nat
    }

    /// The table's invariant: it has as many buckets as it was built
    /// with, at least one, its counter is the number of stored keys, and
    /// every key sits in its home bucket.
    pub closed spec fn wf(&self) -> bool {
        &&& 0 < self.rows_count <= u32::MAX
        &&& self.rows@.len() == self.rows_count
        &&& forall|i: int| 0 <= i < self.rows@.len() ==> (#[trigger] self.rows@[i]).wf()
        &&& self.size == total_len(self.buckets())
        &&& keys_at_home(self.buckets())
    }

    /// Every well-formed table satisfies the table invariant: its
    /// counter is the sum of its bucket lengths, and every stored key
    /// sits in the bucket that its hash names.
    pub proof fn lemma_invariant(&self)
        requires
            self.wf(),
        ensures
            self.bucket_count() > 0,
            self.buckets().len() == self.bucket_count(),
            self.total() == total_len(self.buckets()),
            keys_at_home(self.buckets()),
    {
    }

    /// A table with ten buckets and no keys.
    pub fn new() -> (table: Self)
        ensures
            table.wf(),
            table.bucket_count() == 10,
            table.total() == 0,
            table.buckets() == empty_buckets(10),
    {
        let mut rows: Vec<LinkedList<String>> = Vec::new();
        let rows_count: usize = 10;
        for k in 0..rows_count
            invariant
                rows@.len() == k,
                forall|i: int| 0 <= i < rows@.len() ==> (#[trigger] rows@[i]).wf(),
                forall|i: int| 0 <= i < rows@.len() ==> (#[trigger] rows@[i])@.len() == 0,
        {
            rows.push(LinkedList::new());
        }
        let table = HashTable { size: 0, rows: rows, rows_count };
        proof {
            assert(table.buckets() =~~= empty_buckets(10));
            lemma_total_len_empty(10);
        }
        table
    }

    /// A table with `rows_count` buckets and no keys. A table cannot
    /// have zero buckets.
    pub fn new_with_custom_size(rows_count: u32) -> (built: Result<Self, TableError>)
        ensures
            rows_count == 0 <==> built is Err,
            built matches Err(error) ==> error == TableError::ZeroRows,
            built matches Ok(table) ==> {
                &&& table.wf()
                &&& table.bucket_count() == rows_count
                &&& table.total() == 0
                &&& table.buckets() == empty_buckets(rows_count as nat)
            },
    {
        if rows_count == 0 {
            return Err(TableError::ZeroRows);
        }
        let mut rows: Vec<LinkedList<String>> = Vec::new();
        for k in 0..rows_count
            invariant
                rows@.len() == k,
                forall|i: int| 0 <= i < rows@.len() ==> (#[trigger] rows@[i]).wf(),
                forall|i: int| 0 <= i < rows@.len() ==> (#[trigger] rows@[i])@.len() == 0,
        {
            rows.push(LinkedList::new());
        }
        let table = HashTable { size: 0, rows: rows, rows_count: rows_count as usize };
        proof {
            assert(table.buckets() =~~= empty_buckets(rows_count as nat));
            lemma_total_len_empty(rows_count as nat);
        }
        Ok(table)
    }

    /// The number of buckets.
    pub fn rows_count(&self) -> (count: usize)
        ensures
            count == self.bucket_count(),
    {
        self.rows_count
    }

    /// The number of keys inserted so far.
    pub fn size(&self) -> (count: usize)
        ensures
            count == self.total(),
    {
        self.size
    }

    /// The additive hash of `elem` for this table.
    pub fn hash(&self, elem: String) -> (index: usize)
        requires
            self.wf(),
        ensures
            index == additive_hash(elem@, self.bucket_count()),
            index < self.bucket_count(),
    {
        let bytes = elem.as_str().as_bytes();
        let modulus: u64 = self.rows_count as u64;
        let mut sum: u64 = 0;
        let mut i: usize = 0;
        while i < bytes.len()
            invariant
                0 < modulus <= u32::MAX,
                i <= bytes@.len(),
                sum == additive_sum(bytes@.take(i as int)) % (modulus as nat),
            decreases bytes@.len() - i,
        {
            let byte = bytes[i];
            proof {
                let done = bytes@.take(i as int);
                let next = bytes@.take(i + 1);
                assert(next.drop_last() =~= done);
                assert(next.last() == byte);
                lemma_mod_bound(additive_sum(done) as int, modulus as int);
                lemma_add_mod_noop(additive_sum(done) as int, byte as int, modulus as int);
                lemma_add_mod_noop(sum as int, byte as int, modulus as int);
                lemma_small_mod(sum as nat, modulus as nat);
            }
            sum = (sum + byte as u64) % modulus;
            i += 1;
        }
        proof {
            assert(bytes@.take(i as int) =~= bytes@);
            lemma_mod_bound(additive_sum(bytes@) as int, modulus as int);
        }
        sum as usize
    }

    /// The weighted-fold hash of `elem` for this table.
    pub fn hash_with_string_folding(&self, elem: String) -> (index: usize)
        requires
            self.wf(),
        ensures
            index == weighted_fold_hash(elem@, self.bucket_count()),
            index < self.bucket_count(),
    {
        let bytes = elem.as_str().as_bytes();
        let modulus: u64 = self.rows_count as u64;
        let mut sum: u64 = 0;
        let mut i: usize = 0;
        while i < bytes.len()
            invariant
                0 < modulus <= u32::MAX,
                i <= bytes@.len(),
                sum == weighted_sum(bytes@.take(i as int)) % (modulus as nat),
            decreases bytes@.len() - i,
        {
            let byte = bytes[i];
            let mult: u64 = if byte % 4 == 0 {
                1
            } else {
                FOLD_WEIGHT
            };
            assert(byte as u64 * mult <= 65025) by (nonlinear_arith)
                requires
                    byte <= 255,
                    mult <= 255,
            ;
            let weighted: u64 = byte as u64 * mult;
            proof {
                let done = bytes@.take(i as int);
                let next = bytes@.take(i + 1);
                assert(next.drop_last() =~= done);
                assert(next.last() == byte);
                assert(weighted == byte_weight(byte));
                lemma_mod_bound(weighted_sum(done) as int, modulus as int);
                lemma_add_mod_noop(weighted_sum(done) as int, weighted as int, modulus as int);
                lemma_add_mod_noop(sum as int, weighted as int, modulus as int);
                lemma_small_mod(sum as nat, modulus as nat);
            }
            sum = (sum + weighted) % modulus;
            i += 1;
        }
        proof {
            assert(bytes@.take(i as int) =~= bytes@);
            lemma_mod_bound(weighted_sum(bytes@) as int, modulus as int);
        }
        sum as usize
    }

    /// Appends `elem` to the end of its home bucket. Equal keys are kept
    /// side by side; nothing is ever overwritten.
    pub fn insert(&mut self, elem: String)
        requires
            old(self).wf(),
            old(self).total() < usize::MAX,
        ensures
            final(self).wf(),
            final(self).bucket_count() == old(self).bucket_count(),
            final(self).total() == old(self).total() + 1,
            final(self).buckets() == inserted(old(self).buckets(), elem@),
    {
        let hash = if self.rows_count > FOLD_THRESHOLD {
            self.hash_with_string_folding(elem.clone())
        } else {
            self.hash(elem.clone())
        };
        let ghost before = self.buckets();
        proof {
            lemma_total_len_bounds(before, hash as int);
            lemma_total_len_push(before, hash as int, elem@);
            assert(texts(self.rows@[hash as int]@.push(elem)) =~= texts(
                self.rows@[hash as int]@,
            ).push(elem@));
        }
        self.rows[hash].append(elem);
        self.size += 1;
        proof {
            assert(self.buckets() =~~= inserted(before, elem@));
        }
    }

    /// The keys of every bucket, in bucket order: each entry pairs a
    /// bucket's index with its keys in insertion order.
    pub fn dump(&self) -> (snapshot: Vec<(usize, Vec<String>)>)
        requires
            self.wf(),
        ensures
            snapshot@.len() == self.bucket_count(),
            forall|i: int|
                0 <= i < snapshot@.len() ==> (#[trigger] snapshot@[i]).0 == i && texts(
                    snapshot@[i].1@,
                ) == self.buckets()[i],
    {
        let mut snapshot: Vec<(usize, Vec<String>)> = Vec::new();
        let mut i: usize = 0;
        while i < self.rows.len()
            invariant
                i <= self.rows@.len(),
                snapshot@.len() == i,
                forall|k: int|
                    0 <= k < snapshot@.len() ==> (#[trigger] snapshot@[k]).0 == k && texts(
                        snapshot@[k].1@,
                    ) == self.buckets()[k],
            decreases self.rows@.len() - i,
        {
            let keys = self.rows[i].to_vec();
            let mut copies: Vec<String> = Vec::new();
            let mut j: usize = 0;
            while j < keys.len()
                invariant
                    j <= keys@.len(),
                    copies@.len() == j,
                    forall|k: int| 0 <= k < copies@.len() ==> (#[trigger] copies@[k])@ == keys@[k]@,
                decreases keys@.len() - j,
            {
                copies.push(keys[j].clone());
                j += 1;
            }
            proof {
                assert(texts(copies@) =~= self.buckets()[i as int]);
            }
            snapshot.push((i, copies));
            i += 1;
        }
        snapshot
    }
}

} // verus!
