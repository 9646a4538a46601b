//! The hash index: each bucket heads a chain of the records whose keys hash
//! to it, newest first, each entry pointing back to the one before it.

use vstd::prelude::*;
use crate::log::Rec;

verus! {

/// Modulus of the key hash, a prime below 2^32.
pub const HASH_MOD: u64 = 4294967291;

/// Hash of a key's bytes: a polynomial in base 257 modulo `HASH_MOD`.
pub open spec fn key_hash(k: Seq<u8>) -> nat
    decreases k.len(),
{
    if k.len() == 0 {
        0
    } else {
        (key_hash(k.drop_last()) * 257 + k.last() as nat) % (HASH_MOD as nat)
    }
}

/// The bucket of a key among `nb` buckets.
pub open spec fn bucket_of(k: Seq<u8>, nb: nat) -> nat {
    key_hash(k) % nb
}

/// The newest of the first `i` records whose key falls in bucket `b`.
pub open spec fn latest_in(recs: Seq<Rec>, i: int, b: nat, nb: nat) -> Option<int>
    decreases i,
{
    if i <= 0 {
        None
    } else if bucket_of(recs[i - 1].0, nb) == b {
        Some(i - 1)
    } else {
        latest_in(recs, i - 1, b, nb)
    }
}

/// The newest of the first `i` records with key `k`.
pub open spec fn find(recs: Seq<Rec>, i: int, k: Seq<u8>) -> Option<int>
    decreases i,
{
    if i <= 0 {
        None
    } else if recs[i - 1].0 == k {
        Some(i - 1)
    } else {
        find(recs, i - 1, k)
    }
}

/// The value that the newest record with key `k` holds, if any does.
pub open spec fn lookup(recs: Seq<Rec>, k: Seq<u8>) -> Option<Seq<u8>> {
    match find(recs, recs.len() as int, k) {
        Some(j) => Some(recs[j].1),
        None => None,
    }
}

/// An optional index as an optional integer.
pub open spec fn opt_int(o: Option<usize>) -> Option<int> {
    match o {
        Some(j) => Some(j as int),
        None => None,
    }
}

/// The chain head `latest_in` gives is in its bucket, and no later record before `i` is.
pub proof fn lemma_latest_in(recs: Seq<Rec>, i: int, b: nat, nb: nat)
    requires
        0 <= i <= recs.len(),
    ensures
        match latest_in(recs, i, b, nb) {
            Some(c) => 0 <= c < i && bucket_of(recs[c].0, nb) == b
                && forall|j: int| c < j < i ==> bucket_of(#[trigger] recs[j].0, nb) != b,
            None => forall|j: int| 0 <= j < i ==> bucket_of(#[trigger] recs[j].0, nb) != b,
        },
    decreases i,
{
    if i > 0 {
        lemma_latest_in(recs, i - 1, b, nb);
    }
}

/// Records without key `k` do not change where `find` stops.
pub proof fn lemma_find_skip(recs: Seq<Rec>, c: int, i: int, k: Seq<u8>)
    requires
        0 <= c <= i <= recs.len(),
        forall|j: int| c <= j < i ==> #[trigger] recs[j].0 != k,
    ensures
        find(recs, i, k) == find(recs, c, k),
    decreases i,
{
    if i > c {
        lemma_find_skip(recs, c, i - 1, k);
    }
}

/// What `find` gives is an earlier record with the key.
pub proof fn lemma_find_bound(recs: Seq<Rec>, i: int, k: Seq<u8>)
    requires
        0 <= i <= recs.len(),
    ensures
        match find(recs, i, k) {
            Some(j) => 0 <= j < i && recs[j].0 == k,
            None => true,
        },
    decreases i,
{
    if i > 0 {
        lemma_find_bound(recs, i - 1, k);
    }
}

/// Appending a record leaves the chains over earlier records as they were.
pub proof fn lemma_latest_in_push(recs: Seq<Rec>, r: Rec, i: int, b: nat, nb: nat)
    requires
        0 <= i <= recs.len(),
    ensures
        latest_in(recs.push(r), i, b, nb) == latest_in(recs, i, b, nb),
    decreases i,
{
    if i > 0 {
        assert(recs.push(r)[i - 1] == recs[i - 1]);
        lemma_latest_in_push(recs, r, i - 1, b, nb);
    }
}

/// Appending a record leaves `find` over earlier records as it was.
pub proof fn lemma_find_push(recs: Seq<Rec>, r: Rec, i: int, k: Seq<u8>)
    requires
        0 <= i <= recs.len(),
    ensures
        find(recs.push(r), i, k) == find(recs, i, k),
    decreases i,
{
    if i > 0 {
        assert(recs.push(r)[i - 1] == recs[i - 1]);
        lemma_find_push(recs, r, i - 1, k);
    }
}

/// Hash of a key's bytes, as `key_hash` defines it.
pub fn hash_key(k: &[u8]) -> (r: u64)
    ensures
        r as nat == key_hash(k@),
        r < HASH_MOD,
{
    let mut h: u64 = 0;
    let mut i: usize = 0;
    while i < k.len()
        invariant
            i <= k@.len(),
            h as nat == key_hash(k@.subrange(0, i as int)),
            h < HASH_MOD,
        decreases k@.len() - i,
    {
        assert(k@.subrange(0, i + 1).drop_last() =~= k@.subrange(0, i as int));
        h = (h * 257 + k[i] as u64) % HASH_MOD;
        i = i + 1;
    }
    assert(k@.subrange(0, i as int) =~= k@);
    h
}

} // verus!
