//! The store: a data log, a hash index over it, and the end of the log as of
//! the last batch, which is what survives a restart.

use vstd::prelude::*;
use crate::index::{bucket_of, find, hash_key, latest_in, lemma_find_push, lemma_find_skip, lemma_latest_in, lemma_latest_in_push, lookup, opt_int};
use crate::log::{all_fit, parse_log, append_record, lemma_log_image_at, lemma_log_image_push, lemma_log_image_split, lemma_parse_rec_bytes, log_image, parse_rec, read_record, rec_bytes, rec_fits, Rec};
use crate::types::{be_bytes, be_value, decode_offset, encode_offset, lemma_pow256_values, pow256, DbError, Offset, MASK48, PAGE_SIZE};

verus! {

/// Most bytes the data log may hold: every one of them must be addressable
/// by a 48-bit offset.
pub const LOG_LIMIT: u64 = 0xffff_ffff_ffff;

/// What a batch hands to the file layer, to be written in this order: the
/// log's bytes from `start` on (page-aligned), then, once those are on
/// stable storage, the header that records the new end of the log.
pub struct Commit {
    pub start: u64,
    pub data: Vec<u8>,
    pub header: Vec<u8>,
}

/// The records that a restart reads back from a header and a data log:
/// the header gives the end of the log, and the log up to there must be a
/// whole sequence of records.
pub open spec fn recovered(header: Seq<u8>, log: Seq<u8>) -> Result<Seq<Rec>, DbError> {
    if header.len() < 6 {
        Err(DbError::Format)
    } else {
        let end = be_value(header.subrange(0, 6));
        if end > log.len() {
            Err(DbError::CorruptRecord)
        } else {
            match parse_log(log.subrange(0, end as int)) {
                Some(rs) => Ok(rs),
                None => Err(DbError::CorruptRecord),
            }
        }
    }
}

/// The records `p` followed by those of `o`, if `o` holds any sequence.
pub open spec fn prepend(p: Seq<Rec>, o: Option<Seq<Rec>>) -> Option<Seq<Rec>> {
    match o {
        Some(y) => Some(p + y),
        None => None,
    }
}

/// A key-value store over an append-only log with a chained hash index.
///
/// Entry `i` of the index stands for the `i`-th record put: `starts[i]` is
/// where the record begins in the log and `prevs[i]` the entry before it in
/// its bucket's chain. Each bucket of `heads` holds the newest entry of its
/// chain. `durable_end` is the end of the log as of the last batch.
///
/// The whole log and the index are held in memory; the file layer keeps only
/// the log and a header with its durable end. There are no on-disk index
/// pages and no bucket table in the header: `recover` rebuilds the index by
/// reading the durable log from the start.
pub struct Engine {
    log: Vec<u8>,
    starts: Vec<usize>,
    prevs: Vec<Option<usize>>,
    heads: Vec<Option<usize>>,
    durable_end: usize,
    recs: Ghost<Seq<Rec>>,
    durable: Ghost<nat>,
}

impl Engine {
    /// The records put so far, oldest first.
    pub closed spec fn records(&self) -> Seq<Rec> {
        self.recs@
    }

    /// How many of the records the last batch made durable.
    pub closed spec fn durable_count(&self) -> nat {
        self.durable@
    }

    /// The number of buckets of the index.
    pub closed spec fn buckets(&self) -> nat {
        self.heads@.len()
    }

    /// The records that survive a restart.
    pub open spec fn durable_records(&self) -> Seq<Rec> {
        self.records().take(self.durable_count() as int)
    }

    /// The log holds the records' bytes, and each chain links the entries
    /// of its bucket from newest to oldest.
    pub closed spec fn wf(&self) -> bool {
        let recs = self.recs@;
        let nb = self.heads@.len();
        &&& nb > 0
        &&& all_fit(recs)
        &&& self.log@ == log_image(recs)
        &&& self.log@.len() <= LOG_LIMIT
        &&& self.starts@.len() == recs.len()
        &&& self.prevs@.len() == recs.len()
        &&& forall|i: int| 0 <= i < recs.len()
            ==> #[trigger] self.starts@[i] == log_image(recs.take(i)).len()
        &&& forall|i: int| 0 <= i < recs.len()
            ==> opt_int(#[trigger] self.prevs@[i]) == latest_in(recs, i, bucket_of(recs[i].0, nb), nb)
        &&& forall|b: int| 0 <= b < nb
            ==> opt_int(#[trigger] self.heads@[b]) == latest_in(recs, recs.len() as int, b as nat, nb)
        &&& self.durable@ <= recs.len()
        &&& self.durable_end == log_image(recs.take(self.durable@ as int)).len()
    }

    /// An empty store with `buckets` buckets.
    pub fn new(buckets: usize) -> (r: Result<Engine, DbError>)
        ensures
            match r {
                Ok(e) => buckets > 0 && e.wf() && e.records() == Seq::<Rec>::empty()
                    && e.durable_count() == 0 && e.buckets() == buckets,
                Err(err) => buckets == 0 && err == DbError::Capacity,
            },
    {
        if buckets == 0 {
            return Err(DbError::Capacity);
        }
        let mut heads: Vec<Option<usize>> = Vec::new();
        let mut i: usize = 0;
        while i < buckets
            invariant
                i <= buckets,
                heads@.len() == i,
                forall|b: int| 0 <= b < i ==> #[trigger] heads@[b] == None::<usize>,
            decreases buckets - i,
        {
            heads.push(None);
            i = i + 1;
        }
        let e = Engine {
            log: Vec::new(),
            starts: Vec::new(),
            prevs: Vec::new(),
            heads,
            durable_end: 0,
            recs: Ghost(Seq::empty()),
            durable: Ghost(0),
        };
        assert(Seq::<Rec>::empty().take(0) =~= Seq::<Rec>::empty());
        Ok(e)
    }

    /// The value of the newest record with `key`, or `None` where no record has it.
    pub fn get(&self, key: &[u8]) -> (r: Result<Option<Vec<u8>>, DbError>)
        requires
            self.wf(),
        ensures
            match r {
                Ok(Some(v)) => lookup(self.records(), key@) == Some(v@),
                Ok(None) => lookup(self.records(), key@) == None::<Seq<u8>>,
                Err(_) => false,
            },
    {
        let ghost recs = self.recs@;
        let ghost nb = self.heads@.len();
        let ghost n = recs.len() as int;
        let nbu = self.heads.len();
        let b = (hash_key(key) % (nbu as u64)) as usize;
        assert(b as nat == bucket_of(key@, nb));
        let mut cur = self.heads[b];
        let ghost mut lim: int = n;
        loop
            invariant
                self.wf(),
                recs == self.recs@,
                nb == self.heads@.len(),
                n == recs.len(),
                b as nat == bucket_of(key@, nb),
                0 <= lim <= n,
                opt_int(cur) == latest_in(recs, lim, b as nat, nb),
                find(recs, n, key@) == find(recs, lim, key@),
            decreases lim,
        {
            proof {
                lemma_latest_in(recs, lim, b as nat, nb);
            }
            match cur {
                None => {
                    proof {
                        lemma_find_skip(recs, 0, lim, key@);
                    }
                    return Ok(None);
                },
                Some(c) => {
                    proof {
                        lemma_record_at(recs, c as int);
                    }
                    let rec = read_record(self.log.as_slice(), self.starts[c]);
                    match rec {
                        Ok((k, v, _)) => {
                            if bytes_eq(k.as_slice(), key) {
                                proof {
                                    lemma_find_skip(recs, c as int + 1, lim, key@);
                                }
                                return Ok(Some(v));
                            }
                            proof {
                                lemma_find_skip(recs, c as int, lim, key@);
                                lim = c as int;
                            }
                            cur = self.prevs[c];
                        },
                        Err(e) => {
                            return Err(e);
                        },
                    }
                },
            }
        }
    }

    /// Appends the record of `key` and `value` and points the index at it.
    /// The record is visible to `get` at once and durable after the next
    /// batch. Fails where a length does not fit 24 bits or the log would
    /// outgrow 48-bit offsets.
    pub fn put(&mut self, key: &[u8], value: &[u8]) -> (r: Result<(), DbError>)
        requires
            old(self).wf(),
        ensures
            final(self).wf(),
            final(self).buckets() == old(self).buckets(),
            final(self).durable_count() == old(self).durable_count(),
            match r {
                Ok(()) => final(self).records() == old(self).records().push((key@, value@)),
                Err(e) => e == DbError::Capacity && final(self).records() == old(self).records()
                    && (!rec_fits((key@, value@))
                        || log_image(old(self).records()).len() + key@.len() + value@.len() + 6 > LOG_LIMIT),
            },
            r is Err <==> (!rec_fits((key@, value@))
                || log_image(old(self).records()).len() + key@.len() + value@.len() + 6 > LOG_LIMIT),
    {
        let ghost recs = self.recs@;
        let ghost nb = self.heads@.len();
        let ghost n = recs.len() as int;
        let ghost r: Rec = (key@, value@);
        if key.len() > crate::types::MAX_U24 || value.len() > crate::types::MAX_U24 {
            return Err(DbError::Capacity);
        }
        if self.log.len() as u64 + key.len() as u64 + value.len() as u64 + 6 > LOG_LIMIT {
            return Err(DbError::Capacity);
        }
        let start = self.log.len();
        let nbu = self.heads.len();
        let b = (hash_key(key) % (nbu as u64)) as usize;
        assert(b as nat == bucket_of(key@, nb));
        let appended = append_record(&mut self.log, key, value);
        assert(appended is Ok);
        let prev = self.heads[b];
        let idx = self.starts.len();
        self.heads.set(b, Some(idx));
        self.prevs.push(prev);
        self.starts.push(start);
        self.recs = Ghost(recs.push(r));
        proof {
            let recs2 = recs.push(r);
            assert(recs2[n] == r);
            lemma_log_image_push(recs, r);
            lemma_parse_rec_bytes(r, Seq::empty());
            assert(recs2.take(n) =~= recs);
            assert(all_fit(recs2)) by {
                assert forall|i: int| 0 <= i < recs2.len() implies #[trigger] rec_fits(recs2[i]) by {
                    if i < n {
                        assert(rec_fits(recs[i]));
                    }
                }
            }
            assert forall|i: int| 0 <= i < recs2.len() implies
                #[trigger] self.starts@[i] == log_image(recs2.take(i)).len() by {
                if i < n {
                    assert(recs2.take(i) =~= recs.take(i));
                }
            }
            assert forall|i: int| 0 <= i < recs2.len() implies
                opt_int(#[trigger] self.prevs@[i]) == latest_in(recs2, i, bucket_of(recs2[i].0, nb), nb) by {
                lemma_latest_in_push(recs, r, i, bucket_of(recs2[i].0, nb), nb);
            }
            assert forall|bb: int| 0 <= bb < nb implies
                opt_int(#[trigger] self.heads@[bb]) == latest_in(recs2, recs2.len() as int, bb as nat, nb) by {
                lemma_latest_in_push(recs, r, n, bb as nat, nb);
                if bb != b as int {
                    assert(self.heads@[bb] == old(self).heads@[bb]);
                }
                assert(latest_in(recs2, n + 1, bb as nat, nb) == (if bucket_of(recs2[n].0, nb) == bb as nat {
                    Some(n)
                } else {
                    latest_in(recs2, n, bb as nat, nb)
                }));
            }
            assert(recs2.take(self.durable@ as int) =~= recs.take(self.durable@ as int));
        }
        Ok(())
    }

    /// Makes every record put so far durable: hands out the log's bytes from
    /// the page that held the old end of the log, and the header that
    /// records the new end. No index pages are handed out: the index lives in
    /// memory and is rebuilt from the durable log on recovery, so the
    /// header, written after the data, is the one commit point.
    pub fn batch(&mut self) -> (r: Commit)
        requires
            old(self).wf(),
        ensures
            final(self).wf(),
            final(self).records() == old(self).records(),
            final(self).buckets() == old(self).buckets(),
            final(self).durable_count() == final(self).records().len(),
            r.start as nat == log_image(old(self).durable_records()).len() / (PAGE_SIZE as nat) * (PAGE_SIZE as nat),
            r.start as nat <= log_image(old(self).records()).len(),
            r.data@ == log_image(old(self).records()).subrange(r.start as int, log_image(old(self).records()).len() as int),
            r.header@ == be_bytes(log_image(old(self).records()).len(), 6),
    {
        let page = Offset::new(self.durable_end as u64).this_page();
        let start = page.as_u64();
        proof {
            let d = self.durable@ as int;
            lemma_log_image_split(self.recs@, d);
            assert(start <= self.durable_end) by (nonlinear_arith)
                requires start as nat == (self.durable_end as nat) / 4096 * 4096;
        }
        let whole = self.log.as_slice();
        let data = vstd::slice::slice_to_vec(vstd::slice::slice_subrange(whole, start as usize, whole.len()));
        let header = encode_offset(self.log.len() as u64);
        self.durable = Ghost(self.recs@.len());
        self.durable_end = self.log.len();
        assert(self.recs@.take(self.recs@.len() as int) =~= self.recs@);
        Commit { start, data, header }
    }

    /// The log's bytes up to the end that the last batch recorded.
    pub fn durable_log(&self) -> (r: Vec<u8>)
        requires
            self.wf(),
        ensures
            r@ == log_image(self.durable_records()),
    {
        proof {
            lemma_log_image_split(self.recs@, self.durable@ as int);
        }
        let whole = self.log.as_slice();
        let r = vstd::slice::slice_to_vec(vstd::slice::slice_subrange(whole, 0, self.durable_end));
        assert(r@ =~= log_image(self.durable_records()));
        r
    }

    /// Opens a store with `buckets` buckets from a header and a data log
    /// read back from stable storage, rebuilding the index from the records.
    /// Bytes past the header's end of log, written by an unfinished batch,
    /// are ignored.
    #[verifier::rlimit(50)]
    pub fn recover(header: &[u8], log: &[u8], buckets: usize) -> (r: Result<Engine, DbError>)
        ensures
            match r {
                Ok(e) => buckets > 0 && recovered(header@, log@) == Ok::<Seq<Rec>, DbError>(e.records())
                    && e.wf() && e.buckets() == buckets && e.durable_count() == e.records().len(),
                Err(err) => if buckets == 0 {
                    err == DbError::Capacity
                } else {
                    recovered(header@, log@) == Err::<Seq<Rec>, DbError>(err)
                },
            },
    {
        let mut e = match Engine::new(buckets) {
            Ok(e) => e,
            Err(err) => return Err(err),
        };
        let end_off = match decode_offset(header) {
            Ok(o) => o,
            Err(err) => return Err(err),
        };
        let end = end_off.as_u64();
        if end > log.len() as u64 {
            return Err(DbError::CorruptRecord);
        }
        let end = end as usize;
        let img = vstd::slice::slice_subrange(log, 0, end);
        let ghost b = img@;
        proof {
            lemma_pow256_values();
            crate::types::lemma_be_value_bound(header@.subrange(0, 6));
            assert(b.subrange(0, 0) =~= Seq::<u8>::empty());
            assert(b.subrange(0, end as int) =~= b);
            if let Some(y) = parse_log(b) {
                assert(Seq::<Rec>::empty() + y =~= y);
            }
            assert(prepend(e.recs@, parse_log(b.subrange(0, end as int))) == parse_log(b));
        }
        let mut pos: usize = 0;
        while pos < end
            invariant
                pos <= end,
                end <= MASK48,
                b == img@,
                b.len() == end,
                b == log@.subrange(0, end as int),
                header@.len() >= 6,
                end as nat == be_value(header@.subrange(0, 6)),
                end <= log@.len(),
                e.wf(),
                e.heads@.len() == buckets,
                e.durable@ == 0,
                log_image(e.recs@).len() == pos,
                prepend(e.recs@, parse_log(b.subrange(pos as int, end as int))) == parse_log(b),
                pow256(3) == 0x100_0000,
            decreases end - pos,
        {
            let ghost rest = b.subrange(pos as int, end as int);
            let rd = read_record(img, pos);
            let (k, v, n) = match rd {
                Ok(t) => t,
                Err(err) => {
                    assert(img@.subrange(pos as int, img@.len() as int) == rest);
                    assert(parse_log(rest) == None::<Seq<Rec>>);
                    assert(parse_log(b) == None::<Seq<Rec>>);
                    assert(log@.subrange(0, end as int) =~= b);
                    return Err(err);
                },
            };
            proof {
                let kl = be_value(rest.subrange(0, 3));
                crate::types::lemma_be_value_bound(rest.subrange(0, 3));
                crate::types::lemma_be_value_bound(rest.subrange(kl as int + 3, kl as int + 6));
                lemma_parse_rec_bytes((k@, v@), Seq::empty());
                let rest2 = b.subrange((pos + n) as int, end as int);
                assert(rest.subrange(n as int, rest.len() as int) =~= rest2);
                match parse_log(rest2) {
                    Some(y) => {
                        assert(e.recs@.push((k@, v@)) + y =~= e.recs@ + (seq![(k@, v@)] + y));
                    },
                    None => {},
                }
            }
            let ghost before = e.recs@;
            let put = e.put(k.as_slice(), v.as_slice());
            assert(put is Ok);
            proof {
                lemma_log_image_push(before, (k@, v@));
            }
            pos = pos + n;
        }
        proof {
            assert(b.subrange(end as int, end as int) =~= Seq::<u8>::empty());
            assert(e.recs@ + Seq::<Rec>::empty() =~= e.recs@);
        }
        e.durable = Ghost(e.recs@.len());
        e.durable_end = e.log.len();
        assert(e.recs@.take(e.recs@.len() as int) =~= e.recs@);
        assert(log@.subrange(0, end as int) =~= b);
        Ok(e)
    }
}

/// The records that a batch made durable fit their fields, and their log
/// fits 48-bit offsets.
pub proof fn lemma_durable_fits(e: &Engine)
    requires
        e.wf(),
    ensures
        all_fit(e.durable_records()),
        log_image(e.durable_records()).len() <= MASK48,
{
    let d = e.durable_records();
    assert forall|i: int| 0 <= i < d.len() implies #[trigger] rec_fits(d[i]) by {
        assert(rec_fits(e.records()[i]));
    }
    lemma_log_image_split(e.records(), e.durable_count() as int);
}

/// A restart reads back the records that the last batch made durable: from
/// the header that the batch wrote and the log up to its end, whatever bytes
/// an unfinished later batch left past that end.
pub proof fn lemma_restart_recovers(e: &Engine, tail: Seq<u8>)
    requires
        e.wf(),
    ensures
        recovered(be_bytes(log_image(e.durable_records()).len(), 6), log_image(e.durable_records()) + tail)
            == Ok::<Seq<Rec>, DbError>(e.durable_records()),
{
    lemma_durable_fits(e);
    lemma_restart_image(e.durable_records(), tail);
}

proof fn lemma_restart_image(d: Seq<Rec>, tail: Seq<u8>)
    requires
        all_fit(d),
        log_image(d).len() <= MASK48,
    ensures
        recovered(be_bytes(log_image(d).len(), 6), log_image(d) + tail) == Ok::<Seq<Rec>, DbError>(d),
{
    let img = log_image(d);
    crate::types::lemma_be_round_trip(img.len(), 6);
    lemma_pow256_values();
    let h = be_bytes(img.len(), 6);
    assert(h.subrange(0, 6) =~= h);
    assert(img.len() % pow256(6) == img.len());
    assert(be_value(h.subrange(0, 6)) == img.len());
    let all = img + tail;
    assert(all.subrange(0, img.len() as int) =~= img);
    crate::log::lemma_parse_log_image(d);
    assert(parse_log(all.subrange(0, img.len() as int)) == Some(d));
}

/// The newest put of a key decides what a lookup of it gives: after two puts
/// of one key, the second value is found.
pub proof fn lemma_last_put_wins(recs: Seq<Rec>, k: Seq<u8>, v1: Seq<u8>, v2: Seq<u8>)
    ensures
        lookup(recs.push((k, v1)).push((k, v2)), k) == Some(v2),
{
    let s = recs.push((k, v1)).push((k, v2));
    assert(s[s.len() - 1] == (k, v2));
}

/// A put leaves the lookups of every other key as they were.
pub proof fn lemma_put_keeps_others(recs: Seq<Rec>, k: Seq<u8>, v: Seq<u8>, other: Seq<u8>)
    requires
        other != k,
    ensures
        lookup(recs.push((k, v)), other) == lookup(recs, other),
{
    let s = recs.push((k, v));
    assert(s[s.len() - 1] == (k, v));
    lemma_find_push(recs, (k, v), recs.len() as int, other);
    crate::index::lemma_find_bound(recs, recs.len() as int, other);
    match find(recs, recs.len() as int, other) {
        Some(j) => {
            assert(s[j] == recs[j]);
        },
        None => {},
    }
}

/// Whether two byte strings are equal.
pub fn bytes_eq(a: &[u8], b: &[u8]) -> (r: bool)
    ensures
        r == (a@ == b@),
{
    if a.len() != b.len() {
        return false;
    }
    let mut i: usize = 0;
    while i < a.len()
        invariant
            i <= a@.len(),
            a@.len() == b@.len(),
            a@.subrange(0, i as int) == b@.subrange(0, i as int),
        decreases a@.len() - i,
    {
        if a[i] != b[i] {
            assert(a@[i as int] != b@[i as int]);
            return false;
        }
        assert(a@.subrange(0, i + 1) =~= a@.subrange(0, i as int).push(a@[i as int]));
        assert(b@.subrange(0, i + 1) =~= b@.subrange(0, i as int).push(b@[i as int]));
        i = i + 1;
    }
    assert(a@ =~= a@.subrange(0, i as int));
    assert(b@ =~= b@.subrange(0, i as int));
    true
}

/// The bytes of a log from the start of record `c` on begin with that record.
proof fn lemma_record_at(recs: Seq<Rec>, c: int)
    requires
        0 <= c < recs.len(),
        all_fit(recs),
    ensures
        log_image(recs.take(c)).len() <= log_image(recs).len(),
        parse_rec(log_image(recs).subrange(log_image(recs.take(c)).len() as int, log_image(recs).len() as int))
            == Some((recs[c], rec_bytes(recs[c]).len())),
{
    lemma_log_image_split(recs, c);
    lemma_log_image_at(recs, c);
    assert(rec_fits(recs[c]));
    let img = log_image(recs);
    let s = log_image(recs.take(c)).len() as int;
    assert(img.subrange(s, img.len() as int) =~= rec_bytes(recs[c]) + log_image(recs.skip(c + 1)));
    lemma_parse_rec_bytes(recs[c], log_image(recs.skip(c + 1)));
}

} // verus!
