//! The append-only data log: records of a key and a value, each prefixed by
//! its 24-bit length, laid end to end.

use vstd::prelude::*;
use crate::types::{be_bytes, be_value, decode_size, encode_size, lemma_size_round_trip, DbError, MAX_U24};

verus! {

/// A key and its value.
pub type Rec = (Seq<u8>, Seq<u8>);

/// Both lengths of a record fit their size fields.
pub open spec fn rec_fits(r: Rec) -> bool {
    r.0.len() <= MAX_U24 && r.1.len() <= MAX_U24
}

/// Every record of `recs` fits its size fields.
pub open spec fn all_fit(recs: Seq<Rec>) -> bool {
    forall|i: int| 0 <= i < recs.len() ==> #[trigger] rec_fits(recs[i])
}

/// The bytes of one record.
pub open spec fn rec_bytes(r: Rec) -> Seq<u8> {
    be_bytes(r.0.len(), 3) + r.0 + be_bytes(r.1.len(), 3) + r.1
}

/// The bytes of a log that holds `recs`, in order.
pub open spec fn log_image(recs: Seq<Rec>) -> Seq<u8>
    decreases recs.len(),
{
    if recs.len() == 0 {
        Seq::empty()
    } else {
        rec_bytes(recs[0]) + log_image(recs.skip(1))
    }
}

/// The record at the front of `b`, with the number of bytes it takes.
pub open spec fn parse_rec(b: Seq<u8>) -> Option<(Rec, nat)> {
    if b.len() < 3 {
        None
    } else {
        let kl = be_value(b.subrange(0, 3)) as int;
        if b.len() < kl + 6 {
            None
        } else {
            let vl = be_value(b.subrange(kl + 3, kl + 6)) as int;
            if b.len() < kl + vl + 6 {
                None
            } else {
                Some(((b.subrange(3, kl + 3), b.subrange(kl + 6, kl + vl + 6)), (kl + vl + 6) as nat))
            }
        }
    }
}

/// The records of a log, or `None` where its bytes are no whole sequence of records.
pub open spec fn parse_log(b: Seq<u8>) -> Option<Seq<Rec>>
    decreases b.len(),
{
    if b.len() == 0 {
        Some(Seq::empty())
    } else {
        match parse_rec(b) {
            None => None,
            Some((r, n)) => if 0 < n <= b.len() {
                match parse_log(b.subrange(n as int, b.len() as int)) {
                    None => None,
                    Some(rs) => Some(seq![r] + rs),
                }
            } else {
                None
            },
        }
    }
}

/// The bytes of a record read back as that record.
pub proof fn lemma_parse_rec_bytes(r: Rec, rest: Seq<u8>)
    requires
        rec_fits(r),
    ensures
        parse_rec(rec_bytes(r) + rest) == Some((r, rec_bytes(r).len())),
        rec_bytes(r).len() == r.0.len() + r.1.len() + 6,
{
    let b = rec_bytes(r) + rest;
    let kl = r.0.len() as int;
    let vl = r.1.len() as int;
    lemma_size_round_trip(kl as usize);
    lemma_size_round_trip(vl as usize);
    assert(b.subrange(0, 3) =~= be_bytes(kl as nat, 3).subrange(0, 3));
    assert(b.subrange(kl + 3, kl + 6) =~= be_bytes(vl as nat, 3).subrange(0, 3));
    assert(b.subrange(3, kl + 3) =~= r.0);
    assert(b.subrange(kl + 6, kl + vl + 6) =~= r.1);
}

/// Appending a record appends its bytes to the log.
pub proof fn lemma_log_image_push(recs: Seq<Rec>, r: Rec)
    ensures
        log_image(recs.push(r)) == log_image(recs) + rec_bytes(r),
    decreases recs.len(),
{
    if recs.len() == 0 {
        assert(recs.push(r).skip(1) =~= Seq::<Rec>::empty());
        assert(log_image(recs.push(r).skip(1)) == Seq::<u8>::empty());
        assert(recs.push(r)[0] == r);
        assert(log_image(recs.push(r)) =~= log_image(recs) + rec_bytes(r));
    } else {
        lemma_log_image_push(recs.skip(1), r);
        assert(recs.push(r).skip(1) =~= recs.skip(1).push(r));
        assert(recs.push(r)[0] == recs[0]);
        assert(log_image(recs.push(r)) =~= log_image(recs) + rec_bytes(r));
    }
}

/// A log splits at any record into the log before it and the log from it on.
pub proof fn lemma_log_image_split(recs: Seq<Rec>, i: int)
    requires
        0 <= i <= recs.len(),
    ensures
        log_image(recs) == log_image(recs.take(i)) + log_image(recs.skip(i)),
    decreases i,
{
    if i == 0 {
        assert(recs.take(0) =~= Seq::<Rec>::empty());
        assert(recs.skip(0) =~= recs);
        assert(log_image(recs) =~= log_image(recs.take(i)) + log_image(recs.skip(i)));
    } else {
        lemma_log_image_split(recs, i - 1);
        assert(recs.take(i) =~= recs.take(i - 1).push(recs[i - 1]));
        lemma_log_image_push(recs.take(i - 1), recs[i - 1]);
        let s = recs.skip(i - 1);
        assert(s.skip(1) =~= recs.skip(i));
        assert(s[0] == recs[i - 1]);
        assert(log_image(recs) =~= log_image(recs.take(i)) + log_image(recs.skip(i)));
    }
}

/// The bytes of the log from record `i` on start with record `i`.
pub proof fn lemma_log_image_at(recs: Seq<Rec>, i: int)
    requires
        0 <= i < recs.len(),
    ensures
        log_image(recs.skip(i)) == rec_bytes(recs[i]) + log_image(recs.skip(i + 1)),
{
    let s = recs.skip(i);
    assert(s.skip(1) =~= recs.skip(i + 1));
}

/// Reading back the bytes of a log gives its records.
pub proof fn lemma_parse_log_image(recs: Seq<Rec>)
    requires
        all_fit(recs),
    ensures
        parse_log(log_image(recs)) == Some(recs),
    decreases recs.len(),
{
    if recs.len() > 0 {
        let rest = recs.skip(1);
        assert(all_fit(rest)) by {
            assert forall|i: int| 0 <= i < rest.len() implies #[trigger] rec_fits(rest[i]) by {
                assert(rec_fits(recs[i + 1]));
            }
        }
        lemma_parse_log_image(rest);
        assert(rec_fits(recs[0]));
        lemma_parse_rec_bytes(recs[0], log_image(rest));
        let b = log_image(recs);
        let n = rec_bytes(recs[0]).len();
        assert(b.subrange(n as int, b.len() as int) =~= log_image(rest));
        assert(seq![recs[0]] + rest =~= recs);
    }
}


/// Appends the bytes of `b` to `out`.
pub fn append_bytes(out: &mut Vec<u8>, b: &[u8])
    ensures
        final(out)@ == old(out)@ + b@,
{
    let mut i: usize = 0;
    while i < b.len()
        invariant
            i <= b@.len(),
            out@ == old(out)@ + b@.subrange(0, i as int),
        decreases b@.len() - i,
    {
        out.push(b[i]);
        i = i + 1;
        assert(out@ =~= old(out)@ + b@.subrange(0, i as int));
    }
    assert(b@.subrange(0, i as int) =~= b@);
}

/// Appends the record of `key` and `value` to the log; fails where a length
/// does not fit its 24-bit field.
pub fn append_record(log: &mut Vec<u8>, key: &[u8], value: &[u8]) -> (r: Result<(), DbError>)
    ensures
        match r {
            Ok(()) => rec_fits((key@, value@))
                && final(log)@ == old(log)@ + rec_bytes((key@, value@)),
            Err(e) => !rec_fits((key@, value@)) && e == DbError::Capacity
                && final(log)@ == old(log)@,
        },
{
    let kl = encode_size(key.len())?;
    let vl = encode_size(value.len())?;
    append_bytes(log, kl.as_slice());
    append_bytes(log, key);
    append_bytes(log, vl.as_slice());
    append_bytes(log, value);
    assert(final(log)@ =~= old(log)@ + rec_bytes((key@, value@)));
    Ok(())
}

/// Reads the record that starts at `start`; fails where the log ends inside it.
pub fn read_record(log: &[u8], start: usize) -> (r: Result<(Vec<u8>, Vec<u8>, usize), DbError>)
    requires
        start <= log@.len(),
    ensures
        match parse_rec(log@.subrange(start as int, log@.len() as int)) {
            Some((rec, n)) => r matches Ok((k, v, m)) && k@ == rec.0 && v@ == rec.1 && m as nat == n,
            None => r == Err::<(Vec<u8>, Vec<u8>, usize), DbError>(DbError::CorruptRecord),
        },
{
    let rest = vstd::slice::slice_subrange(log, start, log.len());
    let ghost b = log@.subrange(start as int, log@.len() as int);
    assert(rest@ == b);
    let kl = match decode_size(rest) {
        Ok(n) => n,
        Err(_) => return Err(DbError::CorruptRecord),
    };
    proof {
        crate::types::lemma_be_value_bound(b.subrange(0, 3));
        reveal_with_fuel(crate::types::pow256, 4);
    }
    if rest.len() < kl + 6 {
        return Err(DbError::CorruptRecord);
    }
    let vpart = vstd::slice::slice_subrange(rest, kl + 3, rest.len());
    let vl = match decode_size(vpart) {
        Ok(n) => n,
        Err(_) => return Err(DbError::CorruptRecord),
    };
    assert(vpart@.subrange(0, 3) =~= b.subrange(kl + 3, kl + 6));
    proof {
        crate::types::lemma_be_value_bound(b.subrange(kl + 3, kl + 6));
    }
    if rest.len() - 6 - kl < vl {
        return Err(DbError::CorruptRecord);
    }
    let k = vstd::slice::slice_to_vec(vstd::slice::slice_subrange(rest, 3, kl + 3));
    let v = vstd::slice::slice_to_vec(vstd::slice::slice_subrange(rest, kl + 6, kl + vl + 6));
    Ok((k, v, kl + vl + 6))
}

} // verus!
