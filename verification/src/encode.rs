//! Encoder: serializes a version tag and a record collection into the TDB
//! byte layout. All FLARM ids are parsed up front — a bad id fails the
//! whole encode, because the index must be fully known before any byte is
//! written — then the records are stably sorted by ascending numeric id
//! and written out: header, index, padding, fixed-size records.

use vstd::prelude::*;

verus! {

use vstd::bytes::{spec_u32_to_le_bytes, u32_to_le_bytes};
use vstd::slice::slice_index_get;
use vstd::utf8::{encode_utf8, is_char_boundary};
use crate::{File, Record};
use crate::consts::{STRING_FIELD_SIZE, spec_magic, spec_zeros};
use crate::text::{
    spec_field_written, spec_flarm_id_parses, spec_floor_boundary, spec_freq_parses,
    spec_freq_stored, spec_hex_value, spec_is_hex_digit, spec_truncated, lemma_hex_value_monotone,
    lemma_hex_value_push, lemma_dec_value_push, lemma_dec_value_nonneg, lemma_dot_pos,
    spec_dot_pos, spec_dec_value, spec_is_dec_digit, spec_freq_int_part, spec_freq_frac_part,
};

/// Why a record collection could not be encoded. Either failure aborts the
/// whole operation and names the offending string.
#[derive(Debug, PartialEq)]
pub enum EncodeError {
    /// A record's FLARM id is not a hex numeral of at most 24 bits.
    InvalidFlarmId(String),
    /// A record's frequency is neither empty nor a plain decimal numeral.
    InvalidFrequency(String),
}

/// True when the record's FLARM id text is a well-formed id numeral.
pub open spec fn spec_id_ok(r: Record) -> bool {
    spec_flarm_id_parses(encode_utf8(r.flarm_id@))
}

/// The numeric id the record's FLARM id text names.
pub open spec fn spec_id_value(r: Record) -> u32 {
    spec_hex_value(encode_utf8(r.flarm_id@)) as u32
}

/// True when the record's frequency text is empty or a well-formed
/// decimal numeral.
pub open spec fn spec_freq_ok(r: Record) -> bool {
    encode_utf8(r.frequency@).len() == 0 || spec_freq_parses(encode_utf8(r.frequency@))
}

/// The stored 32-bit frequency the record's frequency text names.
pub open spec fn spec_rec_freq_value(r: Record) -> u32 {
    spec_freq_stored(encode_utf8(r.frequency@))
}

/// True when every record's FLARM id parses.
pub open spec fn spec_ids_ok(rs: Seq<Record>) -> bool {
    forall|i: int| 0 <= i < rs.len() ==> spec_id_ok(#[trigger] rs[i])
}

/// True when every record's frequency parses (or is empty).
pub open spec fn spec_freqs_ok(rs: Seq<Record>) -> bool {
    forall|i: int| 0 <= i < rs.len() ==> spec_freq_ok(#[trigger] rs[i])
}

/// True when the collection encodes: every id and every frequency parses.
pub open spec fn spec_encode_ok(f: File) -> bool {
    spec_ids_ok(f.records@) && spec_freqs_ok(f.records@)
}

/// One (numeric id, input position) pair per record, in input order.
pub open spec fn spec_entries(rs: Seq<Record>) -> Seq<(u32, usize)> {
    Seq::new(rs.len(), |i: int| (spec_id_value(rs[i]), i as usize))
}

/// Inserts `e` behind every entry whose id is no greater than its own:
/// the single step of a stable insertion sort.
pub open spec fn spec_insert_sorted(s: Seq<(u32, usize)>, e: (u32, usize)) -> Seq<(u32, usize)>
    decreases s.len(),
{
    if s.len() == 0 {
        seq![e]
    } else if e.0 < s.last().0 {
        spec_insert_sorted(s.drop_last(), e).push(s.last())
    } else {
        s.push(e)
    }
}

/// The entries stably sorted by ascending id: entries with equal ids keep
/// their input order.
pub open spec fn spec_sort(s: Seq<(u32, usize)>) -> Seq<(u32, usize)>
    decreases s.len(),
{
    if s.len() == 0 {
        Seq::empty()
    } else {
        spec_insert_sorted(spec_sort(s.drop_last()), s.last())
    }
}

/// True when ids never decrease along the sequence.
pub open spec fn spec_sorted_by_id(s: Seq<(u32, usize)>) -> bool {
    forall|i: int, j: int| 0 <= i < j < s.len() ==> (#[trigger] s[i]).0 <= (#[trigger] s[j]).0
}

/// The 96 bytes written for one record under numeric id `id`: id and
/// frequency little-endian, an eight-byte reserved gap of zeros, then the
/// five 16-byte text fields in their fixed order.
#[verifier::opaque]
pub open spec fn spec_record_written(id: u32, r: Record) -> Seq<u8> {
    spec_u32_to_le_bytes(id) + spec_u32_to_le_bytes(spec_rec_freq_value(r)) + spec_zeros(8)
        + spec_field_written(encode_utf8(r.call_sign@)) + spec_field_written(
        encode_utf8(r.pilot_name@),
    ) + spec_field_written(encode_utf8(r.airfield@)) + spec_field_written(
        encode_utf8(r.plane_type@),
    ) + spec_field_written(encode_utf8(r.registration@))
}

/// The 12-byte header: magic, version, record count, little-endian.
pub open spec fn spec_header_bytes(version: u32, count: u32) -> Seq<u8> {
    spec_magic() + spec_u32_to_le_bytes(version) + spec_u32_to_le_bytes(count)
}

/// The index bytes for the first `k` sorted entries: one little-endian id
/// each.
pub open spec fn spec_index_bytes(sorted: Seq<(u32, usize)>, k: int) -> Seq<u8>
    decreases k,
{
    if k <= 0 {
        Seq::empty()
    } else {
        spec_index_bytes(sorted, k - 1) + spec_u32_to_le_bytes(sorted[k - 1].0)
    }
}

/// The record bytes for the first `k` sorted entries.
pub open spec fn spec_records_bytes(rs: Seq<Record>, sorted: Seq<(u32, usize)>, k: int) -> Seq<u8>
    decreases k,
{
    if k <= 0 {
        Seq::empty()
    } else {
        spec_records_bytes(rs, sorted, k - 1) + spec_record_written(
            sorted[k - 1].0,
            rs[sorted[k - 1].1 as int],
        )
    }
}

/// Everything written for `f` up to (not including) sorted record `k`:
/// header, full index, padding, and the first `k` records.
pub open spec fn spec_body_prefix(f: File, k: int) -> Seq<u8> {
    let sorted = spec_sort(spec_entries(f.records@));
    spec_header_bytes(f.version, f.records@.len() as u32) + spec_index_bytes(
        sorted,
        sorted.len() as int,
    ) + spec_zeros(8) + spec_records_bytes(f.records@, sorted, k)
}

/// The complete encoding of `f`.
pub open spec fn spec_encoded(f: File) -> Seq<u8> {
    spec_body_prefix(f, f.records@.len() as int)
}

/// True when `e` is the error encode reports for `f`: the first record in
/// input order whose id does not parse, or — all ids parsing — the first
/// record in sorted order whose frequency does not parse.
pub open spec fn spec_encode_error_matches(f: File, e: EncodeError) -> bool {
    if !spec_ids_ok(f.records@) {
        exists|i: int|
            #![auto]
            0 <= i < f.records@.len() && !spec_id_ok(f.records@[i]) && (forall|j: int|
                0 <= j < i ==> spec_id_ok(#[trigger] f.records@[j])) && (e
                matches EncodeError::InvalidFlarmId(t) && t@ == f.records@[i].flarm_id@)
    } else {
        let sorted = spec_sort(spec_entries(f.records@));
        exists|k: int|
            #![auto]
            0 <= k < sorted.len() && !spec_freq_ok(f.records@[sorted[k].1 as int]) && (forall|
                j: int,
            |
                0 <= j < k ==> spec_freq_ok(#[trigger] f.records@[sorted[j].1 as int])) && (e
                matches EncodeError::InvalidFrequency(t) && t@ == f.records@[sorted[k].1
                as int].frequency@)
    }
}

/// The single insertion step keeps exactly the entries it was given.
pub proof fn lemma_insert_sorted_multiset(s: Seq<(u32, usize)>, e: (u32, usize))
    ensures
        spec_insert_sorted(s, e).to_multiset() == s.push(e).to_multiset(),
    decreases s.len(),
{
    broadcast use vstd::seq_lib::group_to_multiset_ensures;
    broadcast use vstd::multiset::group_multiset_axioms;

    if s.len() == 0 {
        assert(spec_insert_sorted(s, e) =~= s.push(e));
    } else if e.0 < s.last().0 {
        lemma_insert_sorted_multiset(s.drop_last(), e);
        assert(s.drop_last().push(s.last()) =~= s);
        assert(spec_insert_sorted(s, e).to_multiset() =~= s.push(e).to_multiset());
    }
}

/// Sorting keeps exactly the entries it was given.
pub proof fn lemma_sort_multiset(s: Seq<(u32, usize)>)
    ensures
        spec_sort(s).to_multiset() == s.to_multiset(),
        spec_sort(s).len() == s.len(),
    decreases s.len(),
{
    broadcast use vstd::seq_lib::group_to_multiset_ensures;
    broadcast use vstd::multiset::group_multiset_axioms;

    if s.len() > 0 {
        let sp = spec_sort(s.drop_last());
        let l = s.last();
        lemma_sort_multiset(s.drop_last());
        lemma_insert_sorted_multiset(sp, l);
        assert(sp.push(l).to_multiset() =~= sp.to_multiset().insert(l));
        assert(s.drop_last().push(l).to_multiset() =~= s.drop_last().to_multiset().insert(l));
        assert(s.drop_last().push(l) =~= s);
        assert(spec_sort(s).to_multiset() == s.to_multiset());
        assert(spec_sort(s).to_multiset().len() == spec_sort(s).len());
        assert(s.to_multiset().len() == s.len());
    }
}

/// Every entry handed to the sort comes back: each input position appears
/// in the sorted sequence.
pub proof fn lemma_sort_onto(s: Seq<(u32, usize)>, i: int)
    requires
        0 <= i < s.len(),
    ensures
        exists|j: int| 0 <= j < spec_sort(s).len() && spec_sort(s)[j] == s[i],
{
    broadcast use vstd::seq_lib::group_to_multiset_ensures;
    broadcast use vstd::multiset::group_multiset_axioms;

    lemma_sort_multiset(s);
    assert(s.contains(s[i]));
    assert(s.to_multiset().count(s[i]) > 0);
    assert(spec_sort(s).contains(s[i]));
    let j = choose|j: int| 0 <= j < spec_sort(s).len() && spec_sort(s)[j] == s[i];
    assert(0 <= j < spec_sort(s).len() && spec_sort(s)[j] == s[i]);
}

/// The first position in `s` whose id exceeds `key`, or the length when
/// none does.
pub open spec fn spec_first_gt(s: Seq<(u32, usize)>, key: u32) -> int
    decreases s.len(),
{
    if s.len() == 0 {
        0
    } else if s[0].0 > key {
        0
    } else {
        1 + spec_first_gt(s.drop_first(), key)
    }
}

/// What `spec_first_gt` finds: a split with ids at most `key` on the left
/// and, at the found position when it exists, an id above `key`.
pub proof fn lemma_first_gt(s: Seq<(u32, usize)>, key: u32)
    ensures
        0 <= spec_first_gt(s, key) <= s.len(),
        forall|j: int| 0 <= j < spec_first_gt(s, key) ==> (#[trigger] s[j]).0 <= key,
        spec_first_gt(s, key) < s.len() ==> s[spec_first_gt(s, key)].0 > key,
    decreases s.len(),
{
    if s.len() > 0 && !(s[0].0 > key) {
        lemma_first_gt(s.drop_first(), key);
        assert forall|j: int| 0 <= j < spec_first_gt(s, key) implies (#[trigger] s[j]).0
            <= key by {
            if j > 0 {
                assert(s[j] == s.drop_first()[j - 1]);
            }
        }
    }
}

/// The sorted entries are indeed sorted by ascending id.
pub proof fn lemma_sort_sorted(s: Seq<(u32, usize)>)
    ensures
        spec_sorted_by_id(spec_sort(s)),
    decreases s.len(),
{
    if s.len() > 0 {
        lemma_sort_sorted(s.drop_last());
        let sp = spec_sort(s.drop_last());
        lemma_first_gt(sp, s.last().0);
        lemma_insert_sorted_at(sp, s.last(), spec_first_gt(sp, s.last().0));
    }
}

/// Pins `spec_insert_sorted` down for a sorted sequence: inserting `e` at
/// the first position whose id exceeds `e`'s puts it behind all entries
/// with ids no greater than its own, and keeps the sequence sorted.
pub proof fn lemma_insert_sorted_at(s: Seq<(u32, usize)>, e: (u32, usize), p: int)
    requires
        spec_sorted_by_id(s),
        0 <= p <= s.len(),
        forall|j: int| 0 <= j < p ==> (#[trigger] s[j]).0 <= e.0,
        p < s.len() ==> s[p].0 > e.0,
    ensures
        spec_insert_sorted(s, e) == s.insert(p, e),
        spec_sorted_by_id(s.insert(p, e)),
    decreases s.len(),
{
    s.insert_ensures(p, e);
    if s.len() == 0 {
        assert(spec_insert_sorted(s, e) =~= s.insert(0, e));
    } else if e.0 < s.last().0 {
        assert(p < s.len());
        assert(spec_sorted_by_id(s.drop_last()));
        lemma_insert_sorted_at(s.drop_last(), e, p);
        assert(spec_insert_sorted(s, e) =~= s.insert(p, e)) by {
            s.drop_last().insert_ensures(p, e);
        }
    } else {
        assert(p == s.len());
        assert(spec_insert_sorted(s, e) =~= s.insert(p, e));
    }
    assert forall|i: int, j: int| 0 <= i < j < s.insert(p, e).len() implies (#[trigger] s.insert(
        p,
        e,
    )[i]).0 <= (#[trigger] s.insert(p, e)[j]).0 by {
        if i < p && j < p {
        } else if i < p && j == p {
        } else if i == p && j > p {
        } else if i < p && j > p {
        } else {
        }
    }
}

/// Parses a FLARM id: a non-empty hex numeral of at most 24 bits. Any
/// other text fails, carrying the text itself.
pub fn parse_flarm_id(s: &str) -> (r: Result<u32, EncodeError>)
    ensures
        match r {
            Ok(v) => spec_flarm_id_parses(encode_utf8(s@)) && v == spec_hex_value(
                encode_utf8(s@),
            ),
            Err(e) => !spec_flarm_id_parses(encode_utf8(s@)) && (e
                matches EncodeError::InvalidFlarmId(t) && t@ == s@),
        },
{
    let b = s.as_bytes();
    if b.len() == 0 {
        return Err(EncodeError::InvalidFlarmId(s.to_owned()));
    }
    let mut v: u32 = 0;
    let mut i: usize = 0;
    while i < b.len()
        invariant
            b@ == encode_utf8(s@),
            0 <= i <= b@.len(),
            forall|j: int| 0 <= j < i ==> spec_is_hex_digit(#[trigger] b@[j]),
            v == spec_hex_value(b@.take(i as int)),
            v <= 0xFFFFFF,
        decreases b@.len() - i,
    {
        let c = *slice_index_get(b, i);
        let d: u32 = if 48 <= c && c <= 57 {
            (c - 48) as u32
        } else if 65 <= c && c <= 70 {
            (c - 55) as u32
        } else if 97 <= c && c <= 102 {
            (c - 87) as u32
        } else {
            return Err(EncodeError::InvalidFlarmId(s.to_owned()));
        };
        proof {
            assert(b@.take(i + 1) =~= b@.take(i as int).push(b@[i as int]));
            lemma_hex_value_push(b@.take(i as int), b@[i as int]);
        }
        let nv = v * 16 + d;
        if nv > 0xFFFFFF {
            proof {
                if forall|j: int| 0 <= j < b@.len() ==> spec_is_hex_digit(#[trigger] b@[j]) {
                    lemma_hex_value_monotone(b@, i + 1);
                }
            }
            return Err(EncodeError::InvalidFlarmId(s.to_owned()));
        }
        v = nv;
        i = i + 1;
    }
    proof {
        assert(b@.take(i as int) =~= b@);
    }
    Ok(v)
}

/// Index of the first dot in `b`, or its length if there is none.
fn dot_scan(b: &[u8]) -> (d: usize)
    ensures
        d <= b@.len(),
        d == spec_dot_pos(b@),
{
    let mut d: usize = 0;
    while d < b.len()
        invariant
            0 <= d <= b@.len(),
            forall|j: int| 0 <= j < d ==> #[trigger] b@[j] != 46,
        decreases b@.len() - d,
    {
        if *slice_index_get(b, d) == 46 {
            proof {
                lemma_dot_pos(b@, d as int);
            }
            return d;
        }
        d = d + 1;
    }
    proof {
        lemma_dot_pos(b@, d as int);
    }
    d
}

/// Parses a frequency: the empty text is zero; otherwise a plain decimal
/// numeral, read in thousandths rounded to the nearest integer and
/// saturated at 32 bits. Any other text fails, carrying the text itself.
pub fn parse_frequency(s: &str) -> (r: Result<u32, EncodeError>)
    ensures
        match r {
            Ok(v) => (encode_utf8(s@).len() == 0 || spec_freq_parses(encode_utf8(s@))) && v
                == spec_freq_stored(encode_utf8(s@)),
            Err(e) => encode_utf8(s@).len() != 0 && !spec_freq_parses(encode_utf8(s@)) && (e
                matches EncodeError::InvalidFrequency(t) && t@ == s@),
        },
{
    let b = s.as_bytes();
    let ghost bs = b@;
    if b.len() == 0 {
        return Ok(0);
    }

    let dot = dot_scan(b);

    let mut i: usize = 0;
    while i < b.len()
        invariant
            bs == b@,
            bs == encode_utf8(s@),
            0 <= i <= bs.len(),
            dot == spec_dot_pos(bs),
            forall|j: int| 0 <= j < i && j != dot ==> spec_is_dec_digit(#[trigger] bs[j]),
        decreases bs.len() - i,
    {
        if i != dot {
            let c = *slice_index_get(b, i);
            if !(48 <= c && c <= 57) {
                return Err(EncodeError::InvalidFrequency(s.to_owned()));
            }
        }
        i = i + 1;
    }

    if dot == 0 && b.len() == 1 {
        return Err(EncodeError::InvalidFrequency(s.to_owned()));
    }
    proof {
        assert(dot > 0 || dot + 1 < bs.len());
        assert(spec_freq_parses(bs));
    }

    // integer part, saturating once the running value leaves 32 bits
    let ghost ip = spec_freq_int_part(bs);
    let mut v: u64 = 0;
    let mut big = false;
    let mut k: usize = 0;
    while k < dot
        invariant
            bs == b@,
            dot == spec_dot_pos(bs),
            dot <= bs.len(),
            0 <= k <= dot,
            forall|j: int| 0 <= j < bs.len() && j != dot ==> spec_is_dec_digit(#[trigger] bs[j]),
            !big ==> v == spec_dec_value(bs.take(k as int)) && v <= 0xFFFF_FFFF,
            big ==> spec_dec_value(bs.take(k as int)) > 0xFFFF_FFFF,
        decreases dot - k,
    {
        let c = *slice_index_get(b, k);
        proof {
            assert(bs.take(k + 1) =~= bs.take(k as int).push(bs[k as int]));
            lemma_dec_value_push(bs.take(k as int), bs[k as int]);
        }
        if !big {
            let nv = v * 10 + ((c - 48) as u64);
            if nv > 0xFFFF_FFFF {
                big = true;
            } else {
                v = nv;
            }
        }
        k = k + 1;
    }
    proof {
        assert(bs.take(dot as int) =~= ip);
    }

    // fractional part: first three digits, zero-padded; the fourth rounds
    let ghost fp = spec_freq_frac_part(bs);
    let mut f1: u64 = 0;
    let mut f2: u64 = 0;
    let mut f3: u64 = 0;
    let mut round: u64 = 0;
    if dot < b.len() {
        let fplen = b.len() - dot - 1;
        if fplen >= 1 {
            f1 = (*slice_index_get(b, dot + 1) - 48) as u64;
        }
        if fplen >= 2 {
            f2 = (*slice_index_get(b, dot + 2) - 48) as u64;
        }
        if fplen >= 3 {
            f3 = (*slice_index_get(b, dot + 3) - 48) as u64;
        }
        if fplen > 3 && *slice_index_get(b, dot + 4) >= 53 {
            round = 1;
        }
    }
    let frac3 = f1 * 100 + f2 * 10 + f3;
    proof {
        let padded = fp + seq![48u8, 48u8, 48u8];
        let q1 = padded[0];
        let q2 = padded[1];
        let q3 = padded[2];
        assert(padded.subrange(0, 3) =~= seq![q1, q2, q3]);
        let e = Seq::<u8>::empty();
        lemma_dec_value_push(e, q1);
        lemma_dec_value_push(e.push(q1), q2);
        lemma_dec_value_push(e.push(q1).push(q2), q3);
        assert(e.push(q1).push(q2).push(q3) =~= seq![q1, q2, q3]);
        assert(frac3 == spec_dec_value(padded.subrange(0, 3)));
        assert(round == if fp.len() > 3 && fp[3] >= 53 {
            1int
        } else {
            0int
        });
    }

    if big {
        proof {
            lemma_dec_value_nonneg(padded_frac_digits(bs));
        }
        return Ok(u32::MAX);
    }
    let total = v * 1000 + frac3 + round;
    if total > 0xFFFF_FFFF {
        Ok(u32::MAX)
    } else {
        Ok(total as u32)
    }
}

/// The three (zero-padded) leading fractional digit bytes of `bs`.
pub open spec fn padded_frac_digits(bs: Seq<u8>) -> Seq<u8> {
    (spec_freq_frac_part(bs) + seq![48u8, 48u8, 48u8]).subrange(0, 3)
}

/// Writes one 16-byte text field: the value's UTF-8 bytes, truncated to at
/// most 15 bytes on a character boundary, zero-padded to the field size.
pub fn write_string(buf: &mut Vec<u8>, value: &str)
    ensures
        final(buf)@ == old(buf)@ + spec_field_written(encode_utf8(value@)),
{
    let b = value.as_bytes();
    proof {
        vstd::utf8::encode_utf8_valid_utf8(value@);
    }
    let mut n: usize = b.len();
    if b.len() > STRING_FIELD_SIZE - 1 {
        let mut i: usize = STRING_FIELD_SIZE - 1;
        while !value.is_char_boundary(i)
            invariant
                b@ == encode_utf8(value@),
                b@.len() > 15,
                0 <= i <= 15,
                spec_floor_boundary(b@, 15) == spec_floor_boundary(b@, i as int),
            decreases i,
        {
            proof {
                vstd::utf8::encode_utf8_valid_utf8(value@);
                vstd::utf8::is_char_boundary_start_end_of_seq(b@);
                assert(i > 0);
            }
            i = i - 1;
        }
        proof {
            if i > 0 {
                assert(spec_floor_boundary(b@, i as int) == i);
            }
        }
        n = i;
    }
    proof {
        assert(n == spec_truncated(b@).len());
        assert(spec_truncated(b@) =~= b@.subrange(0, n as int));
    }
    let ghost start = buf@;
    let mut j: usize = 0;
    while j < n
        invariant
            b@ == encode_utf8(value@),
            0 <= j <= n,
            n <= b@.len(),
            buf@ == start + b@.subrange(0, j as int),
        decreases n - j,
    {
        buf.push(*slice_index_get(b, j));
        proof {
            assert(buf@ =~= start + b@.subrange(0, j + 1));
        }
        j = j + 1;
    }
    let mut z: usize = n;
    while z < STRING_FIELD_SIZE
        invariant
            b@ == encode_utf8(value@),
            n <= z <= STRING_FIELD_SIZE,
            n == spec_truncated(b@).len(),
            spec_truncated(b@) == b@.subrange(0, n as int),
            buf@ == start + b@.subrange(0, n as int) + spec_zeros(z - n),
        decreases STRING_FIELD_SIZE - z,
    {
        buf.push(0);
        proof {
            assert(buf@ =~= start + b@.subrange(0, n as int) + spec_zeros(z + 1 - n));
        }
        z = z + 1;
    }
    proof {
        assert(buf@ =~= start + spec_field_written(encode_utf8(value@)));
    }
}

/// Serializes files into an in-memory byte buffer.
pub struct Writer {
    writer: Vec<u8>,
}

impl Writer {
    /// The bytes written so far.
    pub closed spec fn buffered(&self) -> Seq<u8> {
        self.writer@
    }

    /// Starts writing after any bytes already in `inner`.
    pub fn new(inner: Vec<u8>) -> (w: Writer)
        ensures
            w.buffered() == inner@,
    {
        Writer { writer: inner }
    }

    /// Appends the complete encoding of `file`, or fails without a trace
    /// on a bad id and mid-way on a bad frequency.
    pub fn write(&mut self, file: &File) -> (r: Result<(), EncodeError>)
        requires
            file.records@.len() <= u32::MAX,
        ensures
            match r {
                Ok(()) => spec_encode_ok(*file) && final(self).buffered() == old(self).buffered()
                    + spec_encoded(*file),
                Err(e) => {
                    &&& !spec_encode_ok(*file)
                    &&& spec_encode_error_matches(*file, e)
                    &&& if spec_ids_ok(file.records@) {
                        exists|k: int|
                            #![auto]
                            0 <= k <= file.records@.len() && final(self).buffered() == old(
                                self,
                            ).buffered() + spec_body_prefix(*file, k)
                    } else {
                        final(self).buffered() == old(self).buffered()
                    }
                },
            },
    {
        let n = file.records.len();
        let ghost rs = file.records@;

        // ids first: the index must be fully known before any byte goes out
        let mut entries: Vec<(u32, usize)> = Vec::new();
        let mut i: usize = 0;
        while i < n
            invariant
                rs == file.records@,
                n == rs.len(),
                0 <= i <= n,
                entries@.len() == i,
                forall|j: int| 0 <= j < i ==> spec_id_ok(#[trigger] rs[j]),
                forall|j: int| 0 <= j < i ==> #[trigger] entries@[j] == spec_entries(rs)[j],
            decreases n - i,
        {
            let rec = &file.records[i];
            match parse_flarm_id(rec.flarm_id.as_str()) {
                Ok(id) => {
                    entries.push((id, i));
                },
                Err(e) => {
                    return Err(e);
                },
            }
            i = i + 1;
        }
        proof {
            assert(entries@ =~= spec_entries(rs));
        }

        // stable insertion sort by ascending id
        let ghost es = spec_entries(rs);
        let mut sorted_entries: Vec<(u32, usize)> = Vec::new();
        let mut k: usize = 0;
        while k < n
            invariant
                rs == file.records@,
                n == rs.len(),
                es == spec_entries(rs),
                entries@ == es,
                0 <= k <= n,
                sorted_entries@ == spec_sort(es.take(k as int)),
                sorted_entries@.len() == k,
                spec_sorted_by_id(sorted_entries@),
                forall|j: int|
                    0 <= j < k ==> (#[trigger] sorted_entries@[j]).1 < n && sorted_entries@[j].0
                        == spec_id_value(rs[sorted_entries@[j].1 as int]),
            decreases n - k,
        {
            let e = entries[k];
            let mut p: usize = 0;
            while p < sorted_entries.len() && sorted_entries[p].0 <= e.0
                invariant
                    0 <= p <= sorted_entries@.len(),
                    forall|j: int| 0 <= j < p ==> (#[trigger] sorted_entries@[j]).0 <= e.0,
                decreases sorted_entries@.len() - p,
            {
                p = p + 1;
            }
            proof {
                lemma_insert_sorted_at(sorted_entries@, e, p as int);
                sorted_entries@.insert_ensures(p as int, e);
                assert(es.take(k + 1) =~= es.take(k as int).push(es[k as int]));
                assert(es.take(k + 1).drop_last() =~= es.take(k as int));
            }
            sorted_entries.insert(p, e);
            k = k + 1;
        }
        proof {
            assert(es.take(n as int) =~= es);
        }
        let ghost sorted = spec_sort(es);
        proof {
            assert(sorted_entries@ == sorted);
        }

        // header
        let ghost base = self.writer@;
        self.writer.push(0x08);
        self.writer.push(0xd5);
        self.writer.push(0x19);
        self.writer.push(0x87);
        let mut vb = u32_to_le_bytes(file.version);
        self.writer.append(&mut vb);
        let count = n as u32;
        let mut cb = u32_to_le_bytes(count);
        self.writer.append(&mut cb);
        let ghost header = spec_header_bytes(file.version, count);
        proof {
            assert(self.writer@ =~= base + header);
        }

        // index
        let mut k2: usize = 0;
        while k2 < n
            invariant
                rs == file.records@,
                n == rs.len(),
                sorted_entries@ == sorted,
                sorted_entries@.len() == n,
                0 <= k2 <= n,
                self.writer@ == base + header + spec_index_bytes(sorted, k2 as int),
            decreases n - k2,
        {
            let mut ib = u32_to_le_bytes(sorted_entries[k2].0);
            self.writer.append(&mut ib);
            proof {
                assert(self.writer@ =~= base + header + spec_index_bytes(sorted, k2 + 1));
            }
            k2 = k2 + 1;
        }

        // padding
        let mut z: usize = 0;
        while z < 8
            invariant
                0 <= z <= 8,
                self.writer@ == base + header + spec_index_bytes(sorted, sorted.len() as int)
                    + spec_zeros(z as int),
                sorted_entries@ == sorted,
                sorted_entries@.len() == n,
                rs == file.records@,
                n == rs.len(),
            decreases 8 - z,
        {
            self.writer.push(0);
            proof {
                assert(self.writer@ =~= base + header + spec_index_bytes(
                    sorted,
                    sorted.len() as int,
                ) + spec_zeros(z + 1));
            }
            z = z + 1;
        }
        let ghost head_all = base + header + spec_index_bytes(sorted, sorted.len() as int)
            + spec_zeros(8);
        proof {
            assert(header + spec_index_bytes(sorted, sorted.len() as int) + spec_zeros(8)
                + spec_records_bytes(rs, sorted, 0) =~= spec_body_prefix(*file, 0));
            assert(self.writer@ =~= base + spec_body_prefix(*file, 0));
        }

        // records, in sorted order
        let mut k3: usize = 0;
        while k3 < n
            invariant
                rs == file.records@,
                n == rs.len() && n <= u32::MAX,
                sorted_entries@ == sorted,
                sorted == spec_sort(spec_entries(rs)),
                sorted_entries@.len() == n,
                spec_ids_ok(rs),
                forall|j: int|
                    0 <= j < n ==> (#[trigger] sorted_entries@[j]).1 < n,
                0 <= k3 <= n,
                forall|j: int| 0 <= j < k3 ==> spec_freq_ok(#[trigger] rs[sorted[j].1 as int]),
                self.writer@ == old(self).writer@ + spec_body_prefix(*file, k3 as int),
            decreases n - k3,
        {
            let entry = sorted_entries[k3];
            let rec = &file.records[entry.1];
            match self.write_record(entry.0, rec) {
                Ok(()) => {},
                Err(e) => {
                    return Err(e);
                },
            }
            proof {
                assert(self.writer@ =~= old(self).writer@ + spec_body_prefix(*file, k3 + 1));
            }
            k3 = k3 + 1;
        }
        proof {
            assert forall|i2: int| 0 <= i2 < n implies spec_freq_ok(#[trigger] rs[i2]) by {
                assert(es[i2] == (spec_id_value(rs[i2]), i2 as usize));
                lemma_sort_onto(es, i2);
                let j = choose|j: int| 0 <= j < sorted.len() && sorted[j] == es[i2];
                assert(spec_freq_ok(rs[sorted[j].1 as int]));
            }
            assert(spec_body_prefix(*file, n as int) == spec_encoded(*file));
        }
        Ok(())
    }

    /// Writes one 96-byte record for `record` under numeric id `flarm_id`.
    fn write_record(&mut self, flarm_id: u32, record: &Record) -> (r: Result<(), EncodeError>)
        ensures
            match r {
                Ok(()) => spec_freq_ok(*record) && final(self).buffered() == old(self).buffered()
                    + spec_record_written(flarm_id, *record),
                Err(e) => {
                    &&& !spec_freq_ok(*record)
                    &&& final(self).buffered() == old(self).buffered()
                    &&& (e matches EncodeError::InvalidFrequency(t) && t@ == record.frequency@)
                },
            },
    {
        let frequency = match parse_frequency(record.frequency.as_str()) {
            Ok(f) => f,
            Err(e) => {
                return Err(e);
            },
        };

        let mut buf: Vec<u8> = Vec::new();
        let mut idb = u32_to_le_bytes(flarm_id);
        buf.append(&mut idb);
        let mut fqb = u32_to_le_bytes(frequency);
        buf.append(&mut fqb);
        let mut z: usize = 0;
        while z < 8
            invariant
                0 <= z <= 8,
                buf@ == spec_u32_to_le_bytes(flarm_id) + spec_u32_to_le_bytes(frequency)
                    + spec_zeros(z as int),
                frequency == spec_rec_freq_value(*record),
            decreases 8 - z,
        {
            buf.push(0);
            proof {
                assert(buf@ =~= spec_u32_to_le_bytes(flarm_id) + spec_u32_to_le_bytes(frequency)
                    + spec_zeros(z + 1));
            }
            z = z + 1;
        }
        write_string(&mut buf, record.call_sign.as_str());
        write_string(&mut buf, record.pilot_name.as_str());
        write_string(&mut buf, record.airfield.as_str());
        write_string(&mut buf, record.plane_type.as_str());
        write_string(&mut buf, record.registration.as_str());
        proof {
            reveal(spec_record_written);
            assert(buf@ =~= spec_record_written(flarm_id, *record));
        }
        self.writer.append(&mut buf);
        Ok(())
    }

    /// Hands the buffer back.
    pub fn into_inner(self) -> (v: Vec<u8>)
        ensures
            v@ == self.buffered(),
    {
        self.writer
    }
}

/// Encodes `file` into a fresh byte buffer.
pub fn encode_file(file: &File) -> (r: Result<Vec<u8>, EncodeError>)
    requires
        file.records@.len() <= u32::MAX,
    ensures
        match r {
            Ok(bytes) => spec_encode_ok(*file) && bytes@ == spec_encoded(*file),
            Err(e) => !spec_encode_ok(*file) && spec_encode_error_matches(*file, e),
        },
{
    let mut writer = Writer::new(Vec::new());
    match writer.write(file) {
        Ok(()) => Ok(writer.into_inner()),
        Err(e) => Err(e),
    }
}

} // verus!
