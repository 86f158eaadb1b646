//! The codec's global guarantees, proved from the encoder's and decoder's
//! contracts: a file that encodes decodes back to the same records (sorted
//! by ascending FLARM id), and re-encoding what was decoded reproduces the
//! bytes exactly.

use vstd::prelude::*;

verus! {

use vstd::bytes::{lemma_auto_spec_u32_to_from_le_bytes, spec_u32_to_le_bytes};
use vstd::utf8::{decode_utf8, encode_utf8};
use crate::{File, Record};
use crate::consts::{
    AIRFIELD_OFFSET, CALL_SIGN_OFFSET, PILOT_NAME_OFFSET, PLANE_TYPE_OFFSET, REGISTRATION_OFFSET,
    spec_count_of, spec_expected_size, spec_magic, spec_record_slot, spec_version_of,
};
use crate::decode::{spec_decode_ok, spec_field_content, spec_rec_freq, spec_rec_id, spec_rec_ok};
use crate::encode::{
    spec_encode_ok, spec_encoded, spec_entries, spec_freq_ok, spec_header_bytes, spec_id_ok,
    spec_id_value, spec_index_bytes, spec_rec_freq_value, spec_record_written, spec_records_bytes,
    spec_sort, spec_sorted_by_id, lemma_sort_multiset, lemma_sort_sorted,
};
use crate::text::{
    lemma_field_content_of_written, lemma_field_written_len, lemma_hex_value_nonneg,
    lemma_truncated_valid, spec_field_written, spec_freq_bytes, spec_hex6, spec_truncated,
};

/// True when none of the record's five text fields encodes to bytes
/// holding a zero: a zero byte would act as a premature field terminator.
pub open spec fn spec_no_nul_text(r: Record) -> bool {
    &&& !encode_utf8(r.call_sign@).contains(0)
    &&& !encode_utf8(r.pilot_name@).contains(0)
    &&& !encode_utf8(r.airfield@).contains(0)
    &&& !encode_utf8(r.plane_type@).contains(0)
    &&& !encode_utf8(r.registration@).contains(0)
}

/// True when every text field of the record fits its 16-byte slot without
/// truncation: at most 15 bytes of UTF-8 each.
pub open spec fn spec_text_fits(r: Record) -> bool {
    &&& encode_utf8(r.call_sign@).len() <= 15
    &&& encode_utf8(r.pilot_name@).len() <= 15
    &&& encode_utf8(r.airfield@).len() <= 15
    &&& encode_utf8(r.plane_type@).len() <= 15
    &&& encode_utf8(r.registration@).len() <= 15
}

proof fn lemma_index_bytes_len(sorted: Seq<(u32, usize)>, k: int)
    requires
        k >= 0,
    ensures
        spec_index_bytes(sorted, k).len() == 4 * k,
    decreases k,
{
    lemma_auto_spec_u32_to_from_le_bytes();
    if k > 0 {
        lemma_index_bytes_len(sorted, k - 1);
    }
}

proof fn lemma_record_written_len(id: u32, r: Record)
    ensures
        spec_record_written(id, r).len() == 96,
{
    reveal(crate::encode::spec_record_written);
    lemma_auto_spec_u32_to_from_le_bytes();
    lemma_field_written_len(encode_utf8(r.call_sign@));
    lemma_field_written_len(encode_utf8(r.pilot_name@));
    lemma_field_written_len(encode_utf8(r.airfield@));
    lemma_field_written_len(encode_utf8(r.plane_type@));
    lemma_field_written_len(encode_utf8(r.registration@));
}

proof fn lemma_records_bytes_len(rs: Seq<Record>, sorted: Seq<(u32, usize)>, k: int)
    requires
        k >= 0,
    ensures
        spec_records_bytes(rs, sorted, k).len() == 96 * k,
    decreases k,
{
    if k > 0 {
        lemma_records_bytes_len(rs, sorted, k - 1);
        lemma_record_written_len(sorted[k - 1].0, rs[sorted[k - 1].1 as int]);
    }
}

proof fn lemma_records_bytes_slot(rs: Seq<Record>, sorted: Seq<(u32, usize)>, k: int, i: int)
    requires
        0 <= i < k,
    ensures
        spec_records_bytes(rs, sorted, k).subrange(96 * i, 96 * i + 96) == spec_record_written(
            sorted[i].0,
            rs[sorted[i].1 as int],
        ),
    decreases k,
{
    lemma_records_bytes_len(rs, sorted, k - 1);
    lemma_record_written_len(sorted[k - 1].0, rs[sorted[k - 1].1 as int]);
    if i == k - 1 {
        assert(spec_records_bytes(rs, sorted, k).subrange(96 * i, 96 * i + 96)
            =~= spec_record_written(sorted[i].0, rs[sorted[i].1 as int]));
    } else {
        lemma_records_bytes_slot(rs, sorted, k - 1, i);
        assert(spec_records_bytes(rs, sorted, k).subrange(96 * i, 96 * i + 96)
            =~= spec_records_bytes(rs, sorted, k - 1).subrange(96 * i, 96 * i + 96));
    }
}

/// Reading back one written text field: its decoded content is exactly the
/// truncated original, and the whole original when it fits the field.
proof fn lemma_field_slot(rb: Seq<u8>, off: int, s: Seq<char>)
    requires
        0 <= off,
        off + 16 <= rb.len(),
        rb.subrange(off, off + 16) == spec_field_written(encode_utf8(s)),
        !encode_utf8(s).contains(0),
    ensures
        spec_field_content(rb, off) == spec_truncated(encode_utf8(s)),
        vstd::utf8::valid_utf8(spec_field_content(rb, off)),
        encode_utf8(s).len() <= 15 ==> decode_utf8(spec_field_content(rb, off)) == s,
{
    let b = encode_utf8(s);
    assert forall|i: int| 0 <= i < b.len() implies #[trigger] b[i] != 0 by {
        if b[i] == 0 {
            assert(b.contains(0));
        }
    }
    lemma_field_content_of_written(b);
    lemma_truncated_valid(s);
}

/// Round trip: a file whose ids and frequencies parse and whose text
/// fields hold no zero byte encodes to a buffer that decodes completely.
/// The buffer carries the version unchanged and one valid record slot per
/// input record; slot `i` holds the record at input position
/// `sorted[i].1`, where the sorted entries are a permutation of the input
/// entries arranged by ascending numeric id. Each slot stores the input
/// record's numeric id and frequency exactly, and each decoded text field
/// is the original one truncated to the field — the original itself
/// whenever its bytes fit. A canonically written id or frequency string
/// therefore comes back verbatim.
pub proof fn lemma_encode_decode_round_trip(f: File)
    requires
        f.records@.len() <= u32::MAX,
        spec_encode_ok(f),
        forall|i: int| 0 <= i < f.records@.len() ==> spec_no_nul_text(#[trigger] f.records@[i]),
    ensures
        ({
            let data = spec_encoded(f);
            let rs = f.records@;
            let n = rs.len() as int;
            let sorted = spec_sort(spec_entries(rs));
            &&& spec_decode_ok(data)
            &&& spec_version_of(data) == f.version
            &&& spec_count_of(data) == n
            &&& sorted.to_multiset() == spec_entries(rs).to_multiset()
            &&& spec_sorted_by_id(sorted)
            &&& forall|i: int|
                0 <= i < n ==> {
                    let rb = spec_record_slot(data, n, i);
                    let orig = rs[(#[trigger] sorted[i]).1 as int];
                    &&& sorted[i].1 < n
                    &&& spec_rec_ok(rb)
                    &&& spec_rec_id(rb) == spec_id_value(orig)
                    &&& spec_rec_freq(rb) == spec_rec_freq_value(orig)
                    &&& (encode_utf8(orig.flarm_id@) == spec_hex6(spec_id_value(orig))
                        ==> decode_utf8(spec_hex6(spec_rec_id(rb))) == orig.flarm_id@)
                    &&& (encode_utf8(orig.frequency@) == spec_freq_bytes(spec_rec_freq_value(orig))
                        ==> decode_utf8(spec_freq_bytes(spec_rec_freq(rb))) == orig.frequency@)
                    &&& spec_field_content(rb, CALL_SIGN_OFFSET as int) == spec_truncated(
                        encode_utf8(orig.call_sign@),
                    )
                    &&& spec_field_content(rb, PILOT_NAME_OFFSET as int) == spec_truncated(
                        encode_utf8(orig.pilot_name@),
                    )
                    &&& spec_field_content(rb, AIRFIELD_OFFSET as int) == spec_truncated(
                        encode_utf8(orig.airfield@),
                    )
                    &&& spec_field_content(rb, PLANE_TYPE_OFFSET as int) == spec_truncated(
                        encode_utf8(orig.plane_type@),
                    )
                    &&& spec_field_content(rb, REGISTRATION_OFFSET as int) == spec_truncated(
                        encode_utf8(orig.registration@),
                    )
                    &&& (spec_text_fits(orig) ==> {
                        &&& decode_utf8(spec_field_content(rb, CALL_SIGN_OFFSET as int))
                            == orig.call_sign@
                        &&& decode_utf8(spec_field_content(rb, PILOT_NAME_OFFSET as int))
                            == orig.pilot_name@
                        &&& decode_utf8(spec_field_content(rb, AIRFIELD_OFFSET as int))
                            == orig.airfield@
                        &&& decode_utf8(spec_field_content(rb, PLANE_TYPE_OFFSET as int))
                            == orig.plane_type@
                        &&& decode_utf8(spec_field_content(rb, REGISTRATION_OFFSET as int))
                            == orig.registration@
                    })
                }
        }),
{
    broadcast use vstd::seq_lib::group_to_multiset_ensures;
    broadcast use vstd::multiset::group_multiset_axioms;

    let data = spec_encoded(f);
    let rs = f.records@;
    let n = rs.len() as int;
    let es = spec_entries(rs);
    let sorted = spec_sort(es);
    lemma_sort_multiset(es);
    lemma_sort_sorted(es);
    lemma_auto_spec_u32_to_from_le_bytes();
    lemma_index_bytes_len(sorted, n);
    lemma_records_bytes_len(rs, sorted, n);
    let header = spec_header_bytes(f.version, n as u32);
    let index = spec_index_bytes(sorted, n);
    let recbytes = spec_records_bytes(rs, sorted, n);
    assert(data.len() == 12 + 4 * n + 8 + 96 * n);
    assert(data.subrange(0, 4) =~= spec_magic());
    assert(data.subrange(4, 8) =~= spec_u32_to_le_bytes(f.version));
    assert(data.subrange(8, 12) =~= spec_u32_to_le_bytes(n as u32));
    assert(spec_version_of(data) == f.version);
    assert(spec_count_of(data) == n as u32);
    assert(data.len() == spec_expected_size(n));
    assert(spec_decode_ok(data));

    assert forall|i: int| 0 <= i < n implies ((#[trigger] sorted[i]).1 < n && sorted[i].0
        == spec_id_value(rs[sorted[i].1 as int])) by {
        assert(sorted.contains(sorted[i]));
        assert(es.to_multiset().count(sorted[i]) > 0);
        assert(es.contains(sorted[i]));
        let j = choose|j: int| 0 <= j < es.len() && es[j] == sorted[i];
        assert(es[j] == (spec_id_value(rs[j]), j as usize));
    }

    assert forall|i: int| 0 <= i < n implies {
        let rb = spec_record_slot(data, n, i);
        let orig = rs[(#[trigger] sorted[i]).1 as int];
        &&& spec_rec_ok(rb)
        &&& spec_rec_id(rb) == spec_id_value(orig)
        &&& spec_rec_freq(rb) == spec_rec_freq_value(orig)
        &&& (encode_utf8(orig.flarm_id@) == spec_hex6(spec_id_value(orig)) ==> decode_utf8(
            spec_hex6(spec_rec_id(rb)),
        ) == orig.flarm_id@)
        &&& (encode_utf8(orig.frequency@) == spec_freq_bytes(spec_rec_freq_value(orig))
            ==> decode_utf8(spec_freq_bytes(spec_rec_freq(rb))) == orig.frequency@)
        &&& spec_field_content(rb, CALL_SIGN_OFFSET as int) == spec_truncated(
            encode_utf8(orig.call_sign@),
        )
        &&& spec_field_content(rb, PILOT_NAME_OFFSET as int) == spec_truncated(
            encode_utf8(orig.pilot_name@),
        )
        &&& spec_field_content(rb, AIRFIELD_OFFSET as int) == spec_truncated(
            encode_utf8(orig.airfield@),
        )
        &&& spec_field_content(rb, PLANE_TYPE_OFFSET as int) == spec_truncated(
            encode_utf8(orig.plane_type@),
        )
        &&& spec_field_content(rb, REGISTRATION_OFFSET as int) == spec_truncated(
            encode_utf8(orig.registration@),
        )
        &&& (spec_text_fits(orig) ==> {
            &&& decode_utf8(spec_field_content(rb, CALL_SIGN_OFFSET as int)) == orig.call_sign@
            &&& decode_utf8(spec_field_content(rb, PILOT_NAME_OFFSET as int)) == orig.pilot_name@
            &&& decode_utf8(spec_field_content(rb, AIRFIELD_OFFSET as int)) == orig.airfield@
            &&& decode_utf8(spec_field_content(rb, PLANE_TYPE_OFFSET as int)) == orig.plane_type@
            &&& decode_utf8(spec_field_content(rb, REGISTRATION_OFFSET as int))
                == orig.registration@
        })
    } by {
        reveal(crate::encode::spec_record_written);
        let rb = spec_record_slot(data, n, i);
        let idx = sorted[i].1 as int;
        let orig = rs[idx];
        let w = spec_record_written(sorted[i].0, orig);
        lemma_record_written_len(sorted[i].0, orig);
        lemma_records_bytes_slot(rs, sorted, n, i);
        assert(rb =~= recbytes.subrange(96 * i, 96 * i + 96));
        assert(rb == w);
        assert(rb.subrange(0, 4) =~= spec_u32_to_le_bytes(sorted[i].0));
        assert(rb.subrange(4, 8) =~= spec_u32_to_le_bytes(spec_rec_freq_value(orig)));
        assert(spec_rec_id(rb) == sorted[i].0);
        assert(spec_rec_freq(rb) == spec_rec_freq_value(orig));
        assert(spec_id_ok(orig));
        lemma_hex_value_nonneg(encode_utf8(orig.flarm_id@));
        assert(spec_id_value(orig) <= 0xFFFFFF);
        if encode_utf8(orig.flarm_id@) == spec_hex6(spec_id_value(orig)) {
            vstd::utf8::encode_utf8_decode_utf8(orig.flarm_id@);
        }
        if encode_utf8(orig.frequency@) == spec_freq_bytes(spec_rec_freq_value(orig)) {
            vstd::utf8::encode_utf8_decode_utf8(orig.frequency@);
        }
        lemma_field_written_len(encode_utf8(orig.call_sign@));
        lemma_field_written_len(encode_utf8(orig.pilot_name@));
        lemma_field_written_len(encode_utf8(orig.airfield@));
        lemma_field_written_len(encode_utf8(orig.plane_type@));
        lemma_field_written_len(encode_utf8(orig.registration@));
        assert(spec_no_nul_text(orig));
        assert(rb.subrange(16, 32) =~= spec_field_written(encode_utf8(orig.call_sign@)));
        assert(rb.subrange(32, 48) =~= spec_field_written(encode_utf8(orig.pilot_name@)));
        assert(rb.subrange(48, 64) =~= spec_field_written(encode_utf8(orig.airfield@)));
        assert(rb.subrange(64, 80) =~= spec_field_written(encode_utf8(orig.plane_type@)));
        assert(rb.subrange(80, 96) =~= spec_field_written(encode_utf8(orig.registration@)));
        lemma_field_slot(rb, CALL_SIGN_OFFSET as int, orig.call_sign@);
        lemma_field_slot(rb, PILOT_NAME_OFFSET as int, orig.pilot_name@);
        lemma_field_slot(rb, AIRFIELD_OFFSET as int, orig.airfield@);
        lemma_field_slot(rb, PLANE_TYPE_OFFSET as int, orig.plane_type@);
        lemma_field_slot(rb, REGISTRATION_OFFSET as int, orig.registration@);
        assert(spec_rec_ok(rb));
    }
}

/// Sorting an already sorted sequence leaves it unchanged: the stable sort
/// never reorders entries with equal ids.
pub proof fn lemma_sort_of_sorted(s: Seq<(u32, usize)>)
    requires
        spec_sorted_by_id(s),
    ensures
        spec_sort(s) == s,
    decreases s.len(),
{
    if s.len() == 0 {
        assert(spec_sort(s) =~= s);
    } else {
        assert(spec_sorted_by_id(s.drop_last()));
        lemma_sort_of_sorted(s.drop_last());
        if s.len() == 1 {
            assert(crate::encode::spec_insert_sorted(s.drop_last(), s.last()) =~= s);
        } else {
            assert(s.drop_last().last() == s[s.len() - 2]);
            assert(s[s.len() - 2].0 <= s.last().0);
            assert(s.drop_last().push(s.last()) =~= s);
        }
    }
}

proof fn lemma_index_bytes_congruent(s1: Seq<(u32, usize)>, s2: Seq<(u32, usize)>, k: int)
    requires
        forall|j: int| 0 <= j < k ==> (#[trigger] s1[j]).0 == s2[j].0,
    ensures
        spec_index_bytes(s1, k) == spec_index_bytes(s2, k),
    decreases k,
{
    if k > 0 {
        lemma_index_bytes_congruent(s1, s2, k - 1);
    }
}

proof fn lemma_records_bytes_congruent(
    rs1: Seq<Record>,
    s1: Seq<(u32, usize)>,
    rs2: Seq<Record>,
    s2: Seq<(u32, usize)>,
    k: int,
)
    requires
        forall|j: int|
            0 <= j < k ==> spec_record_written((#[trigger] s1[j]).0, rs1[s1[j].1 as int])
                == spec_record_written(s2[j].0, rs2[s2[j].1 as int]),
    ensures
        spec_records_bytes(rs1, s1, k) == spec_records_bytes(rs2, s2, k),
    decreases k,
{
    if k > 0 {
        lemma_records_bytes_congruent(rs1, s1, rs2, s2, k - 1);
    }
}

/// A text field that went through the codec writes back the same bytes:
/// what was stored is the truncated original, it fits the field, and so it
/// is stored unchanged.
proof fn lemma_field_rewrite(c: Seq<char>, s: Seq<char>)
    requires
        !encode_utf8(s).contains(0),
        c == decode_utf8(spec_truncated(encode_utf8(s))),
    ensures
        spec_field_written(encode_utf8(c)) == spec_field_written(encode_utf8(s)),
{
    let b = encode_utf8(s);
    lemma_truncated_valid(s);
    vstd::utf8::decode_utf8_encode_utf8(spec_truncated(b));
    assert(encode_utf8(c) == spec_truncated(b));
    lemma_field_written_len(b);
    assert(spec_truncated(encode_utf8(c)) == encode_utf8(c));
}

/// Header facts of an encoding: magic, version, count, and total length.
proof fn lemma_encoded_header(f: File)
    requires
        f.records@.len() <= u32::MAX,
    ensures
        spec_version_of(spec_encoded(f)) == f.version,
        spec_count_of(spec_encoded(f)) == f.records@.len(),
        spec_encoded(f).len() == spec_expected_size(f.records@.len() as int),
        spec_encoded(f).subrange(0, 4) == spec_magic(),
{
    let rs = f.records@;
    let n = rs.len() as int;
    let sorted = spec_sort(spec_entries(rs));
    lemma_sort_multiset(spec_entries(rs));
    lemma_auto_spec_u32_to_from_le_bytes();
    lemma_index_bytes_len(sorted, n);
    lemma_records_bytes_len(rs, sorted, n);
    let data = spec_encoded(f);
    assert(data.subrange(0, 4) =~= spec_magic());
    assert(data.subrange(4, 8) =~= spec_u32_to_le_bytes(f.version));
    assert(data.subrange(8, 12) =~= spec_u32_to_le_bytes(n as u32));
}

/// Record slot `i` of an encoding holds exactly the bytes written for the
/// record the sorted entry at `i` points to.
proof fn lemma_slot_is_record_written(f: File, i: int)
    requires
        f.records@.len() <= u32::MAX,
        0 <= i < f.records@.len(),
    ensures
        ({
            let rs = f.records@;
            let n = rs.len() as int;
            let sorted = spec_sort(spec_entries(rs));
            &&& sorted[i].1 < n
            &&& sorted[i].0 == spec_id_value(rs[sorted[i].1 as int])
            &&& spec_record_slot(spec_encoded(f), n, i) == spec_record_written(
                sorted[i].0,
                rs[sorted[i].1 as int],
            )
        }),
{
    broadcast use vstd::seq_lib::group_to_multiset_ensures;
    broadcast use vstd::multiset::group_multiset_axioms;

    let rs = f.records@;
    let n = rs.len() as int;
    let es = spec_entries(rs);
    let sorted = spec_sort(es);
    lemma_sort_multiset(es);
    assert(sorted.contains(sorted[i]));
    assert(es.to_multiset().count(sorted[i]) > 0);
    assert(es.contains(sorted[i]));
    let j = choose|j: int| 0 <= j < es.len() && es[j] == sorted[i];
    assert(es[j] == (spec_id_value(rs[j]), j as usize));

    lemma_auto_spec_u32_to_from_le_bytes();
    lemma_index_bytes_len(sorted, n);
    lemma_records_bytes_len(rs, sorted, n);
    let recbytes = spec_records_bytes(rs, sorted, n);
    let rb = spec_record_slot(spec_encoded(f), n, i);
    lemma_record_written_len(sorted[i].0, rs[sorted[i].1 as int]);
    lemma_records_bytes_slot(rs, sorted, n, i);
    assert(rb =~= recbytes.subrange(96 * i, 96 * i + 96));
}

/// The readable facts of one written record: its stored id and frequency,
/// and the truncated content of each text field.
proof fn lemma_written_record_facts(rb: Seq<u8>, id: u32, orig: Record)
    requires
        rb == spec_record_written(id, orig),
        spec_no_nul_text(orig),
    ensures
        spec_rec_id(rb) == id,
        spec_rec_freq(rb) == spec_rec_freq_value(orig),
        spec_field_content(rb, CALL_SIGN_OFFSET as int) == spec_truncated(
            encode_utf8(orig.call_sign@),
        ),
        spec_field_content(rb, PILOT_NAME_OFFSET as int) == spec_truncated(
            encode_utf8(orig.pilot_name@),
        ),
        spec_field_content(rb, AIRFIELD_OFFSET as int) == spec_truncated(
            encode_utf8(orig.airfield@),
        ),
        spec_field_content(rb, PLANE_TYPE_OFFSET as int) == spec_truncated(
            encode_utf8(orig.plane_type@),
        ),
        spec_field_content(rb, REGISTRATION_OFFSET as int) == spec_truncated(
            encode_utf8(orig.registration@),
        ),
{
    reveal(crate::encode::spec_record_written);
    lemma_auto_spec_u32_to_from_le_bytes();
    lemma_record_written_len(id, orig);
    lemma_field_written_len(encode_utf8(orig.call_sign@));
    lemma_field_written_len(encode_utf8(orig.pilot_name@));
    lemma_field_written_len(encode_utf8(orig.airfield@));
    lemma_field_written_len(encode_utf8(orig.plane_type@));
    lemma_field_written_len(encode_utf8(orig.registration@));
    assert(rb.subrange(0, 4) =~= spec_u32_to_le_bytes(id));
    assert(rb.subrange(4, 8) =~= spec_u32_to_le_bytes(spec_rec_freq_value(orig)));
    assert(rb.subrange(16, 32) =~= spec_field_written(encode_utf8(orig.call_sign@)));
    assert(rb.subrange(32, 48) =~= spec_field_written(encode_utf8(orig.pilot_name@)));
    assert(rb.subrange(48, 64) =~= spec_field_written(encode_utf8(orig.airfield@)));
    assert(rb.subrange(64, 80) =~= spec_field_written(encode_utf8(orig.plane_type@)));
    assert(rb.subrange(80, 96) =~= spec_field_written(encode_utf8(orig.registration@)));
    lemma_field_slot(rb, CALL_SIGN_OFFSET as int, orig.call_sign@);
    lemma_field_slot(rb, PILOT_NAME_OFFSET as int, orig.pilot_name@);
    lemma_field_slot(rb, AIRFIELD_OFFSET as int, orig.airfield@);
    lemma_field_slot(rb, PLANE_TYPE_OFFSET as int, orig.plane_type@);
    lemma_field_slot(rb, REGISTRATION_OFFSET as int, orig.registration@);
}

/// One decoded record re-encodes to the same 96 bytes: its id and
/// frequency come back in canonical form with the same values, and each
/// text field stores the same bytes again.
proof fn lemma_record_reencodes(rb: Seq<u8>, orig: Record, r2: Record)
    requires
        crate::decode::spec_record_matches(r2, rb),
        spec_rec_id(rb) <= 0xFFFFFF,
        spec_rec_freq(rb) == spec_rec_freq_value(orig),
        spec_no_nul_text(orig),
        spec_field_content(rb, CALL_SIGN_OFFSET as int) == spec_truncated(
            encode_utf8(orig.call_sign@),
        ),
        spec_field_content(rb, PILOT_NAME_OFFSET as int) == spec_truncated(
            encode_utf8(orig.pilot_name@),
        ),
        spec_field_content(rb, AIRFIELD_OFFSET as int) == spec_truncated(
            encode_utf8(orig.airfield@),
        ),
        spec_field_content(rb, PLANE_TYPE_OFFSET as int) == spec_truncated(
            encode_utf8(orig.plane_type@),
        ),
        spec_field_content(rb, REGISTRATION_OFFSET as int) == spec_truncated(
            encode_utf8(orig.registration@),
        ),
    ensures
        spec_id_ok(r2),
        spec_id_value(r2) == spec_rec_id(rb),
        spec_freq_ok(r2),
        spec_record_written(spec_rec_id(rb), r2) == spec_record_written(spec_rec_id(rb), orig),
{
    reveal(crate::encode::spec_record_written);
    let v = spec_rec_id(rb);

    // the id comes back in canonical form and parses to the same value
    assert(r2.flarm_id@ == decode_utf8(spec_hex6(v)));
    crate::text::lemma_hex6_shape(v);
    crate::text::lemma_ascii_valid_utf8(spec_hex6(v));
    vstd::utf8::decode_utf8_encode_utf8(spec_hex6(v));
    assert(encode_utf8(r2.flarm_id@) == spec_hex6(v));
    crate::text::lemma_hex6_value(v);

    // the frequency comes back in canonical form with the same value
    let w = spec_rec_freq_value(orig);
    assert(r2.frequency@ == decode_utf8(spec_freq_bytes(w)));
    crate::text::lemma_freq_bytes_ascii(w);
    crate::text::lemma_ascii_valid_utf8(spec_freq_bytes(w));
    vstd::utf8::decode_utf8_encode_utf8(spec_freq_bytes(w));
    assert(encode_utf8(r2.frequency@) == spec_freq_bytes(w));
    if w == 0 {
        assert(spec_freq_bytes(w) =~= Seq::<u8>::empty());
        assert(spec_rec_freq_value(r2) == 0);
    } else {
        crate::text::lemma_freq_round_trip(w);
        assert(spec_rec_freq_value(r2) == w);
    }

    // each text field stores the same 16 bytes again
    lemma_field_rewrite(r2.call_sign@, orig.call_sign@);
    lemma_field_rewrite(r2.pilot_name@, orig.pilot_name@);
    lemma_field_rewrite(r2.airfield@, orig.airfield@);
    lemma_field_rewrite(r2.plane_type@, orig.plane_type@);
    lemma_field_rewrite(r2.registration@, orig.registration@);
}

/// Every decoded record re-encodes to the byte-identical 96-byte block of
/// the slot it was read from.
#[verifier::rlimit(100)]
#[verifier::spinoff_prover]
proof fn lemma_reencode_slots(f: File, f2: File)
    requires
        f.records@.len() <= u32::MAX,
        spec_encode_ok(f),
        forall|i: int| 0 <= i < f.records@.len() ==> spec_no_nul_text(#[trigger] f.records@[i]),
        f2.records@.len() == f.records@.len(),
        forall|i: int|
            0 <= i < f2.records@.len() ==> crate::decode::spec_record_matches(
                #[trigger] f2.records@[i],
                spec_record_slot(spec_encoded(f), f.records@.len() as int, i),
            ),
    ensures
        ({
            let sorted = spec_sort(spec_entries(f.records@));
            forall|i: int|
                0 <= i < f.records@.len() ==> {
                    let orig = f.records@[(#[trigger] sorted[i]).1 as int];
                    &&& sorted[i].1 < f.records@.len()
                    &&& spec_id_ok(f2.records@[i])
                    &&& spec_id_value(f2.records@[i]) == sorted[i].0
                    &&& spec_freq_ok(f2.records@[i])
                    &&& spec_record_written(sorted[i].0, f2.records@[i]) == spec_record_written(
                        sorted[i].0,
                        orig,
                    )
                }
        }),
{
    let data = spec_encoded(f);
    let rs = f.records@;
    let rs2 = f2.records@;
    let n = rs.len() as int;
    let sorted = spec_sort(spec_entries(rs));
    assert forall|i: int| 0 <= i < n implies {
        let orig = rs[(#[trigger] sorted[i]).1 as int];
        &&& sorted[i].1 < n
        &&& spec_id_ok(rs2[i])
        &&& spec_id_value(rs2[i]) == sorted[i].0
        &&& spec_freq_ok(rs2[i])
        &&& spec_record_written(sorted[i].0, rs2[i]) == spec_record_written(sorted[i].0, orig)
    } by {
        lemma_slot_is_record_written(f, i);
        let rb = spec_record_slot(data, n, i);
        let orig = rs[sorted[i].1 as int];
        assert(spec_id_ok(orig));
        lemma_hex_value_nonneg(encode_utf8(orig.flarm_id@));
        assert(sorted[i].0 <= 0xFFFFFF);
        lemma_written_record_facts(rb, sorted[i].0, orig);
        assert(crate::decode::spec_record_matches(rs2[i], rb));
        lemma_record_reencodes(rb, orig, rs2[i]);
    }
}

/// Once every slot re-encodes identically, the whole files encode
/// identically: the decoded entries are already sorted, so the stable
/// sort, the index, and the record sections all reproduce themselves.
#[verifier::rlimit(100)]
#[verifier::spinoff_prover]
proof fn lemma_assemble_equal(f: File, f2: File)
    requires
        f.records@.len() <= u32::MAX,
        f2.records@.len() == f.records@.len(),
        f2.version == f.version,
        spec_sorted_by_id(spec_sort(spec_entries(f.records@))),
        ({
            let sorted = spec_sort(spec_entries(f.records@));
            forall|i: int|
                0 <= i < f.records@.len() ==> {
                    let orig = f.records@[(#[trigger] sorted[i]).1 as int];
                    &&& sorted[i].1 < f.records@.len()
                    &&& spec_id_ok(f2.records@[i])
                    &&& spec_id_value(f2.records@[i]) == sorted[i].0
                    &&& spec_freq_ok(f2.records@[i])
                    &&& spec_record_written(sorted[i].0, f2.records@[i]) == spec_record_written(
                        sorted[i].0,
                        orig,
                    )
                }
        }),
    ensures
        spec_encode_ok(f2),
        spec_encoded(f2) == spec_encoded(f),
{
    let rs = f.records@;
    let rs2 = f2.records@;
    let n = rs.len() as int;
    let sorted = spec_sort(spec_entries(rs));
    lemma_sort_multiset(spec_entries(rs));
    assert(sorted.len() == n);
    assert forall|i: int| 0 <= i < n implies spec_id_ok(#[trigger] rs2[i]) && spec_freq_ok(
        rs2[i],
    ) by {
        assert(0 <= i < sorted.len() || sorted.len() <= i);
        let probe = sorted[i];
        assert(spec_id_ok(rs2[i]));
    }
    assert(spec_encode_ok(f2));

    // the decoded records are already sorted, so sorting is the identity
    let es2 = spec_entries(rs2);
    assert forall|i: int| 0 <= i < n implies (#[trigger] es2[i]) == (sorted[i].0, i as usize) by {
        assert(es2[i] == (spec_id_value(rs2[i]), i as usize));
    }
    assert forall|i: int, j: int| 0 <= i < j < es2.len() implies (#[trigger] es2[i]).0
        <= (#[trigger] es2[j]).0 by {
        assert(es2[i] == (sorted[i].0, i as usize));
        assert(es2[j] == (sorted[j].0, j as usize));
    }
    assert(spec_sorted_by_id(es2));
    lemma_sort_of_sorted(es2);
    let sorted2 = spec_sort(es2);
    assert(sorted2 == es2);

    // identical header, index, and record sections
    assert forall|j: int| 0 <= j < n implies (#[trigger] sorted2[j]).0 == sorted[j].0 by {
        assert(es2[j] == (sorted[j].0, j as usize));
    }
    lemma_index_bytes_congruent(sorted2, sorted, n);
    assert forall|j: int| 0 <= j < n implies spec_record_written(
        (#[trigger] sorted2[j]).0,
        rs2[sorted2[j].1 as int],
    ) == spec_record_written(sorted[j].0, rs[sorted[j].1 as int]) by {
        assert(es2[j] == (sorted[j].0, j as usize));
        assert(sorted2[j].1 == j as usize);
        assert(sorted2[j].0 == sorted[j].0);
        assert(spec_record_written(sorted[j].0, rs2[j]) == spec_record_written(
            sorted[j].0,
            rs[sorted[j].1 as int],
        ));
    }
    lemma_records_bytes_congruent(rs2, sorted2, rs, sorted, n);
    assert(spec_index_bytes(sorted2, es2.len() as int) == spec_index_bytes(sorted, n));
    assert(spec_records_bytes(rs2, sorted2, rs2.len() as int) == spec_records_bytes(
        rs,
        sorted,
        n,
    ));
    assert(spec_encoded(f2) == spec_encoded(f));
}

/// Idempotence: encoding, decoding, and encoding again reproduces the
/// first encoding byte for byte. `f2` stands for any file assembled from a
/// full decode of `f`'s encoding (same version, one matching record per
/// slot); its encoding equals `f`'s.
#[verifier::rlimit(100)]
#[verifier::spinoff_prover]
pub proof fn lemma_encode_idempotent(f: File, f2: File)
    requires
        f.records@.len() <= u32::MAX,
        spec_encode_ok(f),
        forall|i: int| 0 <= i < f.records@.len() ==> spec_no_nul_text(#[trigger] f.records@[i]),
        f2.version == spec_version_of(spec_encoded(f)),
        f2.records@.len() == spec_count_of(spec_encoded(f)),
        forall|i: int|
            0 <= i < f2.records@.len() ==> crate::decode::spec_record_matches(
                #[trigger] f2.records@[i],
                spec_record_slot(spec_encoded(f), f.records@.len() as int, i),
            ),
    ensures
        spec_encode_ok(f2),
        spec_encoded(f2) == spec_encoded(f),
{
    lemma_encoded_header(f);
    crate::encode::lemma_sort_sorted(spec_entries(f.records@));
    lemma_reencode_slots(f, f2);
    lemma_assemble_equal(f, f2);
}

} // verus!
