//! Reading back a written archive.
//!
//! An archive written by the writer parses again: its header locates the
//! records, each record and each name reads back as written, and each
//! file's data is where its entry says. For an archive made by the builder
//! this gives back the files it was built from; for an archive in the
//! shape the reader gives, the same entries, nodes and links, and every
//! file's data.

use vstd::prelude::*;
use crate::utils::{
    spec_read_u16_be, spec_read_u32_be, spec_u16_be_bytes, spec_u32_be_bytes, spec_u32_of, spec_zeros, lemma_u32_be_roundtrip, lemma_u16_be_roundtrip,
};
use crate::formats::rarc::parser::{
    RarcModel, NodeModel, FileEntryModel, HeaderOffsets, spec_header_offsets, spec_magic_rarc,
};
use crate::text::spec_utf8_lossy;
use crate::formats::rarc::parser::{
    spec_cstring_end, spec_read_cstring, spec_entry_at, spec_node_at, spec_entries_from, spec_nodes_from,
    spec_parse_plain, spec_parse_rarc, spec_with_parent, spec_parent_of, spec_with_dir_entry, spec_dir_entry_of,
    spec_list_files, spec_list_upto, spec_file_path, spec_links_ok, lemma_entries_from_dir_node,
    lemma_parent_of_bound, lemma_dir_entry_of_bound,
};
use crate::formats::rarc::builder::{
    spec_builder_with, spec_root_file_entry, spec_data_size, lemma_builder_shape, lemma_builder_lists_files,
};
use crate::formats::compression::yaz0::{spec_magic_yaz0, spec_yaz0_compress, lemma_yaz0_roundtrip};
use crate::formats::rarc::writer::{
    TableModel, spec_table_add, spec_file_data_upto, spec_file_offset, spec_table_of, spec_table_lookup, spec_all_names, spec_name_offset,
    lemma_table_has_names,
    spec_rarc_bytes, spec_main_header, spec_data_header, spec_node_records, spec_entry_records,
    spec_node_record, spec_entry_record, spec_rarc_table, spec_string_list_offset, spec_file_data_offset,
    spec_file_data,
};

verus! {

/// Reading a `u32` where its four bytes were written.
proof fn lemma_read_u32_at(data: Seq<u8>, off: int, v: u32)
    requires
        0 <= off,
        off + 4 <= data.len(),
        data.subrange(off, off + 4) == spec_u32_be_bytes(v),
    ensures
        spec_read_u32_be(data, off) == v,
{
    lemma_u32_be_roundtrip(v);
    let b = spec_u32_be_bytes(v);
    assert(data[off] == b[0]);
    assert(data[off + 1] == b[1]);
    assert(data[off + 2] == b[2]);
    assert(data[off + 3] == b[3]);
}

/// Reading a `u16` where its two bytes were written.
proof fn lemma_read_u16_at(data: Seq<u8>, off: int, v: u16)
    requires
        0 <= off,
        off + 2 <= data.len(),
        data.subrange(off, off + 2) == spec_u16_be_bytes(v),
    ensures
        spec_read_u16_be(data, off) == v,
{
    lemma_u16_be_roundtrip(v);
    let b = spec_u16_be_bytes(v);
    assert(data[off] == b[0]);
    assert(data[off + 1] == b[1]);
}

/// The records of the first `k` nodes take 16 bytes each.
proof fn lemma_node_records_len(r: RarcModel, k: int)
    requires
        k >= 0,
    ensures
        spec_node_records(r, k).len() == 16 * k,
    decreases k,
{
    if k > 0 {
        lemma_node_records_len(r, k - 1);
    }
}

/// The records of the first `k` entries take 20 bytes each.
proof fn lemma_entry_records_len(r: RarcModel, k: int)
    requires
        k >= 0,
    ensures
        spec_entry_records(r, k).len() == 20 * k,
    decreases k,
{
    if k > 0 {
        lemma_entry_records_len(r, k - 1);
    }
}

/// Record `i` of the first `k` entries is where it belongs.
proof fn lemma_entry_record_at(r: RarcModel, k: int, i: int)
    requires
        0 <= i < k,
    ensures
        spec_entry_records(r, k).subrange(20 * i, 20 * i + 20) == spec_entry_record(r, i),
    decreases k,
{
    lemma_entry_records_len(r, k - 1);
    if i < k - 1 {
        lemma_entry_record_at(r, k - 1, i);
        assert(spec_entry_records(r, k).subrange(20 * i, 20 * i + 20) =~= spec_entry_records(r, k - 1).subrange(
            20 * i,
            20 * i + 20,
        ));
    } else {
        assert(spec_entry_records(r, k).subrange(20 * i, 20 * i + 20) =~= spec_entry_record(r, i));
    }
}

/// Where the parts of a written archive lie.
pub open spec fn spec_layout_ok(r: RarcModel, b: Seq<u8>) -> bool {
    let n = r.nodes.len() as int;
    let m = r.file_entries.len() as int;
    let slo = spec_string_list_offset(r) as int;
    let fdo = spec_file_data_offset(r) as int;
    let t = spec_rarc_table(r).1;
    let fd = spec_file_data(r);
    &&& b.len() == fdo + fd.len()
    &&& slo + t.len() <= fdo
    &&& b.subrange(0, 32) == spec_main_header(r)
    &&& b.subrange(32, 64) == spec_data_header(r)
    &&& b.subrange(64, 64 + 16 * n) == spec_node_records(r, n)
    &&& b.subrange(64 + 16 * n, slo) == spec_entry_records(r, m)
    &&& b.subrange(slo, slo + t.len()) == t
    &&& b.subrange(fdo, fdo + fd.len()) == fd
}

/// The layout of a written archive.
#[verifier::spinoff_prover]
#[verifier::rlimit(60)]
proof fn lemma_layout(r: RarcModel)
    ensures
        spec_layout_ok(r, spec_rarc_bytes(r)),
{
    let n = r.nodes.len() as int;
    let m = r.file_entries.len() as int;
    let slo = spec_string_list_offset(r) as int;
    let fdo = spec_file_data_offset(r) as int;
    let t = spec_rarc_table(r).1;
    let fd = spec_file_data(r);
    let mh = spec_main_header(r);
    let dh = spec_data_header(r);
    let nr = spec_node_records(r, n);
    let er = spec_entry_records(r, m);
    lemma_node_records_len(r, n);
    lemma_entry_records_len(r, m);
    assert(mh.len() == 32);
    assert(dh.len() == 32);
    assert(fdo >= slo + t.len()) by (nonlinear_arith)
        requires
            fdo == ((slo + t.len() + 31) / 32) * 32,
    ;
    let pad = spec_zeros((fdo - slo - t.len()) as nat);
    let b = spec_rarc_bytes(r);
    assert(b == mh + dh + nr + er + t + pad + fd);
    assert(b.subrange(0, 32) =~= mh);
    assert(b.subrange(32, 64) =~= dh);
    assert(b.subrange(64, 64 + 16 * n) =~= nr);
    assert(b.subrange(64 + 16 * n, slo) =~= er);
    assert(b.subrange(slo, slo + t.len()) =~= t);
    assert(b.subrange(fdo, fdo + fd.len()) =~= fd);
}

/// The bytes an archive is written as, kept folded in proofs that only
/// need where its parts lie.
#[verifier::opaque]
pub open spec fn spec_written(r: RarcModel) -> Seq<u8> {
    spec_rarc_bytes(r)
}

/// Where the parts of the written bytes lie.
pub open spec fn spec_parts_ok(r: RarcModel, b: Seq<u8>) -> bool {
    let n = r.nodes.len() as int;
    let m = r.file_entries.len() as int;
    let slo = spec_string_list_offset(r) as int;
    let fdo = spec_file_data_offset(r) as int;
    &&& b.len() == fdo + spec_file_data(r).len()
    &&& 64 + 16 * n + 20 * m == slo
    &&& slo + spec_rarc_table(r).1.len() <= fdo
    &&& b.subrange(64 + 16 * n, slo) == spec_entry_records(r, m)
    &&& b.subrange(slo, slo + spec_rarc_table(r).1.len()) == spec_rarc_table(r).1
    &&& b.subrange(fdo, fdo + spec_file_data(r).len()) == spec_file_data(r)
}

proof fn lemma_written_parts(r: RarcModel)
    ensures
        spec_parts_ok(r, spec_written(r)),
{
    reveal(spec_written);
    lemma_layout(r);
    lemma_entry_records_len(r, r.file_entries.len() as int);
}

/// The offsets the header of a written archive gives, where the archive
/// fits in 32-bit offsets.
pub open spec fn spec_written_offsets(r: RarcModel) -> HeaderOffsets {
    HeaderOffsets {
        file_data_list_offset: spec_file_data_offset(r) as u64,
        num_nodes: r.nodes.len() as u64,
        node_list_offset: 0x40,
        total_num_file_entries: r.file_entries.len() as u64,
        file_entries_list_offset: (0x40 + 16 * r.nodes.len()) as u64,
        string_list_offset: spec_string_list_offset(r) as u64,
    }
}

proof fn lemma_main_header_fields(r: RarcModel)
    ensures
        spec_main_header(r).len() == 32,
        spec_main_header(r).subrange(0, 4) == spec_magic_rarc(),
        spec_main_header(r).subrange(8, 12) == spec_u32_be_bytes(0x20),
        spec_main_header(r).subrange(12, 16) == spec_u32_be_bytes(
            spec_u32_of((spec_file_data_offset(r) - 0x20) as nat),
        ),
{
    let mh = spec_main_header(r);
    assert(mh.subrange(0, 4) =~= spec_magic_rarc());
    assert(mh.subrange(8, 12) =~= spec_u32_be_bytes(0x20));
    assert(mh.subrange(12, 16) =~= spec_u32_be_bytes(spec_u32_of((spec_file_data_offset(r) - 0x20) as nat)));
}

proof fn lemma_data_header_fields(r: RarcModel)
    ensures
        spec_data_header(r).len() == 32,
        spec_data_header(r).subrange(0, 4) == spec_u32_be_bytes(spec_u32_of(r.nodes.len())),
        spec_data_header(r).subrange(4, 8) == spec_u32_be_bytes(0x20),
        spec_data_header(r).subrange(8, 12) == spec_u32_be_bytes(spec_u32_of(r.file_entries.len())),
        spec_data_header(r).subrange(12, 16) == spec_u32_be_bytes(spec_u32_of(0x20 + 16 * r.nodes.len())),
        spec_data_header(r).subrange(20, 24) == spec_u32_be_bytes(
            spec_u32_of((spec_string_list_offset(r) - 0x20) as nat),
        ),
{
    let dh = spec_data_header(r);
    assert(dh.subrange(0, 4) =~= spec_u32_be_bytes(spec_u32_of(r.nodes.len())));
    assert(dh.subrange(4, 8) =~= spec_u32_be_bytes(0x20));
    assert(dh.subrange(8, 12) =~= spec_u32_be_bytes(spec_u32_of(r.file_entries.len())));
    assert(dh.subrange(12, 16) =~= spec_u32_be_bytes(spec_u32_of(0x20 + 16 * r.nodes.len())));
    assert(dh.subrange(20, 24) =~= spec_u32_be_bytes(spec_u32_of((spec_string_list_offset(r) - 0x20) as nat)));
}

/// A word of a part of the data.
proof fn lemma_sub_sub(b: Seq<u8>, p: int, q: int, x: Seq<u8>, i: int, j: int)
    requires
        0 <= p <= q <= b.len(),
        b.subrange(p, q) == x,
        0 <= i <= j <= x.len(),
    ensures
        b.subrange(p + i, p + j) == x.subrange(i, j),
{
    assert(b.subrange(p + i, p + j) =~= x.subrange(i, j));
}

/// Reading a header whose words hold what the writer puts there.
#[verifier::spinoff_prover]
#[verifier::rlimit(80)]
proof fn lemma_header_core(b: Seq<u8>, mh: Seq<u8>, dh: Seq<u8>, n: nat, m: nat, slo: nat, fdo: nat)
    requires
        b.len() <= u32::MAX,
        64 <= slo <= fdo <= b.len(),
        0x40 + 16 * n + 20 * m <= slo,
        b.subrange(0, 32) == mh,
        b.subrange(32, 64) == dh,
        mh.len() == 32,
        dh.len() == 32,
        mh.subrange(8, 12) == spec_u32_be_bytes(0x20),
        mh.subrange(12, 16) == spec_u32_be_bytes(spec_u32_of((fdo - 0x20) as nat)),
        dh.subrange(0, 4) == spec_u32_be_bytes(spec_u32_of(n)),
        dh.subrange(4, 8) == spec_u32_be_bytes(0x20),
        dh.subrange(8, 12) == spec_u32_be_bytes(spec_u32_of(m)),
        dh.subrange(12, 16) == spec_u32_be_bytes(spec_u32_of(0x20 + 16 * n)),
        dh.subrange(20, 24) == spec_u32_be_bytes(spec_u32_of((slo - 0x20) as nat)),
    ensures
        spec_header_offsets(b) == Some(
            HeaderOffsets {
                file_data_list_offset: fdo as u64,
                num_nodes: n as u64,
                node_list_offset: 0x40,
                total_num_file_entries: m as u64,
                file_entries_list_offset: (0x40 + 16 * n) as u64,
                string_list_offset: slo as u64,
            },
        ),
{
    lemma_sub_sub(b, 0, 32, mh, 8, 12);
    lemma_sub_sub(b, 0, 32, mh, 12, 16);
    lemma_sub_sub(b, 32, 64, dh, 0, 4);
    lemma_sub_sub(b, 32, 64, dh, 4, 8);
    lemma_sub_sub(b, 32, 64, dh, 8, 12);
    lemma_sub_sub(b, 32, 64, dh, 12, 16);
    lemma_sub_sub(b, 32, 64, dh, 20, 24);
    lemma_read_u32_at(b, 8, 0x20);
    lemma_read_u32_at(b, 12, spec_u32_of((fdo - 0x20) as nat));
    lemma_read_u32_at(b, 32, spec_u32_of(n));
    lemma_read_u32_at(b, 36, 0x20);
    lemma_read_u32_at(b, 40, spec_u32_of(m));
    lemma_read_u32_at(b, 44, spec_u32_of(0x20 + 16 * n));
    lemma_read_u32_at(b, 52, spec_u32_of((slo - 0x20) as nat));
    lemma_u32_of_small((fdo - 0x20) as nat);
    lemma_u32_of_small(n);
    lemma_u32_of_small(m);
    lemma_u32_of_small((0x20 + 16 * n) as nat);
    lemma_u32_of_small((slo - 0x20) as nat);
}

proof fn lemma_u32_of_small(x: nat)
    requires
        x <= u32::MAX,
    ensures
        spec_u32_of(x) == x,
{
    vstd::arithmetic::div_mod::lemma_small_mod(x, 0x1_0000_0000);
}

/// The header of a written archive reads back.
#[verifier::spinoff_prover]
proof fn lemma_header(r: RarcModel)
    requires
        spec_rarc_bytes(r).len() <= u32::MAX,
    ensures
        spec_rarc_bytes(r).subrange(0, 4) == spec_magic_rarc(),
        spec_header_offsets(spec_rarc_bytes(r)) == Some(spec_written_offsets(r)),
{
    let b = spec_rarc_bytes(r);
    lemma_layout(r);
    lemma_main_header_fields(r);
    lemma_data_header_fields(r);
    lemma_sub_sub(b, 0, 32, spec_main_header(r), 0, 4);
    lemma_header_core(
        b,
        spec_main_header(r),
        spec_data_header(r),
        r.nodes.len(),
        r.file_entries.len(),
        spec_string_list_offset(r),
        spec_file_data_offset(r),
    );
}

/// A name without a zero character.
pub open spec fn spec_no_nul(s: Seq<char>) -> bool {
    forall|j: int| 0 <= j < s.len() ==> s[j] != '\0'
}

/// A scalar other than zero encodes to bytes other than zero.
proof fn lemma_scalar_no_zero(v: u32)
    requires
        vstd::utf8::is_scalar(v),
        v != 0,
    ensures
        forall|i: int| 0 <= i < vstd::utf8::encode_scalar(v).len() ==> vstd::utf8::encode_scalar(v)[i] != 0,
{
    assert((1 <= v && v <= 0x7F) ==> (v & 0x7F) as u8 != 0) by (bit_vector);
    assert(0xC0u8 | ((v >> 6) & 0x1F) as u8 != 0) by (bit_vector);
    assert(0xE0u8 | ((v >> 12) & 0x0F) as u8 != 0) by (bit_vector);
    assert(0xF0u8 | ((v >> 18) & 0x7) as u8 != 0) by (bit_vector);
    assert(0x80u8 | (v & 0x3F) as u8 != 0) by (bit_vector);
    assert(0x80u8 | ((v >> 6) & 0x3F) as u8 != 0) by (bit_vector);
    assert(0x80u8 | ((v >> 12) & 0x3F) as u8 != 0) by (bit_vector);
}

/// A name without a zero character encodes to bytes without a zero.
proof fn lemma_encode_no_zero(s: Seq<char>)
    requires
        spec_no_nul(s),
    ensures
        forall|i: int| 0 <= i < vstd::utf8::encode_utf8(s).len() ==> vstd::utf8::encode_utf8(s)[i] != 0,
    decreases s.len(),
{
    if s.len() > 0 {
        let c = s[0];
        vstd::utf8::char_is_scalar(c);
        assert(c as u32 != 0) by {
            if c as u32 == 0 {
                vstd::utf8::char_u32_cast(c, 0);
                assert(c == (0u32 as char));
            }
        }
        lemma_scalar_no_zero(c as u32);
        let rest = s.drop_first();
        assert(spec_no_nul(rest)) by {
            assert forall|j: int| 0 <= j < rest.len() implies rest[j] != '\0' by {
                assert(rest[j] == s[j + 1]);
            }
        }
        lemma_encode_no_zero(rest);
        let a = vstd::utf8::encode_scalar(c as u32);
        let b = vstd::utf8::encode_utf8(rest);
        assert(vstd::utf8::encode_utf8(s) == a + b);
        assert forall|i: int| 0 <= i < (a + b).len() implies (a + b)[i] != 0 by {
            if i < a.len() {
                assert((a + b)[i] == a[i]);
            } else {
                assert((a + b)[i] == b[i - a.len()]);
            }
        }
    }
}

/// Where a zero-terminated string ends: at the first zero.
proof fn lemma_cstring_end(data: Seq<u8>, start: int, len: int)
    requires
        0 <= start,
        0 <= len,
        start + len < data.len(),
        forall|k: int| start <= k < start + len ==> data[k] != 0,
        data[start + len] == 0,
    ensures
        spec_cstring_end(data, start) == start + len,
    decreases len,
{
    if len > 0 {
        assert(data[start] != 0);
        lemma_cstring_end(data, start + 1, len - 1);
    }
}

/// Every stored name sits at its offset, zero-terminated.
pub open spec fn spec_table_wf(t: TableModel) -> bool {
    forall|k: int|
        0 <= k < t.0.len() ==> {
            let (s, o) = #[trigger] t.0[k];
            let enc = vstd::utf8::encode_utf8(s);
            &&& (o + enc.len()) < t.1.len()
            &&& t.1.subrange(o as int, o + enc.len() as int) == enc
            &&& t.1[o + enc.len() as int] == 0
        }
}

proof fn lemma_table_add_wf(t: TableModel, x: Seq<char>)
    requires
        spec_table_wf(t),
    ensures
        spec_table_wf(spec_table_add(t, x)),
{
    if spec_table_lookup(t.0, x) is None {
        let t2 = spec_table_add(t, x);
        let enc_x = vstd::utf8::encode_utf8(x);
        assert(t2.1 == t.1 + enc_x + seq![0u8]);
        assert forall|k: int| 0 <= k < t2.0.len() implies {
            let (s, o) = #[trigger] t2.0[k];
            let enc = vstd::utf8::encode_utf8(s);
            &&& (o + enc.len()) < t2.1.len()
            &&& t2.1.subrange(o as int, o + enc.len() as int) == enc
            &&& t2.1[o + enc.len() as int] == 0
        } by {
            if k < t.0.len() {
                let (s, o) = t.0[k];
                let enc = vstd::utf8::encode_utf8(s);
                assert(t2.0[k] == t.0[k]);
                assert(t2.1.subrange(o as int, o + enc.len() as int) =~= t.1.subrange(o as int, o + enc.len() as int));
                assert(t2.1[o + enc.len() as int] == t.1[o + enc.len() as int]);
            } else {
                assert(t2.0[k] == (x, t.1.len()));
                assert(t2.1.subrange(t.1.len() as int, t.1.len() + enc_x.len() as int) =~= enc_x);
            }
        }
    }
}

proof fn lemma_table_of_wf(names: Seq<Seq<char>>)
    ensures
        spec_table_wf(spec_table_of(names)),
    decreases names.len(),
{
    if names.len() == 0 {
        let t0: TableModel = (Seq::empty(), Seq::empty());
        lemma_table_add_wf(t0, seq!['.']);
        lemma_table_add_wf(spec_table_add(t0, seq!['.']), seq!['.', '.']);
    } else {
        lemma_table_of_wf(names.drop_last());
        lemma_table_add_wf(spec_table_of(names.drop_last()), names.last());
    }
}

/// Where a lookup finds a name, the table stores it.
proof fn lemma_lookup_index(names: Seq<(Seq<char>, nat)>, s: Seq<char>) -> (k: int)
    requires
        spec_table_lookup(names, s) is Some,
    ensures
        0 <= k < names.len(),
        names[k].0 == s,
        names[k].1 == spec_table_lookup(names, s)->0,
    decreases names.len(),
{
    if names.last().0 == s {
        (names.len() - 1) as int
    } else {
        let k = lemma_lookup_index(names.drop_last(), s);
        assert(names[k] == names.drop_last()[k]);
        k
    }
}

/// A stored name reads back from where the table lies in the data.
#[verifier::spinoff_prover]
proof fn lemma_stored_name_reads_back(t: TableModel, b: Seq<u8>, slo: int, s: Seq<char>)
    requires
        spec_table_wf(t),
        spec_table_lookup(t.0, s) is Some,
        spec_no_nul(s),
        0 <= slo,
        slo + t.1.len() <= b.len(),
        b.subrange(slo, slo + t.1.len()) == t.1,
    ensures
        spec_read_cstring(b, slo + spec_table_lookup(t.0, s)->0) == s,
{
    let k = lemma_lookup_index(t.0, s);
    let o = t.0[k].1 as int;
    let enc = vstd::utf8::encode_utf8(s);
    assert((o + enc.len()) < t.1.len());
    assert(t.1.subrange(o, o + enc.len() as int) == enc);
    assert(t.1[o + enc.len() as int] == 0);
    assert forall|j: int| 0 <= j < enc.len() implies b[slo + o + j] == enc[j] by {
        assert(b[slo + (o + j)] == t.1[o + j]);
        assert(t.1.subrange(o, o + enc.len() as int)[j] == t.1[o + j]);
    }
    assert(b[slo + o + enc.len()] == t.1[o + enc.len() as int]);
    lemma_encode_no_zero(s);
    assert forall|q: int| slo + o <= q < slo + o + enc.len() implies b[q] != 0 by {
        let j = q - slo - o;
        assert(b[slo + o + j] == enc[j]);
    }
    lemma_cstring_end(b, slo + o, enc.len() as int);
    assert(b.subrange(slo + o, slo + o + enc.len()) =~= enc);
    vstd::utf8::encode_utf8_valid_utf8(s);
    vstd::utf8::encode_utf8_decode_utf8(s);
    assert(spec_utf8_lossy(enc) == s);
}

/// A name of a written archive reads back from its string table.
proof fn lemma_name_reads_back(r: RarcModel, b: Seq<u8>, s: Seq<char>)
    requires
        spec_parts_ok(r, b),
        spec_table_lookup(spec_rarc_table(r).0, s) is Some,
        spec_no_nul(s),
    ensures
        spec_read_cstring(b, (spec_string_list_offset(r) + spec_name_offset(r, s)) as int) == s,
{
    lemma_table_of_wf(spec_all_names(r));
    lemma_stored_name_reads_back(spec_rarc_table(r), b, spec_string_list_offset(r) as int, s);
}

/// The data of the first `i` entries begins the data of the first `k`.
proof fn lemma_upto_prefix(es: Seq<FileEntryModel>, i: int, k: int)
    requires
        0 <= i <= k,
    ensures
        spec_file_data_upto(es, i).len() <= spec_file_data_upto(es, k).len(),
        spec_file_data_upto(es, k).subrange(0, spec_file_data_upto(es, i).len() as int) == spec_file_data_upto(es, i),
    decreases k - i,
{
    if i < k {
        lemma_upto_prefix(es, i, k - 1);
        let a = spec_file_data_upto(es, k - 1);
        let full = spec_file_data_upto(es, k);
        assert(full.subrange(0, a.len() as int) =~= a);
        assert(full.subrange(0, spec_file_data_upto(es, i).len() as int) =~= a.subrange(
            0,
            spec_file_data_upto(es, i).len() as int,
        ));
    } else {
        assert(spec_file_data_upto(es, k).subrange(0, spec_file_data_upto(es, k).len() as int) =~= spec_file_data_upto(es, k));
    }
}

/// The data of file entry `i` lies in the data of the first `k` entries
/// where its offset says.
proof fn lemma_file_data_at(es: Seq<FileEntryModel>, i: int, k: int)
    requires
        0 <= i < k,
        !es[i].is_dir,
        es[i].data is Some,
    ensures
        spec_file_data_upto(es, i).len() + es[i].data->0.len() <= spec_file_data_upto(es, k).len(),
        spec_file_data_upto(es, k).subrange(
            spec_file_data_upto(es, i).len() as int,
            (spec_file_data_upto(es, i).len() + es[i].data->0.len()) as int,
        ) == es[i].data->0,
{
    lemma_upto_prefix(es, i + 1, k);
    let a = spec_file_data_upto(es, i);
    let d = es[i].data->0;
    let a1 = spec_file_data_upto(es, i + 1);
    assert(a1 == a + d);
    let full = spec_file_data_upto(es, k);
    assert(full.subrange(a.len() as int, (a.len() + d.len()) as int) =~= a1.subrange(a.len() as int, (a.len() + d.len()) as int));
    assert(a1.subrange(a.len() as int, (a.len() + d.len()) as int) =~= d);
}

/// The fields of entry record `i`.
proof fn lemma_entry_record_fields(r: RarcModel, i: int)
    ensures
        ({
            let e = r.file_entries[i];
            let rec = spec_entry_record(r, i);
            let typ: int = if e.is_dir { 2 } else { 0 };
            let tan = (typ * 0x100_0000 + spec_name_offset(r, e.name) % 0x100_0000) as u32;
            &&& rec.len() == 20
            &&& rec.subrange(4, 8) == spec_u32_be_bytes(tan)
            &&& rec.subrange(8, 12) == spec_u32_be_bytes(
                if e.is_dir {
                    match e.node_index_for_dir {
                        Some(n) => n,
                        None => 0,
                    }
                } else {
                    spec_file_offset(r.file_entries, i)
                },
            )
            &&& rec.subrange(12, 16) == spec_u32_be_bytes(if e.is_dir { 0x10 } else { e.data_size })
        }),
{
    let e = r.file_entries[i];
    let rec = spec_entry_record(r, i);
    let typ: int = if e.is_dir { 2 } else { 0 };
    let tan = (typ * 0x100_0000 + spec_name_offset(r, e.name) % 0x100_0000) as u32;
    assert(rec.subrange(4, 8) =~= spec_u32_be_bytes(tan));
    if e.is_dir {
        assert(rec.subrange(8, 12) =~= spec_u32_be_bytes(
            match e.node_index_for_dir {
                Some(n) => n,
                None => 0,
            },
        ));
        assert(rec.subrange(12, 16) =~= spec_u32_be_bytes(0x10));
    } else {
        assert(rec.subrange(8, 12) =~= spec_u32_be_bytes(spec_file_offset(r.file_entries, i)));
        assert(rec.subrange(12, 16) =~= spec_u32_be_bytes(e.data_size));
    }
}

/// Reading an entry record that holds what the writer puts there.
#[verifier::spinoff_prover]
proof fn lemma_entry_core(
    b: Seq<u8>,
    h: HeaderOffsets,
    i: int,
    rec: Seq<u8>,
    typ: int,
    no: nat,
    dovi: u32,
    size: u32,
    name: Seq<char>,
    data: Option<Seq<u8>>,
)
    requires
        0 <= i,
        h.file_entries_list_offset + 20 * i + 20 <= b.len(),
        b.subrange(h.file_entries_list_offset + 20 * i, h.file_entries_list_offset + 20 * i + 20) == rec,
        rec.len() == 20,
        typ == 0 || typ == 2,
        no < 0x100_0000,
        rec.subrange(4, 8) == spec_u32_be_bytes((typ * 0x100_0000 + no) as u32),
        rec.subrange(8, 12) == spec_u32_be_bytes(dovi),
        rec.subrange(12, 16) == spec_u32_be_bytes(size),
        spec_read_cstring(b, h.string_list_offset + no) == name,
        typ == 0 && data is Some ==> h.file_data_list_offset + dovi + size <= b.len() && b.subrange(
            h.file_data_list_offset + dovi,
            h.file_data_list_offset + dovi + size,
        ) == data->0,
    ensures
        ({
            let x = spec_entry_at(b, h, i);
            &&& x.is_dir == (typ == 2)
            &&& x.name == name
            &&& x.parent_node_index is None
            &&& typ == 0 ==> x.data_size == size
            &&& (typ == 0 && data is Some) ==> x.data == data
            &&& typ == 2 ==> x.node_index_for_dir == Some(dovi)
        }),
{
    let eo = h.file_entries_list_offset + 20 * i;
    lemma_sub_sub(b, eo, eo + 20, rec, 4, 8);
    lemma_sub_sub(b, eo, eo + 20, rec, 8, 12);
    lemma_sub_sub(b, eo, eo + 20, rec, 12, 16);
    let tan = (typ * 0x100_0000 + no) as u32;
    lemma_read_u32_at(b, eo + 4, tan);
    lemma_read_u32_at(b, eo + 8, dovi);
    lemma_read_u32_at(b, eo + 12, size);
    assert(tan / 0x100_0000 == typ);
    assert(tan % 0x100_0000 == no);
}

/// The name of entry `i` is stored in the table, below 2^24 when the
/// table is.
proof fn lemma_entry_name_stored(r: RarcModel, i: int)
    requires
        0 <= i < r.file_entries.len(),
        spec_rarc_table(r).1.len() <= 0xFF_FFFF,
    ensures
        spec_table_lookup(spec_rarc_table(r).0, r.file_entries[i].name) is Some,
        spec_name_offset(r, r.file_entries[i].name) < 0x100_0000,
        spec_name_offset(r, r.file_entries[i].name) % 0x100_0000 == spec_name_offset(r, r.file_entries[i].name),
{
    let names = spec_all_names(r);
    let n = r.nodes.len() as int;
    assert(names[n + i] == r.file_entries[i].name);
    lemma_table_has_names(names, n + i);
    lemma_table_of_wf(names);
    let k = lemma_lookup_index(spec_rarc_table(r).0, r.file_entries[i].name);
    let no = spec_name_offset(r, r.file_entries[i].name);
    vstd::arithmetic::div_mod::lemma_small_mod(no, 0x100_0000);
}

/// The name of entry `i` reads back from the written bytes.
#[verifier::spinoff_prover]
proof fn lemma_entry_name_reads(r: RarcModel, i: int)
    requires
        0 <= i < r.file_entries.len(),
        spec_written(r).len() <= u32::MAX,
        spec_rarc_table(r).1.len() <= 0xFF_FFFF,
        spec_no_nul(r.file_entries[i].name),
    ensures
        spec_name_offset(r, r.file_entries[i].name) < 0x100_0000,
        spec_read_cstring(
            spec_written(r),
            spec_written_offsets(r).string_list_offset + spec_name_offset(r, r.file_entries[i].name),
        ) == r.file_entries[i].name,
{
    lemma_written_parts(r);
    assert(spec_written_offsets(r).string_list_offset == spec_string_list_offset(r));
    lemma_entry_name_stored(r, i);
    lemma_name_reads_back(r, spec_written(r), r.file_entries[i].name);
}

/// The data of file entry `i` lies in the written bytes where its record
/// says.
#[verifier::spinoff_prover]
proof fn lemma_entry_data_reads(r: RarcModel, i: int)
    requires
        0 <= i < r.file_entries.len(),
        spec_written(r).len() <= u32::MAX,
    ensures
        ({
            let e = r.file_entries[i];
            let start = spec_written_offsets(r).file_data_list_offset + spec_file_offset(r.file_entries, i);
            (!e.is_dir && e.data is Some && e.data_size == e.data->0.len()) ==> start + e.data_size
                <= spec_written(r).len() && spec_written(r).subrange(start as int, start + e.data_size)
                == e.data->0
        }),
{
    let e = r.file_entries[i];
    let es = r.file_entries;
    let m = es.len() as int;
    let b = spec_written(r);
    let fdo = spec_file_data_offset(r) as int;
    lemma_written_parts(r);
    assert(spec_written_offsets(r).file_data_list_offset == fdo);
    if !e.is_dir && e.data is Some && e.data_size == e.data->0.len() {
        let d = e.data->0;
        lemma_file_data_at(es, i, m);
        let start = spec_file_data_upto(es, i).len();
        lemma_u32_of_small(start);
        let fd = spec_file_data(r);
        lemma_sub_sub(b, fdo, fdo + fd.len(), fd, start as int, (start + d.len()) as int);
    }
}

/// Where the record of entry `i` lies in the written bytes.
#[verifier::spinoff_prover]
proof fn lemma_entry_record_located(r: RarcModel, i: int)
    requires
        0 <= i < r.file_entries.len(),
        spec_written(r).len() <= u32::MAX,
    ensures
        spec_written_offsets(r).file_entries_list_offset + 20 * i + 20 <= spec_written(r).len(),
        spec_written(r).subrange(
            spec_written_offsets(r).file_entries_list_offset + 20 * i,
            spec_written_offsets(r).file_entries_list_offset + 20 * i + 20,
        ) == spec_entry_record(r, i),
{
    let n = r.nodes.len() as int;
    let m = r.file_entries.len() as int;
    let slo = spec_string_list_offset(r) as int;
    lemma_written_parts(r);
    lemma_entry_records_len(r, m);
    lemma_entry_record_at(r, m, i);
    lemma_sub_sub(spec_written(r), 64 + 16 * n, slo, spec_entry_records(r, m), 20 * i, 20 * i + 20);
    assert(spec_written_offsets(r).file_entries_list_offset == 64 + 16 * n);
}

/// What an entry of a written archive reads back as.
#[verifier::spinoff_prover]
#[verifier::rlimit(60)]
proof fn lemma_entry_reads_back(r: RarcModel, i: int)
    requires
        0 <= i < r.file_entries.len(),
        spec_written(r).len() <= u32::MAX,
        spec_rarc_table(r).1.len() <= 0xFF_FFFF,
        spec_no_nul(r.file_entries[i].name),
    ensures
        ({
            let e = r.file_entries[i];
            let x = spec_entry_at(spec_written(r), spec_written_offsets(r), i);
            &&& x.is_dir == e.is_dir
            &&& x.name == e.name
            &&& x.parent_node_index is None
            &&& !e.is_dir ==> x.data_size == e.data_size
            &&& (!e.is_dir && e.data is Some && e.data_size == e.data->0.len()) ==> x.data == e.data
            &&& (e.is_dir && e.node_index_for_dir is Some) ==> x.node_index_for_dir == e.node_index_for_dir
        }),
{
    let b = spec_written(r);
    let h = spec_written_offsets(r);
    let e = r.file_entries[i];
    let es = r.file_entries;
    let rec = spec_entry_record(r, i);
    lemma_entry_record_located(r, i);
    lemma_entry_record_fields(r, i);
    lemma_entry_name_reads(r, i);
    let typ: int = if e.is_dir { 2 } else { 0 };
    let no = spec_name_offset(r, e.name);
    let dovi: u32 = if e.is_dir {
        match e.node_index_for_dir {
            Some(x) => x,
            None => 0,
        }
    } else {
        spec_file_offset(es, i)
    };
    let size: u32 = if e.is_dir { 0x10 } else { e.data_size };
    lemma_entry_data_reads(r, i);
    let data = if !e.is_dir && e.data is Some && e.data_size == e.data->0.len() {
        e.data
    } else {
        None
    };
    lemma_entry_core(b, h, i, rec, typ, no, dovi, size, e.name, data);
}

/// The records of the first `k` nodes, each where it belongs.
proof fn lemma_node_record_at(r: RarcModel, k: int, j: int)
    requires
        0 <= j < k,
    ensures
        spec_node_records(r, k).subrange(16 * j, 16 * j + 16) == spec_node_record(r, j),
    decreases k,
{
    lemma_node_records_len(r, k - 1);
    if j < k - 1 {
        lemma_node_record_at(r, k - 1, j);
        assert(spec_node_records(r, k).subrange(16 * j, 16 * j + 16) =~= spec_node_records(r, k - 1).subrange(
            16 * j,
            16 * j + 16,
        ));
    } else {
        assert(spec_node_records(r, k).subrange(16 * j, 16 * j + 16) =~= spec_node_record(r, j));
    }
}

/// Where the node records lie in the written bytes.
pub open spec fn spec_nodes_ok(r: RarcModel, b: Seq<u8>) -> bool {
    let n = r.nodes.len() as int;
    &&& 64 + 16 * n <= b.len()
    &&& b.subrange(64, 64 + 16 * n) == spec_node_records(r, n)
}

proof fn lemma_written_nodes(r: RarcModel)
    ensures
        spec_nodes_ok(r, spec_written(r)),
{
    reveal(spec_written);
    lemma_layout(r);
    lemma_entry_records_len(r, r.file_entries.len() as int);
}

/// What node `j` of a written archive reads back as: its file run.
#[verifier::spinoff_prover]
proof fn lemma_node_reads_back(r: RarcModel, j: int)
    requires
        0 <= j < r.nodes.len(),
        spec_written(r).len() <= u32::MAX,
    ensures
        spec_node_at(spec_written(r), spec_written_offsets(r), j).num_files == r.nodes[j].num_files,
        spec_node_at(spec_written(r), spec_written_offsets(r), j).first_file_index == r.nodes[j].first_file_index,
{
    let b = spec_written(r);
    let n = r.nodes.len() as int;
    lemma_written_nodes(r);
    lemma_node_records_len(r, n);
    lemma_node_record_at(r, n, j);
    let rec = spec_node_record(r, j);
    let no = 64 + 16 * j;
    lemma_sub_sub(b, 64, 64 + 16 * n, spec_node_records(r, n), 16 * j, 16 * j + 16);
    let nd = r.nodes[j];
    assert(rec.subrange(10, 12) =~= spec_u16_be_bytes(nd.num_files));
    assert(rec.subrange(12, 16) =~= spec_u32_be_bytes(nd.first_file_index));
    lemma_sub_sub(b, no, no + 16, rec, 10, 12);
    lemma_sub_sub(b, no, no + 16, rec, 12, 16);
    lemma_read_u16_at(b, no + 10, nd.num_files);
    lemma_read_u32_at(b, no + 12, nd.first_file_index);
}

/// The entries read from list position `i` on, as far as `m` records lie
/// in the data.
proof fn lemma_entries_from(b: Seq<u8>, h: HeaderOffsets, i: nat)
    requires
        i <= h.total_num_file_entries,
        h.file_entries_list_offset + 20 * h.total_num_file_entries <= b.len(),
    ensures
        spec_entries_from(b, h, i).len() == h.total_num_file_entries - i,
        forall|q: int|
            0 <= q < h.total_num_file_entries - i ==> #[trigger] spec_entries_from(b, h, i)[q]
                == spec_entry_at(b, h, i + q),
    decreases h.total_num_file_entries - i,
{
    if i < h.total_num_file_entries {
        lemma_entries_from(b, h, i + 1);
        let rest = spec_entries_from(b, h, i + 1);
        assert forall|q: int| 0 <= q < h.total_num_file_entries - i implies #[trigger] spec_entries_from(b, h, i)[q]
            == spec_entry_at(b, h, i + q) by {
            if q > 0 {
                assert(spec_entries_from(b, h, i)[q] == rest[q - 1]);
            }
        }
    }
}

/// The nodes read from list position `i` on, as far as the records lie in
/// the data.
proof fn lemma_nodes_from(b: Seq<u8>, h: HeaderOffsets, i: nat)
    requires
        i <= h.num_nodes,
        h.node_list_offset + 16 * h.num_nodes <= b.len(),
    ensures
        spec_nodes_from(b, h, i).len() == h.num_nodes - i,
        forall|q: int|
            0 <= q < h.num_nodes - i ==> #[trigger] spec_nodes_from(b, h, i)[q] == spec_node_at(b, h, i + q),
    decreases h.num_nodes - i,
{
    if i < h.num_nodes {
        lemma_nodes_from(b, h, i + 1);
        let rest = spec_nodes_from(b, h, i + 1);
        assert forall|q: int| 0 <= q < h.num_nodes - i implies #[trigger] spec_nodes_from(b, h, i)[q]
            == spec_node_at(b, h, i + q) by {
            if q > 0 {
                assert(spec_nodes_from(b, h, i)[q] == rest[q - 1]);
            }
        }
    }
}

/// The header of the written bytes reads back.
proof fn lemma_written_header(r: RarcModel)
    requires
        spec_written(r).len() <= u32::MAX,
    ensures
        spec_written(r).len() >= 4,
        spec_written(r).subrange(0, 4) == spec_magic_rarc(),
        spec_header_offsets(spec_written(r)) == Some(spec_written_offsets(r)),
{
    reveal(spec_written);
    lemma_header(r);
}

/// The files of a built archive have names without a zero character and
/// data that a 32-bit size field holds.
pub open spec fn spec_files_storable(files: Seq<(Seq<char>, Seq<u8>)>) -> bool {
    forall|i: int| 0 <= i < files.len() ==> spec_no_nul(#[trigger] files[i].0) && files[i].1.len() <= u32::MAX
}

/// What reading back a built archive must give: its files, in order, each
/// under its name with its bytes, then the two directory entries; and the
/// listing of the files.
pub open spec fn spec_reads_back_files(files: Seq<(Seq<char>, Seq<u8>)>, r2: RarcModel) -> bool {
    &&& r2.file_entries.len() == files.len() + 2
    &&& forall|i: int|
        0 <= i < files.len() ==> {
            let e = #[trigger] r2.file_entries[i];
            &&& e.name == files[i].0
            &&& !e.is_dir
            &&& e.data == Some(files[i].1)
            &&& e.parent_node_index == Some(0usize)
        }
    &&& r2.file_entries[files.len() as int].is_dir
    &&& r2.file_entries[files.len() as int].name == "."@
    &&& r2.file_entries[files.len() + 1int].is_dir
    &&& r2.file_entries[files.len() + 1int].name == ".."@
    &&& spec_list_files(r2) == files.map_values(|f: (Seq<char>, Seq<u8>)| (f.0, spec_data_size(f.1.len())))
}

/// Entry `i` of a built archive reads back as it was built.
#[verifier::spinoff_prover]
proof fn lemma_built_entry_reads_back(files: Seq<(Seq<char>, Seq<u8>)>, i: int)
    requires
        files.len() < 0xFFFD,
        spec_files_storable(files),
        spec_written(spec_builder_with(files)).len() <= u32::MAX,
        spec_rarc_table(spec_builder_with(files)).1.len() <= 0xFF_FFFF,
        0 <= i < files.len() + 2,
    ensures
        ({
            let r = spec_builder_with(files);
            let x = spec_entry_at(spec_written(r), spec_written_offsets(r), i);
            &&& x.parent_node_index is None
            &&& i < files.len() ==> x.name == files[i].0 && !x.is_dir && x.data == Some(files[i].1)
                && x.data_size == spec_data_size(files[i].1.len())
            &&& i >= files.len() ==> x.is_dir
            &&& i == files.len() ==> x.name == "."@
            &&& i == files.len() + 1 ==> x.name == ".."@
        }),
{
    let r = spec_builder_with(files);
    lemma_builder_shape(files);
    let n = files.len() as int;
    if i < n {
        let e = r.file_entries[i];
        assert(e == spec_root_file_entry(files[i].0, files[i].1));
        assert(spec_no_nul(files[i].0));
        vstd::arithmetic::div_mod::lemma_small_mod(files[i].1.len(), 0x1_0000_0000);
        lemma_entry_reads_back(r, i);
    } else {
        let e = r.file_entries[i];
        reveal_strlit(".");
        reveal_strlit("..");
        assert(spec_no_nul(e.name));
        lemma_entry_reads_back(r, i);
    }
}

/// The listing of an archive whose first `k` entries are the built files
/// at the root.
proof fn lemma_read_listing_upto(files: Seq<(Seq<char>, Seq<u8>)>, r2: RarcModel, k: int)
    requires
        0 <= k <= files.len(),
        r2.file_entries.len() >= files.len(),
        forall|i: int|
            0 <= i < files.len() ==> {
                let e = #[trigger] r2.file_entries[i];
                &&& e.name == files[i].0
                &&& !e.is_dir
                &&& e.parent_node_index == Some(0usize)
                &&& e.data_size == spec_data_size(files[i].1.len())
            },
    ensures
        spec_list_upto(r2, k) == files.take(k).map_values(|f: (Seq<char>, Seq<u8>)| (f.0, spec_data_size(f.1.len()))),
    decreases k,
{
    if k == 0 {
        assert(files.take(0).map_values(|f: (Seq<char>, Seq<u8>)| (f.0, spec_data_size(f.1.len())))
            =~= Seq::<(Seq<char>, u32)>::empty());
    } else {
        lemma_read_listing_upto(files, r2, k - 1);
        let fe = r2.file_entries[k - 1];
        assert(spec_file_path(r2, 0, fe.name) == fe.name);
        assert(files.take(k).map_values(|f: (Seq<char>, Seq<u8>)| (f.0, spec_data_size(f.1.len())))
            =~= files.take(k - 1).map_values(|f: (Seq<char>, Seq<u8>)| (f.0, spec_data_size(f.1.len()))).push(
            (files[k - 1].0, spec_data_size(files[k - 1].1.len())),
        ));
    }
}

/// A built archive, written, parses back into its files.
#[verifier::spinoff_prover]
#[verifier::rlimit(60)]
proof fn lemma_built_parses(files: Seq<(Seq<char>, Seq<u8>)>)
    requires
        files.len() < 0xFFFD,
        spec_files_storable(files),
        spec_written(spec_builder_with(files)).len() <= u32::MAX,
        spec_rarc_table(spec_builder_with(files)).1.len() <= 0xFF_FFFF,
    ensures
        spec_parse_plain(spec_written(spec_builder_with(files))) matches Some(r2) && spec_reads_back_files(files, r2),
{
    let r = spec_builder_with(files);
    let b = spec_written(r);
    let h = spec_written_offsets(r);
    let n = files.len() as int;
    lemma_builder_shape(files);
    lemma_written_header(r);
    lemma_written_parts(r);
    lemma_nodes_from(b, h, 0);
    lemma_entries_from(b, h, 0);
    lemma_node_reads_back(r, 0);
    let n0 = spec_nodes_from(b, h, 0);
    let e0 = spec_entries_from(b, h, 0);
    assert(n0.len() == 1);
    assert(n0[0] == spec_node_at(b, h, 0));
    assert(n0[0].num_files == (2 + n) as u16);
    assert(n0[0].first_file_index == 0);
    assert(e0.len() == n + 2);
    let es = Seq::new(e0.len(), |f: int| spec_with_parent(e0[f], spec_parent_of(n0, f)));
    let ns = Seq::new(n0.len(), |j: int| spec_with_dir_entry(n0[j], spec_dir_entry_of(es, j, n0.len())));
    let r2 = RarcModel { nodes: ns, file_entries: es };
    assert(spec_parse_plain(b) == Some(r2));
    assert forall|f: int| 0 <= f < n + 2 implies #[trigger] es[f] == spec_with_parent(e0[f], Some(0usize)) by {
        assert(spec_parent_of(n0, f) == Some(0usize));
    }
    assert forall|i: int| 0 <= i < n + 2 implies {
        let x = #[trigger] es[i];
        &&& x.parent_node_index == Some(0usize)
        &&& i < n ==> x.name == files[i].0 && !x.is_dir && x.data == Some(files[i].1) && x.data_size
            == spec_data_size(files[i].1.len())
        &&& i >= n ==> x.is_dir
        &&& i == n ==> x.name == "."@
        &&& i == n + 1 ==> x.name == ".."@
    } by {
        assert(e0[i] == spec_entry_at(b, h, i));
        lemma_built_entry_reads_back(files, i);
    }
    assert(es[n].is_dir);
    assert(es[n + 1].is_dir);
    lemma_read_listing_upto(files, r2, n);
    assert(files.take(n) =~= files);
    assert(spec_list_upto(r2, n + 2) == spec_list_upto(r2, n + 1));
    assert(spec_list_upto(r2, n + 1) == spec_list_upto(r2, n));
}

/// Law: an archive built from a list of files, written and read back,
/// compressed or not, gives those files, each under its name at the root
/// with its bytes, in the order they were added, and the listing of the
/// built archive. The files' names have no zero character, and the
/// archive fits the format's 32-bit sizes and 24-bit name offsets.
#[verifier::spinoff_prover]
pub proof fn lemma_builder_roundtrip(files: Seq<(Seq<char>, Seq<u8>)>)
    requires
        files.len() < 0xFFFD,
        spec_files_storable(files),
        spec_rarc_bytes(spec_builder_with(files)).len() <= u32::MAX,
        spec_rarc_table(spec_builder_with(files)).1.len() <= 0xFF_FFFF,
    ensures
        spec_parse_rarc(spec_rarc_bytes(spec_builder_with(files))) matches Some(r2) && spec_reads_back_files(
            files,
            r2,
        ),
        spec_parse_rarc(spec_yaz0_compress(spec_rarc_bytes(spec_builder_with(files)))) == spec_parse_rarc(
            spec_rarc_bytes(spec_builder_with(files)),
        ),
        spec_list_files(spec_builder_with(files)) == files.map_values(
            |f: (Seq<char>, Seq<u8>)| (f.0, spec_data_size(f.1.len())),
        ),
{
    let r = spec_builder_with(files);
    lemma_written_is(r);
    lemma_built_parses(files);
    lemma_written_compressed(r);
    lemma_builder_lists_files(files);
}

proof fn lemma_written_is(r: RarcModel)
    ensures
        spec_written(r) == spec_rarc_bytes(r),
{
    reveal(spec_written);
}

/// A written archive parses the same plain or compressed.
#[verifier::spinoff_prover]
proof fn lemma_written_compressed(r: RarcModel)
    requires
        spec_written(r).len() <= u32::MAX,
    ensures
        spec_parse_rarc(spec_written(r)) == spec_parse_plain(spec_written(r)),
        spec_parse_rarc(spec_yaz0_compress(spec_written(r))) == spec_parse_plain(spec_written(r)),
{
    let b = spec_written(r);
    lemma_written_header(r);
    assert(b.subrange(0, 4) != spec_magic_yaz0()) by {
        assert(b.subrange(0, 4)[0] != spec_magic_yaz0()[0]);
    }
    let c = spec_yaz0_compress(b);
    lemma_yaz0_roundtrip(b);
    assert(c.subrange(0, 4) =~= spec_magic_yaz0());
}

/// Two archives with the same skeleton: the same node runs and directory
/// links, and entries with the same names, kinds, directory nodes and
/// parents.
pub open spec fn spec_same_shape(a: RarcModel, b: RarcModel) -> bool {
    &&& a.nodes.len() == b.nodes.len()
    &&& a.file_entries.len() == b.file_entries.len()
    &&& forall|j: int|
        0 <= j < a.nodes.len() ==> {
            &&& (#[trigger] a.nodes[j]).num_files == b.nodes[j].num_files
            &&& a.nodes[j].first_file_index == b.nodes[j].first_file_index
            &&& a.nodes[j].dir_entry_index == b.nodes[j].dir_entry_index
        }
    &&& forall|i: int|
        0 <= i < a.file_entries.len() ==> {
            &&& (#[trigger] a.file_entries[i]).name == b.file_entries[i].name
            &&& a.file_entries[i].is_dir == b.file_entries[i].is_dir
            &&& a.file_entries[i].node_index_for_dir == b.file_entries[i].node_index_for_dir
            &&& a.file_entries[i].parent_node_index == b.file_entries[i].parent_node_index
        }
}

/// An archive in the shape the reader gives it: each entry's parent is
/// the last node whose run holds it, each node's directory entry is the
/// last entry that names it, and exactly the directory entries name a
/// node.
pub open spec fn spec_read_shape(r: RarcModel) -> bool {
    &&& forall|f: int|
        0 <= f < r.file_entries.len() ==> (#[trigger] r.file_entries[f]).parent_node_index
            == spec_parent_of(r.nodes, f)
    &&& forall|j: int|
        0 <= j < r.nodes.len() ==> (#[trigger] r.nodes[j]).dir_entry_index == spec_dir_entry_of(
            r.file_entries,
            j,
            r.nodes.len(),
        )
    &&& forall|f: int|
        0 <= f < r.file_entries.len() ==> ((#[trigger] r.file_entries[f]).node_index_for_dir is Some
            == r.file_entries[f].is_dir)
}

/// An archive the writer stores so that the reader gets every entry back:
/// it fits the format's 32-bit sizes and 24-bit name offsets, no name has
/// a zero character, and every file has its data.
pub open spec fn spec_rarc_storable(r: RarcModel) -> bool {
    &&& spec_rarc_bytes(r).len() <= u32::MAX
    &&& spec_rarc_table(r).1.len() <= 0xFF_FFFF
    &&& forall|i: int|
        0 <= i < r.file_entries.len() ==> spec_no_nul((#[trigger] r.file_entries[i]).name) && (
        !r.file_entries[i].is_dir ==> r.file_entries[i].data is Some && r.file_entries[i].data_size
            == r.file_entries[i].data->0.len())
}

/// Which node's run holds an entry depends on the runs alone.
pub proof fn lemma_parent_of_runs(a: Seq<NodeModel>, b: Seq<NodeModel>, f: int)
    requires
        a.len() == b.len(),
        forall|j: int|
            0 <= j < a.len() ==> (#[trigger] a[j]).num_files == b[j].num_files && a[j].first_file_index
                == b[j].first_file_index,
    ensures
        spec_parent_of(a, f) == spec_parent_of(b, f),
    decreases a.len(),
{
    if a.len() > 0 {
        let n = a.len() - 1;
        assert(a[n].num_files == b[n].num_files);
        assert forall|j: int| 0 <= j < n implies (#[trigger] a.drop_last()[j]).num_files == b.drop_last()[j].num_files
            && a.drop_last()[j].first_file_index == b.drop_last()[j].first_file_index by {
            assert(a[j].num_files == b[j].num_files);
        }
        lemma_parent_of_runs(a.drop_last(), b.drop_last(), f);
    }
}

/// Which entry names a node depends on the entries' kinds and directory
/// nodes alone.
pub proof fn lemma_dir_entry_of_kinds(a: Seq<FileEntryModel>, b: Seq<FileEntryModel>, n: int, count: nat)
    requires
        a.len() == b.len(),
        forall|i: int|
            0 <= i < a.len() ==> (#[trigger] a[i]).is_dir == b[i].is_dir && a[i].node_index_for_dir
                == b[i].node_index_for_dir,
    ensures
        spec_dir_entry_of(a, n, count) == spec_dir_entry_of(b, n, count),
    decreases a.len(),
{
    if a.len() > 0 {
        let k = a.len() - 1;
        assert(a[k].is_dir == b[k].is_dir);
        assert forall|i: int| 0 <= i < k implies (#[trigger] a.drop_last()[i]).is_dir == b.drop_last()[i].is_dir
            && a.drop_last()[i].node_index_for_dir == b.drop_last()[i].node_index_for_dir by {
            assert(a[i].is_dir == b[i].is_dir);
        }
        lemma_dir_entry_of_kinds(a.drop_last(), b.drop_last(), n, count);
    }
}

/// What the reader gives is in its own shape, with links inside the
/// archive.
pub proof fn lemma_parsed_read_shape(data: Seq<u8>)
    ensures
        spec_parse_rarc(data) matches Some(r) ==> spec_read_shape(r) && spec_links_ok(r),
{
    let plain = if data.len() >= 4 && data.subrange(0, 4) == spec_magic_yaz0() {
        match crate::formats::compression::yaz0::spec_yaz0_decompress(data) {
            Some(d) => d,
            None => data,
        }
    } else {
        data
    };
    if let Some(r) = spec_parse_rarc(data) {
        assert(spec_parse_plain(plain) == Some(r));
        let h = spec_header_offsets(plain)->Some_0;
        let n0 = spec_nodes_from(plain, h, 0);
        let e0 = spec_entries_from(plain, h, 0);
        assert forall|f: int| 0 <= f < r.file_entries.len() implies (#[trigger] r.file_entries[f]).parent_node_index
            == spec_parent_of(r.nodes, f) by {
            assert forall|j: int| 0 <= j < n0.len() implies (#[trigger] n0[j]).num_files == r.nodes[j].num_files
                && n0[j].first_file_index == r.nodes[j].first_file_index by {}
            lemma_parent_of_runs(n0, r.nodes, f);
        }
        assert forall|f: int| 0 <= f < r.file_entries.len() implies ((#[trigger] r.file_entries[f]).node_index_for_dir
            is Some == r.file_entries[f].is_dir) by {
            lemma_entries_from_dir_node(plain, h, 0, f);
        }
        assert forall|j: int| 0 <= j < r.nodes.len() && (#[trigger] r.nodes[j]).dir_entry_index is Some
            implies r.nodes[j].dir_entry_index->0 < r.file_entries.len() by {
            lemma_dir_entry_of_bound(r.file_entries, j, n0.len());
        }
        assert forall|f: int| 0 <= f < r.file_entries.len() && (#[trigger] r.file_entries[f]).parent_node_index is Some
            implies r.file_entries[f].parent_node_index->0 < r.nodes.len() by {
            lemma_parent_of_bound(n0, f);
        }
    }
}

/// Law: an archive in the reader's shape, written, compressed and read
/// back, has the same skeleton, and every file its data; for every archive
/// the writer can store.
#[verifier::spinoff_prover]
#[verifier::rlimit(60)]
pub proof fn lemma_rarc_reads_back(r: RarcModel)
    requires
        spec_read_shape(r),
        spec_rarc_storable(r),
    ensures
        spec_parse_rarc(spec_yaz0_compress(spec_rarc_bytes(r))) matches Some(r2) && spec_same_shape(r2, r)
            && forall|i: int|
            0 <= i < r.file_entries.len() && !(#[trigger] r.file_entries[i]).is_dir ==> r2.file_entries[i].data
                == r.file_entries[i].data,
{
    let b = spec_written(r);
    let h = spec_written_offsets(r);
    let n = r.nodes.len() as int;
    let m = r.file_entries.len() as int;
    lemma_written_is(r);
    lemma_written_header(r);
    lemma_written_parts(r);
    lemma_written_nodes(r);
    lemma_written_compressed(r);
    lemma_nodes_from(b, h, 0);
    lemma_entries_from(b, h, 0);
    let n0 = spec_nodes_from(b, h, 0);
    let e0 = spec_entries_from(b, h, 0);
    assert forall|j: int| 0 <= j < n implies (#[trigger] n0[j]).num_files == r.nodes[j].num_files
        && n0[j].first_file_index == r.nodes[j].first_file_index by {
        lemma_node_reads_back(r, j);
    }
    assert forall|i: int| 0 <= i < m implies {
        let x = #[trigger] e0[i];
        let e = r.file_entries[i];
        &&& x.is_dir == e.is_dir
        &&& x.name == e.name
        &&& x.node_index_for_dir == e.node_index_for_dir
        &&& !e.is_dir ==> x.data == e.data
    } by {
        let e = r.file_entries[i];
        assert(spec_no_nul(e.name));
        lemma_entry_reads_back(r, i);
        assert(e.node_index_for_dir is Some == e.is_dir);
        if !e.is_dir {
            assert(e0[i] == spec_entry_at(b, h, i));
            assert(e0[i].node_index_for_dir is None);
        }
    }
    let es = Seq::new(e0.len(), |f: int| spec_with_parent(e0[f], spec_parent_of(n0, f)));
    let ns = Seq::new(n0.len(), |j: int| spec_with_dir_entry(n0[j], spec_dir_entry_of(es, j, n0.len())));
    let r2 = RarcModel { nodes: ns, file_entries: es };
    assert(spec_parse_plain(b) == Some(r2));
    assert forall|f: int| 0 <= f < m implies (#[trigger] es[f]).parent_node_index == r.file_entries[f].parent_node_index by {
        lemma_parent_of_runs(n0, r.nodes, f);
    }
    assert forall|j: int| 0 <= j < n implies (#[trigger] ns[j]).dir_entry_index == r.nodes[j].dir_entry_index by {
        lemma_dir_entry_of_kinds(es, r.file_entries, j, n as nat);
    }
    assert(spec_same_shape(r2, r));
}

} // verus!
