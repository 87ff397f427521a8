//! Writing a BMG file and reading it back gives the same file.
//!
//! The law holds for every file whose fields fit what the format can
//! store: at most 65535 messages, ids of 24 bits, attribute blocks of the
//! declared length, extra sections with four-byte names other than
//! INF1/DAT1/MID1, and section sizes that fit 32 bits. Texts in the shape
//! the reader produces come back part for part; texts made of plain and
//! escape parts in any other arrangement come back with the same bytes,
//! their parts joined as the reader joins them.

use vstd::prelude::*;
use crate::formats::bmg::parser::{
    BmgModel, MessageModel, SectionModel, spec_escape_byte, spec_scan_text, spec_parse_text, spec_flat, spec_dat_pos, spec_inf_entries, spec_dat_entries, spec_id_bytes, spec_mid_entries, spec_inf1_bytes, spec_dat1_bytes, spec_mid1_bytes, spec_section_bytes, spec_extra_bytes, spec_bmg_body, spec_bmg_bytes, spec_encoding_value, spec_encoding_name, spec_magic_bmg, spec_magic_inf1, spec_magic_dat1, spec_magic_mid1, spec_is_core_magic, spec_read_sections, spec_last_section, spec_extra_sections, spec_parse_bmg, spec_parse_messages, spec_parse_entries, spec_mid_entry,
};
use crate::utils::{
    spec_read_u32_be, spec_u16_be_bytes, spec_u32_be_bytes, spec_u32_of, spec_u16_of, lemma_skip_concat, lemma_u32_be_roundtrip, lemma_u16_be_roundtrip,
};

verus! {

/// A text part that is an escape sequence: the escape byte, then a length
/// byte that counts the whole part.
pub open spec fn spec_is_escape(p: Seq<u8>) -> bool {
    p.len() >= 2 && p[0] == spec_escape_byte() && p[1] as nat == p.len()
}

/// A text part that is plain text: no zero byte and no escape byte.
pub open spec fn spec_is_plain(p: Seq<u8>) -> bool {
    forall|i: int| 0 <= i < p.len() ==> p[i] != 0u8 && p[i] != spec_escape_byte()
}

/// A message text in the shape the reader produces: escapes and non-empty
/// plain runs, no two plain runs in a row, ending with a plain run that
/// may be empty.
pub open spec fn spec_text_canonical(t: Seq<Seq<u8>>) -> bool {
    &&& t.len() >= 1
    &&& spec_is_plain(t.last())
    &&& forall|j: int|
        0 <= j < t.len() - 1 ==> spec_is_escape(#[trigger] t[j]) || (spec_is_plain(t[j])
            && t[j].len() > 0 && spec_is_escape(t[j + 1]))
}

/// Scanning over plain bytes only gathers them into the pending run.
proof fn lemma_scan_plain(dat: Seq<u8>, pos: int, q: Seq<u8>, cur: Seq<u8>, parts: Seq<Seq<u8>>)
    requires
        0 <= pos,
        pos + q.len() <= dat.len(),
        dat.subrange(pos, pos + q.len()) == q,
        spec_is_plain(q),
    ensures
        spec_scan_text(dat, pos as nat, cur, parts) == spec_scan_text(
            dat,
            (pos + q.len()) as nat,
            cur + q,
            parts,
        ),
    decreases q.len(),
{
    if q.len() == 0 {
        assert(cur + q =~= cur);
    } else {
        assert(dat[pos] == dat.subrange(pos, pos + q.len())[0]);
        let q1 = q.skip(1);
        assert(dat.subrange(pos + 1, pos + 1 + q1.len()) =~= q1);
        lemma_scan_plain(dat, pos + 1, q1, cur.push(q[0]), parts);
        assert(cur.push(q[0]) + q1 =~= cur + q);
    }
}

/// Scanning over an escape sequence closes the pending run (if any) and
/// records the escape.
proof fn lemma_scan_escape(dat: Seq<u8>, pos: int, e: Seq<u8>, cur: Seq<u8>, parts: Seq<Seq<u8>>)
    requires
        0 <= pos,
        pos + e.len() <= dat.len(),
        dat.subrange(pos, pos + e.len()) == e,
        spec_is_escape(e),
    ensures
        spec_scan_text(dat, pos as nat, cur, parts) == spec_scan_text(
            dat,
            (pos + e.len()) as nat,
            Seq::empty(),
            (if cur.len() > 0 { parts.push(cur) } else { parts }).push(e),
        ),
{
    assert(dat[pos] == dat.subrange(pos, pos + e.len())[0]);
    assert(dat[pos + 1] == dat.subrange(pos, pos + e.len())[1]);
    let lpos = pos + 1;
    let arg_len = dat[lpos] as int;
    assert(arg_len == e.len());
    assert(seq![spec_escape_byte()] + dat.subrange(lpos, lpos + arg_len - 1) =~= e) by {
        assert forall|i: int| 1 <= i < e.len() implies dat.subrange(lpos, lpos + arg_len - 1)[i
            - 1] == e[i] by {
            assert(dat.subrange(pos, pos + e.len())[i] == dat[pos + i]);
        }
    }
}

/// A window over a concatenation splits into windows over its halves.
proof fn lemma_window_split(d: Seq<u8>, p: int, a: Seq<u8>, b: Seq<u8>)
    requires
        0 <= p,
        p + a.len() + b.len() <= d.len(),
        d.subrange(p, p + a.len() + b.len()) == a + b,
    ensures
        d.subrange(p, p + a.len()) == a,
        d.subrange(p + a.len(), p + a.len() + b.len()) == b,
{
    let w = d.subrange(p, p + a.len() + b.len());
    assert forall|i: int| 0 <= i < a.len() implies d.subrange(p, p + a.len())[i] == a[i] by {
        assert(w[i] == (a + b)[i]);
    }
    assert forall|i: int| 0 <= i < b.len() implies d.subrange(
        p + a.len(),
        p + a.len() + b.len(),
    )[i] == b[i] by {
        assert(w[a.len() + i] == (a + b)[a.len() + i]);
    }
    assert(d.subrange(p, p + a.len()) =~= a);
    assert(d.subrange(p + a.len(), p + a.len() + b.len()) =~= b);
}

/// Flattening distributes over concatenation.
proof fn lemma_flat_add(a: Seq<Seq<u8>>, b: Seq<Seq<u8>>)
    ensures
        spec_flat(a + b) == spec_flat(a) + spec_flat(b),
    decreases b.len(),
{
    if b.len() == 0 {
        assert(a + b =~= a);
        assert(spec_flat(a) + spec_flat(b) =~= spec_flat(a));
    } else {
        assert((a + b).drop_last() =~= a + b.drop_last());
        lemma_flat_add(a, b.drop_last());
        assert(spec_flat(a) + spec_flat(b.drop_last()) + b.last() =~= spec_flat(a) + (spec_flat(
            b.drop_last(),
        ) + b.last()));
    }
}

/// The flattened suffix from part `j` opens with part `j`.
proof fn lemma_flat_skip(t: Seq<Seq<u8>>, j: int)
    requires
        0 <= j < t.len(),
    ensures
        spec_flat(t.skip(j)) == t[j] + spec_flat(t.skip(j + 1)),
{
    assert(t.skip(j) =~= seq![t[j]] + t.skip(j + 1));
    lemma_flat_add(seq![t[j]], t.skip(j + 1));
    let one = seq![t[j]];
    assert(one.drop_last() =~= Seq::<Seq<u8>>::empty());
    assert(spec_flat(one.drop_last()) == Seq::<u8>::empty());
    assert(spec_flat(one) == spec_flat(one.drop_last()) + one.last());
    assert(Seq::<u8>::empty() + t[j] =~= t[j]);
}

/// The reader's state just before part `j` of a canonical text: after a
/// plain run it is still pending, otherwise nothing is pending.
pub open spec fn spec_scan_state(t: Seq<Seq<u8>>, j: int) -> (Seq<u8>, Seq<Seq<u8>>) {
    if j > 0 && !spec_is_escape(t[j - 1]) {
        (t[j - 1], t.take(j - 1))
    } else {
        (Seq::empty(), t.take(j))
    }
}

/// Scanning the remaining parts of a canonical text, followed by a zero
/// byte, yields the whole text.
proof fn lemma_scan_text_parts(dat: Seq<u8>, t: Seq<Seq<u8>>, j: int, pos: int)
    requires
        spec_text_canonical(t),
        0 <= j < t.len(),
        0 <= pos,
        pos + spec_flat(t.skip(j)).len() < dat.len(),
        dat.subrange(pos, pos + spec_flat(t.skip(j)).len()) == spec_flat(t.skip(j)),
        dat[pos + spec_flat(t.skip(j)).len()] == 0,
    ensures
        spec_scan_text(dat, pos as nat, spec_scan_state(t, j).0, spec_scan_state(t, j).1) == Ok::<
            Seq<Seq<u8>>,
            Seq<char>,
        >(t),
    decreases t.len() - j,
{
    let part = t[j];
    let rest = spec_flat(t.skip(j + 1));
    lemma_flat_skip(t, j);
    lemma_window_split(dat, pos, part, rest);
    let cur = spec_scan_state(t, j).0;
    let parts = spec_scan_state(t, j).1;
    if j > 0 && !spec_is_escape(t[j - 1]) {
        assert(t.take(j - 1).push(t[j - 1]) =~= t.take(j));
    }
    if spec_is_escape(part) {
        lemma_scan_escape(dat, pos, part, cur, parts);
        assert((if cur.len() > 0 { parts.push(cur) } else { parts }) =~= t.take(j));
        assert(t.take(j).push(part) =~= t.take(j + 1));
        if j == t.len() - 1 {
            assert(part[0] == spec_escape_byte());
        }
        lemma_scan_text_parts(dat, t, j + 1, pos + part.len());
    } else {
        if j > 0 && !spec_is_escape(t[j - 1]) {
            assert(spec_is_escape(t[j]));
        }
        assert(cur == Seq::<u8>::empty());
        assert(spec_is_plain(part));
        lemma_scan_plain(dat, pos, part, cur, parts);
        assert(cur + part =~= part);
        if j == t.len() - 1 {
            assert(t.skip(j + 1) =~= Seq::<Seq<u8>>::empty());
            assert(rest.len() == 0);
            assert(t.take(j).push(part) =~= t);
        } else {
            lemma_scan_text_parts(dat, t, j + 1, pos + part.len());
        }
    }
}

/// Reading a canonical text back from where it was written.
pub proof fn lemma_parse_text_back(dat: Seq<u8>, t: Seq<Seq<u8>>, pos: int)
    requires
        spec_text_canonical(t),
        0 <= pos,
        pos + spec_flat(t).len() < dat.len(),
        dat.subrange(pos, pos + spec_flat(t).len()) == spec_flat(t),
        dat[pos + spec_flat(t).len()] == 0,
    ensures
        spec_parse_text(dat, pos as nat) == Ok::<Seq<Seq<u8>>, Seq<char>>(t),
{
    assert(t.skip(0) =~= t);
    assert(t.take(0) =~= Seq::<Seq<u8>>::empty());
    lemma_scan_text_parts(dat, t, 0, pos);
}

/// A text part the writer and reader agree on: plain text, or an escape
/// sequence whose length byte counts it.
pub open spec fn spec_part_storable(p: Seq<u8>) -> bool {
    spec_is_plain(p) || spec_is_escape(p)
}

/// One more part added to a text in the reader's shape: an escape closes
/// the pending plain run (dropped where it is empty) and opens a new
/// empty one; plain text joins the pending run.
pub open spec fn spec_norm_step(c: Seq<Seq<u8>>, p: Seq<u8>) -> Seq<Seq<u8>> {
    if spec_is_escape(p) {
        if c.last().len() == 0 {
            c.drop_last().push(p).push(Seq::empty())
        } else {
            c.push(p).push(Seq::empty())
        }
    } else {
        c.drop_last().push(c.last() + p)
    }
}

/// A text in the shape the reader produces: adjacent plain parts joined,
/// empty ones dropped, always ending with a plain run.
pub open spec fn spec_normalize_text(t: Seq<Seq<u8>>) -> Seq<Seq<u8>>
    decreases t.len(),
{
    if t.len() == 0 {
        seq![Seq::<u8>::empty()]
    } else {
        spec_norm_step(spec_normalize_text(t.drop_last()), t.last())
    }
}

proof fn lemma_norm_step(c: Seq<Seq<u8>>, p: Seq<u8>)
    requires
        spec_text_canonical(c),
        spec_part_storable(p),
    ensures
        spec_text_canonical(spec_norm_step(c, p)),
        spec_flat(spec_norm_step(c, p)) == spec_flat(c) + p,
{
    let n = c.len();
    let r = spec_norm_step(c, p);
    let run = c.last();
    assert(!spec_is_escape(run)) by {
        if run.len() >= 2 {
            assert(run[0] != spec_escape_byte());
        }
    }
    assert(c.drop_last().push(run) =~= c);
    if spec_is_escape(p) {
        assert(!spec_is_plain(p)) by {
            assert(p[0] == spec_escape_byte());
        }
        if run.len() == 0 {
            assert forall|j: int| 0 <= j < r.len() - 1 implies spec_is_escape(#[trigger] r[j]) || (
            spec_is_plain(r[j]) && r[j].len() > 0 && spec_is_escape(r[j + 1])) by {
                if j < n - 1 {
                    assert(r[j] == c[j]);
                    if j + 1 < n - 1 {
                        assert(r[j + 1] == c[j + 1]);
                    }
                }
            }
            let mid = c.drop_last().push(p);
            assert(r.drop_last() =~= mid);
            assert(mid.drop_last() =~= c.drop_last());
            assert(spec_flat(r) == spec_flat(mid) + Seq::<u8>::empty());
            assert(spec_flat(mid) == spec_flat(c.drop_last()) + p);
            assert(spec_flat(c) == spec_flat(c.drop_last()) + run);
            assert(spec_flat(c.drop_last()) + run =~= spec_flat(c.drop_last()));
            assert(spec_flat(r) =~= spec_flat(c) + p);
        } else {
            assert forall|j: int| 0 <= j < r.len() - 1 implies spec_is_escape(#[trigger] r[j]) || (
            spec_is_plain(r[j]) && r[j].len() > 0 && spec_is_escape(r[j + 1])) by {
                if j < n {
                    assert(r[j] == c[j]);
                    if j + 1 < n {
                        assert(r[j + 1] == c[j + 1]);
                    }
                }
            }
            let mid = c.push(p);
            assert(r.drop_last() =~= mid);
            assert(mid.drop_last() =~= c);
            assert(spec_flat(r) == spec_flat(mid) + Seq::<u8>::empty());
            assert(spec_flat(mid) == spec_flat(c) + p);
            assert(spec_flat(r) =~= spec_flat(c) + p);
        }
    } else {
        assert(spec_is_plain(run + p)) by {
            assert forall|i: int| 0 <= i < (run + p).len() implies (run + p)[i] != 0u8 && (run
                + p)[i] != spec_escape_byte() by {
                if i >= run.len() {
                    assert((run + p)[i] == p[i - run.len()]);
                }
            }
        }
        assert forall|j: int| 0 <= j < r.len() - 1 implies spec_is_escape(#[trigger] r[j]) || (
        spec_is_plain(r[j]) && r[j].len() > 0 && spec_is_escape(r[j + 1])) by {
            assert(r[j] == c[j]);
            if j + 1 < n - 1 {
                assert(r[j + 1] == c[j + 1]);
            }
        }
        assert(r.drop_last() =~= c.drop_last());
        assert(spec_flat(r) == spec_flat(c.drop_last()) + (run + p));
        assert(spec_flat(c) == spec_flat(c.drop_last()) + run);
        assert(spec_flat(r) =~= spec_flat(c) + p);
    }
}

/// A text of storable parts, in the reader's shape, has the same bytes.
pub proof fn lemma_normalize_text(t: Seq<Seq<u8>>)
    requires
        forall|j: int| 0 <= j < t.len() ==> spec_part_storable(#[trigger] t[j]),
    ensures
        spec_text_canonical(spec_normalize_text(t)),
        spec_flat(spec_normalize_text(t)) == spec_flat(t),
    decreases t.len(),
{
    if t.len() == 0 {
        let e = seq![Seq::<u8>::empty()];
        assert(e.drop_last() =~= Seq::<Seq<u8>>::empty());
        assert(spec_flat(e.drop_last()) == Seq::<u8>::empty());
        assert(spec_flat(e) =~= Seq::<u8>::empty());
        assert(spec_flat(t) == Seq::<u8>::empty());
        assert(spec_is_plain(e.last()));
    } else {
        lemma_normalize_text(t.drop_last());
        lemma_norm_step(spec_normalize_text(t.drop_last()), t.last());
    }
}

/// A section the writer frames so that the reader gets it back: a
/// four-byte name and a size that fits the 32-bit field.
pub open spec fn spec_section_framable(s: SectionModel) -> bool {
    s.magic.len() == 4 && s.data.len() + 8 < 0x1_0000_0000
}

/// Framing distributes over concatenation of section lists.
proof fn lemma_extra_bytes_add(a: Seq<SectionModel>, b: Seq<SectionModel>)
    ensures
        spec_extra_bytes(a + b) == spec_extra_bytes(a) + spec_extra_bytes(b),
    decreases b.len(),
{
    if b.len() == 0 {
        assert(a + b =~= a);
        assert(spec_extra_bytes(a) + spec_extra_bytes(b) =~= spec_extra_bytes(a));
    } else {
        assert((a + b).drop_last() =~= a + b.drop_last());
        lemma_extra_bytes_add(a, b.drop_last());
        let l = b.last();
        assert(spec_extra_bytes(a) + spec_extra_bytes(b.drop_last()) + spec_section_bytes(
            l.magic,
            l.data,
        ) =~= spec_extra_bytes(a) + (spec_extra_bytes(b.drop_last()) + spec_section_bytes(
            l.magic,
            l.data,
        )));
    }
}

/// The framing of a list opens with the framing of its first section.
proof fn lemma_extra_bytes_front(l: Seq<SectionModel>)
    requires
        l.len() > 0,
    ensures
        spec_extra_bytes(l) == spec_section_bytes(l[0].magic, l[0].data) + spec_extra_bytes(
            l.skip(1),
        ),
{
    assert(l =~= seq![l[0]] + l.skip(1));
    lemma_extra_bytes_add(seq![l[0]], l.skip(1));
    let one = seq![l[0]];
    assert(one.drop_last() =~= Seq::<SectionModel>::empty());
    assert(spec_extra_bytes(one) == spec_extra_bytes(one.drop_last()) + spec_section_bytes(
        l[0].magic,
        l[0].data,
    ));
    assert(Seq::<u8>::empty() + spec_section_bytes(l[0].magic, l[0].data) =~= spec_section_bytes(
        l[0].magic,
        l[0].data,
    ));
}

/// The header and data of one framed section, read back.
proof fn lemma_read_one(data: Seq<u8>, off: int, s0: SectionModel, rest: Seq<u8>)
    requires
        0 <= off <= data.len(),
        data.skip(off) == spec_section_bytes(s0.magic, s0.data) + rest,
        spec_section_framable(s0),
    ensures
        off + 8 + s0.data.len() <= data.len(),
        spec_read_u32_be(data, off + 4) == s0.data.len() + 8,
        data.subrange(off, off + 4) == s0.magic,
        data.subrange(off + 8, off + 8 + s0.data.len()) == s0.data,
        data.skip(off + 8 + s0.data.len()) == rest,
{
    let sz = spec_u32_of(s0.data.len() + 8);
    assert(sz == s0.data.len() + 8) by {
        vstd::arithmetic::div_mod::lemma_small_mod((s0.data.len() + 8) as nat, 0x1_0000_0000);
    }
    let b4 = spec_u32_be_bytes(sz);
    assert(spec_section_bytes(s0.magic, s0.data) + rest =~= s0.magic + (b4 + (s0.data + rest)));
    lemma_skip_concat(data, off, s0.magic, b4 + (s0.data + rest));
    lemma_skip_concat(data, off + 4, b4, s0.data + rest);
    lemma_u32_be_roundtrip(sz);
    assert(data[off + 4] == b4[0]);
    assert(data[off + 5] == b4[1]);
    assert(data[off + 6] == b4[2]);
    assert(data[off + 7] == b4[3]);
    lemma_skip_concat(data, off + 8, s0.data, rest);
}

/// The reader gets back every framed section of a list.
proof fn lemma_read_framed(data: Seq<u8>, off: int, l: Seq<SectionModel>, tail: Seq<u8>)
    requires
        0 <= off <= data.len(),
        data.skip(off) == spec_extra_bytes(l) + tail,
        forall|k: int| 0 <= k < l.len() ==> spec_section_framable(#[trigger] l[k]),
    ensures
        spec_read_sections(data, off as nat, l.len()) == Ok::<Seq<SectionModel>, Seq<char>>(l),
    decreases l.len(),
{
    if l.len() == 0 {
        assert(l =~= Seq::<SectionModel>::empty());
    } else {
        let s0 = l[0];
        assert(spec_section_framable(l[0]));
        lemma_extra_bytes_front(l);
        let rest = spec_extra_bytes(l.skip(1)) + tail;
        assert(spec_extra_bytes(l) + tail =~= spec_section_bytes(s0.magic, s0.data) + rest);
        lemma_read_one(data, off, s0, rest);
        let l1 = l.skip(1);
        assert forall|k: int| 0 <= k < l1.len() implies spec_section_framable(#[trigger] l1[k]) by {
            assert(l1[k] == l[k + 1]);
        }
        lemma_read_framed(data, off + 8 + s0.data.len(), l1, tail);
        assert(seq![s0] + l1 =~= l);
        let sec = SectionModel {
            magic: data.subrange(off, off + 4),
            data: data.subrange(off + 8, off + 8 + s0.data.len()),
        };
        assert(sec == s0);
        let size = spec_read_u32_be(data, off + 4) as nat;
        assert((size - 8) as nat == s0.data.len());
        assert(spec_read_sections(data, off as nat, l.len()) == match spec_read_sections(
            data,
            (off + 8 + s0.data.len()) as nat,
            (l.len() - 1) as nat,
        ) {
            Err(e) => Err(e),
            Ok(r) => Ok(seq![sec] + r),
        });

    }
}

/// Sections after the last one named `m` do not change which is last.
proof fn lemma_last_section_tail(pre: Seq<SectionModel>, tail: Seq<SectionModel>, m: Seq<u8>)
    requires
        forall|k: int| 0 <= k < tail.len() ==> (#[trigger] tail[k]).magic != m,
    ensures
        spec_last_section(pre + tail, m) == spec_last_section(pre, m),
    decreases tail.len(),
{
    if tail.len() == 0 {
        assert(pre + tail =~= pre);
    } else {
        assert((pre + tail).drop_last() =~= pre + tail.drop_last());
        assert((pre + tail).last() == tail[tail.len() - 1]);
        lemma_last_section_tail(pre, tail.drop_last(), m);
    }
}

/// Sections that are not INF1, DAT1 or MID1 are all kept, in order.
proof fn lemma_extra_sections_tail(pre: Seq<SectionModel>, tail: Seq<SectionModel>)
    requires
        forall|k: int| 0 <= k < tail.len() ==> !spec_is_core_magic((#[trigger] tail[k]).magic),
    ensures
        spec_extra_sections(pre + tail) == spec_extra_sections(pre) + tail,
    decreases tail.len(),
{
    if tail.len() == 0 {
        assert(pre + tail =~= pre);
        assert(spec_extra_sections(pre) + tail =~= spec_extra_sections(pre));
    } else {
        assert((pre + tail).drop_last() =~= pre + tail.drop_last());
        assert((pre + tail).last() == tail[tail.len() - 1]);
        lemma_extra_sections_tail(pre, tail.drop_last());
        assert(spec_extra_sections(pre) + tail.drop_last() + seq![tail.last()] =~= spec_extra_sections(
            pre,
        ) + tail);
        assert((spec_extra_sections(pre) + tail.drop_last()).push(tail.last()) =~= spec_extra_sections(pre) + tail.drop_last() + seq![tail.last()]);
    }
}

/// The three section names differ from one another.
proof fn lemma_core_magics_differ()
    ensures
        spec_magic_inf1() != spec_magic_dat1(),
        spec_magic_inf1() != spec_magic_mid1(),
        spec_magic_dat1() != spec_magic_mid1(),
        spec_is_core_magic(spec_magic_inf1()),
        spec_is_core_magic(spec_magic_dat1()),
        spec_is_core_magic(spec_magic_mid1()),
{
    assert(spec_magic_inf1()[0] != spec_magic_dat1()[0]);
    assert(spec_magic_inf1()[1] != spec_magic_mid1()[1]);
    assert(spec_magic_dat1()[0] != spec_magic_mid1()[0]);
}

/// Which section the reader takes for INF1, DAT1 and MID1, and which it
/// keeps as extra, when the writer put the three first and no extra
/// section has one of their names.
proof fn lemma_pick_sections(inf: Seq<u8>, dat: Seq<u8>, mid: Seq<u8>, extras: Seq<SectionModel>)
    requires
        forall|k: int| 0 <= k < extras.len() ==> !spec_is_core_magic((#[trigger] extras[k]).magic),
    ensures
        ({
            let all = seq![
                SectionModel { magic: spec_magic_inf1(), data: inf },
                SectionModel { magic: spec_magic_dat1(), data: dat },
                SectionModel { magic: spec_magic_mid1(), data: mid },
            ] + extras;
            &&& spec_last_section(all, spec_magic_inf1()) == Some(inf)
            &&& spec_last_section(all, spec_magic_dat1()) == Some(dat)
            &&& spec_last_section(all, spec_magic_mid1()) == Some(mid)
            &&& spec_extra_sections(all) == extras
        }),
{
    let si = SectionModel { magic: spec_magic_inf1(), data: inf };
    let sd = SectionModel { magic: spec_magic_dat1(), data: dat };
    let sm = SectionModel { magic: spec_magic_mid1(), data: mid };
    let core = seq![si, sd, sm];
    lemma_core_magics_differ();
    assert forall|k: int| 0 <= k < extras.len() implies (#[trigger] extras[k]).magic
        != spec_magic_inf1() && extras[k].magic != spec_magic_dat1() && extras[k].magic
        != spec_magic_mid1() by {
        assert(!spec_is_core_magic(extras[k].magic));
    }
    lemma_last_section_tail(core, extras, spec_magic_inf1());
    lemma_last_section_tail(core, extras, spec_magic_dat1());
    lemma_last_section_tail(core, extras, spec_magic_mid1());
    lemma_extra_sections_tail(core, extras);
    assert(core.drop_last() =~= seq![si, sd]);
    assert(seq![si, sd].drop_last() =~= seq![si]);
    assert(seq![si].drop_last() =~= Seq::<SectionModel>::empty());
    let c2 = seq![si, sd];
    let c1 = seq![si];
    assert(core.last() == sm);
    assert(c2.last() == sd);
    assert(c1.last() == si);
    assert(spec_extra_sections(c1.drop_last()) == Seq::<SectionModel>::empty());
    assert(spec_extra_sections(c1) == spec_extra_sections(c1.drop_last()));
    assert(spec_extra_sections(c2) == spec_extra_sections(c2.drop_last()));
    assert(spec_extra_sections(core) == spec_extra_sections(core.drop_last()));
    assert(spec_last_section(core, spec_magic_mid1()) == Some(mid));
    assert(spec_last_section(core, spec_magic_dat1()) == spec_last_section(c2, spec_magic_dat1()));
    assert(spec_last_section(c2, spec_magic_dat1()) == Some(dat));
    assert(spec_last_section(core, spec_magic_inf1()) == spec_last_section(c2, spec_magic_inf1()));
    assert(spec_last_section(c2, spec_magic_inf1()) == spec_last_section(c1, spec_magic_inf1()));
    assert(spec_last_section(c1, spec_magic_inf1()) == Some(inf));
    assert(Seq::<SectionModel>::empty() + extras =~= extras);
}

/// Taking one more message adds that message at the end.
proof fn lemma_take_succ(m: Seq<MessageModel>, i: int)
    requires
        0 <= i < m.len(),
    ensures
        m.take(i + 1).drop_last() == m.take(i),
        m.take(i + 1).last() == m[i],
        m.take(i + 1).len() > 0,
{
    assert(m.take(i + 1).drop_last() =~= m.take(i));
}

/// Whether `f` builds its bytes by appending to the bytes of the list
/// without its last element.
#[verifier::opaque]
pub open spec fn spec_grows_by_append(f: spec_fn(Seq<MessageModel>) -> Seq<u8>) -> bool {
    forall|s: Seq<MessageModel>|
        s.len() > 0 ==> f(s.drop_last()).len() <= #[trigger] f(s).len() && f(s).take(
            f(s.drop_last()).len() as int,
        ) == f(s.drop_last())
}

/// Such bytes of a list open with the bytes of each of its prefixes.
proof fn lemma_prefix_bytes(
    msgs: Seq<MessageModel>,
    m: int,
    f: spec_fn(Seq<MessageModel>) -> Seq<u8>,
)
    requires
        0 <= m <= msgs.len(),
        spec_grows_by_append(f),
    ensures
        f(msgs.take(m)).len() <= f(msgs).len(),
        f(msgs).take(f(msgs.take(m)).len() as int) == f(msgs.take(m)),
    decreases msgs.len(),
{
    if m == msgs.len() {
        assert(msgs.take(m) =~= msgs);
        assert(f(msgs).take(f(msgs).len() as int) =~= f(msgs));
    } else {
        let dl = msgs.drop_last();
        assert(dl.take(m) =~= msgs.take(m));
        lemma_prefix_bytes(dl, m, f);
        reveal(spec_grows_by_append);
        assert(f(msgs).take(f(dl).len() as int) == f(dl));
        assert(f(msgs).take(f(msgs.take(m)).len() as int) =~= f(dl).take(
            f(msgs.take(m)).len() as int,
        ));
    }
}

/// The bytes that message `i` adds sit right after those of the messages
/// before it.
proof fn lemma_entry_window(
    msgs: Seq<MessageModel>,
    i: int,
    f: spec_fn(Seq<MessageModel>) -> Seq<u8>,
    g: Seq<u8>,
)
    requires
        0 <= i < msgs.len(),
        spec_grows_by_append(f),
        f(msgs.take(i + 1)) == f(msgs.take(i)) + g,
    ensures
        f(msgs.take(i)).len() + g.len() <= f(msgs).len(),
        f(msgs).subrange(f(msgs.take(i)).len() as int, f(msgs.take(i)).len() + g.len() as int) == g,
{
    lemma_prefix_bytes(msgs, i + 1, f);
    let a = f(msgs.take(i));
    let whole = f(msgs);
    assert forall|x: int| 0 <= x < g.len() implies whole.subrange(
        a.len() as int,
        a.len() + g.len() as int,
    )[x] == g[x] by {
        assert(whole.take((a.len() + g.len()) as int)[a.len() + x] == (a + g)[a.len() + x]);
    }
    assert(whole.subrange(a.len() as int, a.len() + g.len() as int) =~= g);
}

/// The INF1 entries grow by appending.
proof fn lemma_inf_grows()
    ensures
        spec_grows_by_append(|s: Seq<MessageModel>| spec_inf_entries(s)),
{
    reveal(spec_grows_by_append);
    let f = |s: Seq<MessageModel>| spec_inf_entries(s);
    assert forall|s: Seq<MessageModel>| s.len() > 0 implies f(s.drop_last()).len()
        <= #[trigger] f(s).len() && f(s).take(f(s.drop_last()).len() as int) == f(
        s.drop_last(),
    ) by {
        let dl = s.drop_last();
        let g = spec_u32_be_bytes(spec_u32_of(spec_dat_pos(dl))) + s.last().attributes;
        assert(f(s) =~= f(dl) + g);
        assert(f(s).take(f(dl).len() as int) =~= f(dl));
    }
}

/// The DAT1 entries grow by appending.
proof fn lemma_dat_grows()
    ensures
        spec_grows_by_append(|s: Seq<MessageModel>| spec_dat_entries(s)),
{
    reveal(spec_grows_by_append);
    assert forall|s: Seq<MessageModel>| s.len() > 0 implies spec_dat_entries(s.drop_last()).len()
        <= #[trigger] spec_dat_entries(s).len() && spec_dat_entries(s).take(
        spec_dat_entries(s.drop_last()).len() as int,
    ) == spec_dat_entries(s.drop_last()) by {
        assert(spec_dat_entries(s).take(spec_dat_entries(s.drop_last()).len() as int)
            =~= spec_dat_entries(s.drop_last()));
    }
}

/// The MID1 entries grow by appending.
proof fn lemma_mid_grows()
    ensures
        spec_grows_by_append(|s: Seq<MessageModel>| spec_mid_entries(s)),
{
    reveal(spec_grows_by_append);
    assert forall|s: Seq<MessageModel>| s.len() > 0 implies spec_mid_entries(s.drop_last()).len()
        <= #[trigger] spec_mid_entries(s).len() && spec_mid_entries(s).take(
        spec_mid_entries(s.drop_last()).len() as int,
    ) == spec_mid_entries(s.drop_last()) by {
        assert(spec_mid_entries(s).take(spec_mid_entries(s.drop_last()).len() as int)
            =~= spec_mid_entries(s.drop_last()));
    }
}

/// The text of the message after `s` starts one byte past the DAT1
/// entries of `s`.
proof fn lemma_dat_pos_len(s: Seq<MessageModel>)
    ensures
        spec_dat_pos(s) == 1 + spec_dat_entries(s).len(),
    decreases s.len(),
{
    if s.len() > 0 {
        lemma_dat_pos_len(s.drop_last());
    }
}

/// Each MID1 entry is four bytes.
proof fn lemma_mid_len(s: Seq<MessageModel>)
    ensures
        spec_mid_entries(s).len() == 4 * s.len(),
    decreases s.len(),
{
    if s.len() > 0 {
        lemma_mid_len(s.drop_last());
    }
}

/// Each INF1 entry is four bytes of offset and the attribute block.
proof fn lemma_inf_len(s: Seq<MessageModel>, a: nat)
    requires
        forall|k: int| 0 <= k < s.len() ==> (#[trigger] s[k]).attributes.len() == a,
    ensures
        spec_inf_entries(s).len() == s.len() * (4 + a),
    decreases s.len(),
{
    if s.len() > 0 {
        let dl = s.drop_last();
        assert forall|k: int| 0 <= k < dl.len() implies (#[trigger] dl[k]).attributes.len() == a by {
            assert(dl[k] == s[k]);
        }
        lemma_inf_len(dl, a);
        assert(s.last() == s[s.len() - 1]);
        assert(dl.len() * (4 + a) + 4 + a == s.len() * (4 + a)) by (nonlinear_arith)
            requires
                dl.len() + 1 == s.len(),
        ;
    }
}

/// The attribute bytes each INF1 entry carries for a header attribute
/// length: four bytes of the declared length are the text offset.
pub open spec fn spec_attr_len(al: u16) -> nat {
    if al >= 4 {
        (al - 4) as nat
    } else {
        0
    }
}

/// A message the writer stores so that the reader gets it back.
pub open spec fn spec_message_writable(m: MessageModel, attr_len: nat) -> bool {
    &&& m.id < 0x100_0000
    &&& m.attributes.len() == attr_len
    &&& spec_text_canonical(m.text)
}

/// A file whose fields fit what the format can store, so that writing and
/// reading it back gives it again.
pub open spec fn spec_bmg_writable(b: BmgModel) -> bool {
    let n = b.messages.len();
    let a = spec_attr_len(b.attribute_length);
    &&& n <= 0xffff
    &&& b.encoding == "legacy-bmg"@ || b.encoding == "windows-1252"@ || b.encoding == "utf-16be"@
        || b.encoding == "shift-jis"@ || b.encoding == "utf-8"@
    &&& forall|i: int| 0 <= i < n ==> spec_message_writable(#[trigger] b.messages[i], a)
    &&& 16 + n * (4 + a) < 0x1_0000_0000
    &&& spec_dat_pos(b.messages) + 8 < 0x1_0000_0000
    &&& 3 + b.additional_sections.len() < 0x1_0000_0000
    &&& forall|k: int|
        0 <= k < b.additional_sections.len() ==> spec_section_framable(
            #[trigger] b.additional_sections[k],
        ) && !spec_is_core_magic(b.additional_sections[k].magic)
}

/// Where message `i`'s INF1 entry sits among the entries: its text offset,
/// then its attributes.
proof fn lemma_inf_window(msgs: Seq<MessageModel>, i: int)
    requires
        0 <= i < msgs.len(),
    ensures
        ({
            let e = spec_inf_entries(msgs);
            let p = spec_inf_entries(msgs.take(i)).len() as int;
            let an = msgs[i].attributes.len() as int;
            let g = spec_u32_be_bytes(spec_u32_of(spec_dat_pos(msgs.take(i)))) + msgs[i].attributes;
            &&& p + 4 + an <= e.len()
            &&& spec_inf_entries(msgs.take(i + 1)).len() == p + 4 + an
            &&& e.subrange(p, p + 4 + an) == g
        }),
{
    lemma_take_succ(msgs, i);
    let g = spec_u32_be_bytes(spec_u32_of(spec_dat_pos(msgs.take(i)))) + msgs[i].attributes;
    assert(spec_inf_entries(msgs.take(i + 1)) =~= spec_inf_entries(msgs.take(i)) + g);
    lemma_inf_grows();
    lemma_entry_window(msgs, i, |s: Seq<MessageModel>| spec_inf_entries(s), g);
}

/// The text of message `i` starts no later than the end of DAT1.
proof fn lemma_dat_pos_bound(msgs: Seq<MessageModel>, i: int)
    requires
        0 <= i <= msgs.len(),
    ensures
        spec_dat_pos(msgs.take(i)) <= spec_dat_pos(msgs),
{
    lemma_dat_pos_len(msgs.take(i));
    lemma_dat_pos_len(msgs);
    lemma_dat_grows();
    lemma_prefix_bytes(msgs, i, |s: Seq<MessageModel>| spec_dat_entries(s));
}

/// The INF1 entry of message `i`, read back.
proof fn lemma_inf_entry(msgs: Seq<MessageModel>, al: u16, inf: Seq<u8>, i: int)
    requires
        0 <= i < msgs.len(),
        msgs[i].attributes.len() == spec_attr_len(al),
        spec_dat_pos(msgs) < 0x1_0000_0000,
        inf.len() >= 8,
        inf.skip(8) == spec_inf_entries(msgs),
    ensures
        ({
            let off: int = 8 + spec_inf_entries(msgs.take(i)).len() as int;
            let a: int = spec_attr_len(al) as int;
            &&& off + 4 + a <= inf.len()
            &&& spec_read_u32_be(inf, off) as nat == spec_dat_pos(msgs.take(i))
            &&& inf.subrange(off + 4, off + 4 + a) == msgs[i].attributes
            &&& 8 + spec_inf_entries(msgs.take(i + 1)).len() == off + 4 + a
        }),
{
    let a: int = spec_attr_len(al) as int;
    let e = spec_inf_entries(msgs);
    let p = spec_inf_entries(msgs.take(i)).len() as int;
    let off: int = 8 + p;
    let dp = spec_dat_pos(msgs.take(i));
    let v = spec_u32_of(dp);
    let b4 = spec_u32_be_bytes(v);
    let g = b4 + msgs[i].attributes;
    lemma_inf_window(msgs, i);
    assert forall|x: int| 0 <= x < g.len() implies inf[off + x] == #[trigger] g[x] by {
        assert(inf.skip(8)[p + x] == inf[off + x]);
        assert(e.subrange(p, p + 4 + a)[x] == e[p + x]);
    }
    lemma_dat_pos_bound(msgs, i);
    assert(v == dp) by {
        vstd::arithmetic::div_mod::lemma_small_mod(dp, 0x1_0000_0000);
    }
    lemma_u32_be_roundtrip(v);
    assert(g[0] == b4[0] && g[1] == b4[1] && g[2] == b4[2] && g[3] == b4[3]);
    assert(inf.subrange(off + 4, off + 4 + a) =~= msgs[i].attributes) by {
        assert forall|x: int| 0 <= x < a implies inf.subrange(off + 4, off + 4 + a)[x]
            == msgs[i].attributes[x] by {
            assert(g[4 + x] == msgs[i].attributes[x]);
        }
    }
}

/// The DAT1 text of message `i`, read back.
proof fn lemma_dat_entry(msgs: Seq<MessageModel>, dat: Seq<u8>, i: int)
    requires
        0 <= i < msgs.len(),
        spec_text_canonical(msgs[i].text),
        dat.len() >= 1,
        dat.skip(1) == spec_dat_entries(msgs),
    ensures
        spec_parse_text(dat, spec_dat_pos(msgs.take(i))) == Ok::<Seq<Seq<u8>>, Seq<char>>(
            msgs[i].text,
        ),
{
    let t = msgs[i].text;
    let fl = spec_flat(t);
    let g = fl.push(0u8);
    let d = spec_dat_entries(msgs);
    let p = spec_dat_entries(msgs.take(i)).len() as int;
    lemma_take_succ(msgs, i);
    assert(spec_dat_entries(msgs.take(i + 1)) == spec_dat_entries(msgs.take(i)) + g);
    lemma_dat_grows();
    lemma_entry_window(msgs, i, |s: Seq<MessageModel>| spec_dat_entries(s), g);
    lemma_dat_pos_len(msgs.take(i));
    let pos: int = 1 + p;
    assert forall|x: int| 0 <= x < g.len() implies dat[pos + x] == #[trigger] g[x] by {
        assert(dat.skip(1)[p + x] == dat[pos + x]);
        assert(d.subrange(p, p + g.len())[x] == d[p + x]);
    }
    assert(dat.subrange(pos, pos + fl.len()) =~= fl) by {
        assert forall|x: int| 0 <= x < fl.len() implies dat.subrange(pos, pos + fl.len())[x]
            == fl[x] by {
            assert(g[x] == fl[x]);
        }
    }
    assert(dat[pos + fl.len()] == g[fl.len() as int]);
    lemma_parse_text_back(dat, t, pos);
}

/// The big-endian bytes of a 24-bit id read back as the id.
proof fn lemma_u24_roundtrip(id: u32)
    requires
        id < 0x100_0000,
    ensures
        ((id / 65536) % 256) as u8 as int * 65536 + ((id / 256) % 256) as u8 as int * 256 + (id
            % 256) as u8 as int == id,
{
    assert(((id / 65536) % 256) * 65536 + ((id / 256) % 256) * 256 + id % 256 == id) by (bit_vector)
        requires
            id < 0x100_0000,
    ;
}

/// The MID1 entry of message `i`, read back.
proof fn lemma_mid_entry(msgs: Seq<MessageModel>, mid: Seq<u8>, i: int)
    requires
        0 <= i < msgs.len(),
        msgs[i].id < 0x100_0000,
        mid.len() >= 8,
        mid.skip(8) == spec_mid_entries(msgs),
    ensures
        spec_mid_entry(mid, i as nat) == (msgs[i].id, msgs[i].subid),
{
    let g = spec_id_bytes(msgs[i]);
    let m = spec_mid_entries(msgs);
    lemma_take_succ(msgs, i);
    assert(spec_mid_entries(msgs.take(i + 1)) == spec_mid_entries(msgs.take(i)) + g);
    lemma_mid_grows();
    lemma_entry_window(msgs, i, |s: Seq<MessageModel>| spec_mid_entries(s), g);
    lemma_mid_len(msgs.take(i));
    let at: int = 8 + 4 * i;
    assert forall|x: int| 0 <= x < 4 implies mid[at + x] == #[trigger] g[x] by {
        assert(mid.skip(8)[4 * i + x] == mid[at + x]);
        assert(m.subrange(4 * i, 4 * i + 4)[x] == m[4 * i + x]);
    }
    lemma_u24_roundtrip(msgs[i].id);
    assert(mid[at] == g[0] && mid[at + 1] == g[1] && mid[at + 2] == g[2] && mid[at + 3] == g[3]);
}

/// The messages `i..` of a written file, read back.
proof fn lemma_entries_back(
    msgs: Seq<MessageModel>,
    al: u16,
    inf: Seq<u8>,
    dat: Seq<u8>,
    mid: Seq<u8>,
    i: int,
)
    requires
        forall|k: int|
            0 <= k < msgs.len() ==> spec_message_writable(#[trigger] msgs[k], spec_attr_len(al)),
        spec_dat_pos(msgs) < 0x1_0000_0000,
        inf.len() >= 8,
        inf.skip(8) == spec_inf_entries(msgs),
        dat.len() >= 1,
        dat.skip(1) == spec_dat_entries(msgs),
        mid.len() >= 8,
        mid.skip(8) == spec_mid_entries(msgs),
        0 <= i <= msgs.len(),
    ensures
        spec_parse_entries(
            inf,
            dat,
            mid,
            spec_attr_len(al),
            i as nat,
            msgs.len(),
            (8 + spec_inf_entries(msgs.take(i)).len()) as nat,
        ) == Ok::<Seq<MessageModel>, Seq<char>>(msgs.skip(i)),
    decreases msgs.len() - i,
{
    if i == msgs.len() {
        assert(msgs.skip(i) =~= Seq::<MessageModel>::empty());
    } else {
        assert(spec_message_writable(msgs[i], spec_attr_len(al)));
        lemma_inf_entry(msgs, al, inf, i);
        lemma_dat_entry(msgs, dat, i);
        lemma_mid_entry(msgs, mid, i);
        lemma_entries_back(msgs, al, inf, dat, mid, i + 1);
        let off: int = 8 + spec_inf_entries(msgs.take(i)).len() as int;
        let a = spec_attr_len(al);
        let msg = MessageModel {
            id: spec_mid_entry(mid, i as nat).0,
            subid: spec_mid_entry(mid, i as nat).1,
            attributes: inf.subrange(off + 4, off + 4 + a),
            text: msgs[i].text,
        };
        assert(msg == msgs[i]);
        assert(seq![msgs[i]] + msgs.skip(i + 1) =~= msgs.skip(i));
    }
}

/// The message sections of a written file, read back.
proof fn lemma_messages_back(b: BmgModel)
    requires
        spec_bmg_writable(b),
    ensures
        spec_parse_messages(spec_inf1_bytes(b), spec_dat1_bytes(b), spec_mid1_bytes(b)) == Ok::<
            (Seq<MessageModel>, u16),
            Seq<char>,
        >((b.messages, b.attribute_length)),
{
    let msgs = b.messages;
    let n = msgs.len();
    let inf = spec_inf1_bytes(b);
    let dat = spec_dat1_bytes(b);
    let mid = spec_mid1_bytes(b);
    let n16 = spec_u16_of(n);
    assert(n16 == n) by {
        vstd::arithmetic::div_mod::lemma_small_mod(n, 0x1_0000);
    }
    let h0 = spec_u16_be_bytes(n16);
    let h1 = spec_u16_be_bytes(b.attribute_length);
    lemma_u16_be_roundtrip(n16);
    lemma_u16_be_roundtrip(b.attribute_length);
    assert(inf[0] == h0[0] && inf[1] == h0[1] && inf[2] == h1[0] && inf[3] == h1[1]);
    assert(inf.skip(8) =~= spec_inf_entries(msgs));
    assert(dat.skip(1) =~= spec_dat_entries(msgs));
    assert(mid.skip(8) =~= spec_mid_entries(msgs));
    assert(msgs.take(0) =~= Seq::<MessageModel>::empty());
    assert(msgs.skip(0) =~= msgs);
    lemma_entries_back(msgs, b.attribute_length, inf, dat, mid, 0);
}

/// The INF1, DAT1 and MID1 sections of a file, then its extra sections.
pub open spec fn spec_all_sections(b: BmgModel) -> Seq<SectionModel> {
    seq![
        SectionModel { magic: spec_magic_inf1(), data: spec_inf1_bytes(b) },
        SectionModel { magic: spec_magic_dat1(), data: spec_dat1_bytes(b) },
        SectionModel { magic: spec_magic_mid1(), data: spec_mid1_bytes(b) },
    ] + b.additional_sections
}

/// The header fields of a written file, read back.
proof fn lemma_header_back(b: BmgModel)
    requires
        spec_bmg_writable(b),
    ensures
        ({
            let data = spec_bmg_bytes(b);
            &&& data.len() >= 32
            &&& data.subrange(0, 8) == spec_magic_bmg()
            &&& spec_read_u32_be(data, 12) == 3 + b.additional_sections.len()
            &&& spec_encoding_name(spec_read_u32_be(data, 16)) == b.encoding
            &&& data.skip(32) == spec_bmg_body(b)
        }),
{
    let data = spec_bmg_bytes(b);
    let extras = b.additional_sections;
    let count = spec_u32_of(3 + extras.len());
    assert(count == 3 + extras.len()) by {
        vstd::arithmetic::div_mod::lemma_small_mod((3 + extras.len()) as nat, 0x1_0000_0000);
    }
    let enc = spec_encoding_value(b.encoding);
    let hc = spec_u32_be_bytes(count);
    let he = spec_u32_be_bytes(enc);
    lemma_u32_be_roundtrip(count);
    lemma_u32_be_roundtrip(enc);
    assert(data.subrange(0, 8) =~= spec_magic_bmg());
    assert(data[12] == hc[0] && data[13] == hc[1] && data[14] == hc[2] && data[15] == hc[3]);
    assert(data[16] == he[0] && data[17] == he[1] && data[18] == he[2] && data[19] == he[3]);
    assert(data.skip(32) =~= spec_bmg_body(b));
    assert(spec_encoding_name(enc) == b.encoding) by {
        reveal_strlit("legacy-bmg");
        reveal_strlit("windows-1252");
        reveal_strlit("latin-1");
        reveal_strlit("utf-16be");
        reveal_strlit("shift-jis");
        reveal_strlit("utf-8");
    }
}

/// Every section of a writable file can be framed.
proof fn lemma_all_framable(b: BmgModel)
    requires
        spec_bmg_writable(b),
    ensures
        forall|k: int|
            0 <= k < spec_all_sections(b).len() ==> spec_section_framable(
                #[trigger] spec_all_sections(b)[k],
            ),
{
    let all = spec_all_sections(b);
    let extras = b.additional_sections;
    let a = spec_attr_len(b.attribute_length);
    lemma_inf_len(b.messages, a);
    lemma_mid_len(b.messages);
    lemma_dat_pos_len(b.messages);
    assert(spec_section_framable(all[0]));
    assert(spec_section_framable(all[1]));
    assert(spec_section_framable(all[2]));
    assert forall|k: int| 0 <= k < all.len() implies spec_section_framable(#[trigger] all[k]) by {
        if k >= 3 {
            assert(all[k] == extras[k - 3]);
        }
    }
}

/// The body of a written file is the framing of all its sections.
proof fn lemma_body_framing(b: BmgModel)
    ensures
        spec_extra_bytes(spec_all_sections(b)) == spec_bmg_body(b),
{
    let all = spec_all_sections(b);
    lemma_extra_bytes_front(all);
    lemma_extra_bytes_front(all.skip(1));
    lemma_extra_bytes_front(all.skip(1).skip(1));
    assert(all.skip(1).skip(1).skip(1) =~= b.additional_sections);
    assert(spec_extra_bytes(all) =~= spec_bmg_body(b));
}

/// The sections of a written file, read back.
#[verifier::spinoff_prover]
#[verifier::rlimit(30)]
proof fn lemma_sections_back(b: BmgModel)
    requires
        spec_bmg_writable(b),
    ensures
        spec_read_sections(spec_bmg_bytes(b), 32, (3 + b.additional_sections.len()) as nat) == Ok::<
            Seq<SectionModel>,
            Seq<char>,
        >(spec_all_sections(b)),
{
    let data = spec_bmg_bytes(b);
    let all = spec_all_sections(b);
    lemma_header_back(b);
    lemma_all_framable(b);
    lemma_body_framing(b);
    assert(data.skip(32) =~= spec_extra_bytes(all) + Seq::<u8>::empty());
    lemma_read_framed(data, 32, all, Seq::<u8>::empty());
}

/// Law: a BMG file written out and parsed again is the same file, for
/// every file whose fields fit what the format can store.
#[verifier::spinoff_prover]
pub proof fn lemma_bmg_roundtrip(b: BmgModel)
    requires
        spec_bmg_writable(b),
    ensures
        spec_parse_bmg(spec_bmg_bytes(b)) == Ok::<BmgModel, Seq<char>>(b),
{
    let extras = b.additional_sections;
    lemma_header_back(b);
    lemma_sections_back(b);
    assert forall|k: int| 0 <= k < extras.len() implies !spec_is_core_magic(
        (#[trigger] extras[k]).magic,
    ) by {}
    lemma_pick_sections(spec_inf1_bytes(b), spec_dat1_bytes(b), spec_mid1_bytes(b), extras);
    lemma_messages_back(b);
    let out = BmgModel {
        encoding: b.encoding,
        messages: b.messages,
        attribute_length: b.attribute_length,
        additional_sections: extras,
    };
    assert(out == b);
}

/// Two message lists that store the same: the same ids, sub-ids and
/// attributes, and texts whose parts join to the same bytes.
pub open spec fn spec_same_stored(m1: Seq<MessageModel>, m2: Seq<MessageModel>) -> bool {
    &&& m1.len() == m2.len()
    &&& forall|i: int|
        0 <= i < m1.len() ==> {
            &&& (#[trigger] m1[i]).id == m2[i].id
            &&& m1[i].subid == m2[i].subid
            &&& m1[i].attributes == m2[i].attributes
            &&& spec_flat(m1[i].text) == spec_flat(m2[i].text)
        }
}

/// Message lists that store the same are written as the same bytes.
proof fn lemma_same_stored_bytes(m1: Seq<MessageModel>, m2: Seq<MessageModel>)
    requires
        spec_same_stored(m1, m2),
    ensures
        spec_dat_pos(m1) == spec_dat_pos(m2),
        spec_inf_entries(m1) == spec_inf_entries(m2),
        spec_dat_entries(m1) == spec_dat_entries(m2),
        spec_mid_entries(m1) == spec_mid_entries(m2),
    decreases m1.len(),
{
    if m1.len() > 0 {
        let n = m1.len() - 1;
        assert(m1[n].id == m2[n].id);
        assert(spec_same_stored(m1.drop_last(), m2.drop_last())) by {
            assert forall|i: int| 0 <= i < n implies #[trigger] m1.drop_last()[i] == m1[i] && m2.drop_last()[i]
                == m2[i] by {}
        }
        lemma_same_stored_bytes(m1.drop_last(), m2.drop_last());
    }
}

/// The messages with their texts in the reader's shape.
pub open spec fn spec_normalize_messages(msgs: Seq<MessageModel>) -> Seq<MessageModel> {
    Seq::new(
        msgs.len(),
        |i: int| MessageModel { text: spec_normalize_text(msgs[i].text), ..msgs[i] },
    )
}

/// A message the writer stores so that the reader gets back its id,
/// attributes and text bytes: every text part plain or a well-formed
/// escape.
pub open spec fn spec_message_storable(m: MessageModel, attr_len: nat) -> bool {
    &&& m.id < 0x100_0000
    &&& m.attributes.len() == attr_len
    &&& forall|j: int| 0 <= j < m.text.len() ==> spec_part_storable(#[trigger] m.text[j])
}

/// A file whose fields fit what the format can store, with texts made of
/// plain and escape parts in any arrangement.
pub open spec fn spec_bmg_storable(b: BmgModel) -> bool {
    let n = b.messages.len();
    let a = spec_attr_len(b.attribute_length);
    &&& n <= 0xffff
    &&& b.encoding == "legacy-bmg"@ || b.encoding == "windows-1252"@ || b.encoding == "utf-16be"@
        || b.encoding == "shift-jis"@ || b.encoding == "utf-8"@
    &&& forall|i: int| 0 <= i < n ==> spec_message_storable(#[trigger] b.messages[i], a)
    &&& 16 + n * (4 + a) < 0x1_0000_0000
    &&& spec_dat_pos(b.messages) + 8 < 0x1_0000_0000
    &&& 3 + b.additional_sections.len() < 0x1_0000_0000
    &&& forall|k: int|
        0 <= k < b.additional_sections.len() ==> spec_section_framable(
            #[trigger] b.additional_sections[k],
        ) && !spec_is_core_magic(b.additional_sections[k].magic)
}

/// Law: a BMG file written out and parsed again has the same encoding,
/// attribute length and extra sections, and the same messages with the
/// same ids, attributes and text bytes (its parts joined), for every file
/// whose fields fit what the format can store and whose texts are made of
/// plain and escape parts.
#[verifier::spinoff_prover]
pub proof fn lemma_bmg_roundtrip_joined(b: BmgModel)
    requires
        spec_bmg_storable(b),
    ensures
        spec_parse_bmg(spec_bmg_bytes(b)) matches Ok(p) && {
            &&& p.encoding == b.encoding
            &&& p.attribute_length == b.attribute_length
            &&& p.additional_sections == b.additional_sections
            &&& spec_same_stored(p.messages, b.messages)
        },
{
    let msgs = b.messages;
    let norm = spec_normalize_messages(msgs);
    let bn = BmgModel { messages: norm, ..b };
    let a = spec_attr_len(b.attribute_length);
    assert forall|i: int| 0 <= i < msgs.len() implies spec_flat(#[trigger] norm[i].text) == spec_flat(msgs[i].text)
        && spec_text_canonical(norm[i].text) by {
        assert(spec_message_storable(msgs[i], a));
        lemma_normalize_text(msgs[i].text);
    }
    assert(spec_same_stored(norm, msgs));
    lemma_same_stored_bytes(norm, msgs);
    assert(spec_inf1_bytes(bn) == spec_inf1_bytes(b));
    assert(spec_dat1_bytes(bn) == spec_dat1_bytes(b));
    assert(spec_mid1_bytes(bn) == spec_mid1_bytes(b));
    assert(spec_bmg_body(bn) == spec_bmg_body(b));
    assert(spec_bmg_bytes(bn) == spec_bmg_bytes(b));
    assert forall|i: int| 0 <= i < norm.len() implies spec_message_writable(#[trigger] norm[i], a) by {
        assert(spec_message_storable(msgs[i], a));
    }
    assert(spec_bmg_writable(bn));
    lemma_bmg_roundtrip(bn);
    assert forall|i: int| 0 <= i < norm.len() implies {
        &&& (#[trigger] norm[i]).id == msgs[i].id
        &&& norm[i].subid == msgs[i].subid
        &&& norm[i].attributes == msgs[i].attributes
        &&& spec_flat(norm[i].text) == spec_flat(msgs[i].text)
    } by {}
}

} // verus!
