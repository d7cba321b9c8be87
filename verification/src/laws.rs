//! The laws of the codec: decoding undoes encoding, the header bytes are
//! fixed, field escaping flips exactly at the signed 8-bit limits, a suffix
//! never splits a multi-byte scalar, and a truncated database decodes to a
//! prefix of its lines without an error.

use crate::codec::{
    dec_init, decode_all, encodable, encode_lines, encode_record, encode_records, header, label,
    next_line_spec, next_record, parse_header, parse_record, DecState, FrError, MAX_LINE_BYTES,
};
use crate::text::{common_prefix_bytes, lemma_common_prefix};
use crate::varint::{enc_int, lemma_read_int_of_enc, read_int, ESCAPE};
use vstd::prelude::*;
use vstd::utf8::{
    is_char_boundary, is_leading_byte_width_1, partial_valid_utf8_extend_ascii_block, valid_utf8,
    valid_utf8_split,
};

verus! {

/// The label bytes are well-formed text: seven ASCII bytes.
pub proof fn lemma_label_valid()
    ensures
        valid_utf8(label()),
{
    let lab = label();
    assert(lab.subrange(0, 0) =~= Seq::<u8>::empty());
    assert(valid_utf8(lab.subrange(0, 0)));
    assert(forall|i: int| 0 <= i < lab.len() ==> is_leading_byte_width_1(#[trigger] lab[i]));
    partial_valid_utf8_extend_ascii_block(lab, 0, lab.len() as int);
    assert(lab.subrange(0, lab.len() as int) =~= lab);
}

/// The encoder's suffix begins on a scalar boundary of the line: two lines
/// that differ inside a multi-byte scalar part ways at that scalar's first
/// byte, never in the middle of it.
pub proof fn lemma_suffix_never_splits_scalar(prev: Seq<u8>, line: Seq<u8>)
    requires
        valid_utf8(prev),
        valid_utf8(line),
    ensures
        is_char_boundary(line, common_prefix_bytes(prev, line)),
        valid_utf8(line.subrange(common_prefix_bytes(prev, line), line.len() as int)),
{
    lemma_common_prefix(prev, line);
    valid_utf8_split(line, common_prefix_bytes(prev, line));
}

/// The prefix invariant: with `p` the shared leading-scalar byte length of
/// the previous and the current line, the record carries the offset field
/// `p` minus the previous shared-prefix length, the length of the suffix
/// beyond `p`, and that suffix literally.
pub proof fn lemma_prefix_invariant(prev: Seq<u8>, plen: int, line: Seq<u8>)
    ensures
        ({
            let p = common_prefix_bytes(prev, line);
            encode_record(prev, plen, line) == enc_int(p - plen) + enc_int(line.len() - p)
                + line.subrange(p, line.len() as int)
        }),
{
}

/// Escaping flips exactly at the signed 8-bit limits: 127 is one byte and
/// 128 escapes; -127 is one byte, while -128 — whose sole one-byte pattern
/// would collide with the escape byte itself — and -129 both escape.
pub proof fn lemma_escape_byte_boundary()
    ensures
        enc_int(127) == seq![127u8],
        enc_int(128) == seq![ESCAPE, 0u8, 128u8],
        enc_int(-127) == seq![129u8],
        enc_int(-128) == seq![ESCAPE, 255u8, 128u8],
        enc_int(-129) == seq![ESCAPE, 255u8, 127u8],
{
    assert(enc_int(127) =~= seq![127u8]);
    assert(128int / 256 == 0 && 128int % 256 == 128);
    assert(enc_int(128) =~= seq![ESCAPE, 0u8, 128u8]);
    assert(enc_int(-127) =~= seq![129u8]);
    assert(65408int / 256 == 255 && 65408int % 256 == 128);
    assert(enc_int(-128) =~= seq![ESCAPE, 255u8, 128u8]);
    assert(65407int / 256 == 255 && 65407int % 256 == 127);
    assert(enc_int(-129) =~= seq![ESCAPE, 255u8, 127u8]);
}

/// A non-empty input always opens with the nine fixed header bytes.
pub proof fn lemma_header_invariant(lines: Seq<Seq<u8>>)
    requires
        lines.len() > 0,
    ensures
        encode_lines(lines).len() >= 9,
        encode_lines(lines).subrange(0, 9) == header(),
{
    assert(header().len() == 9);
    assert(encode_lines(lines).subrange(0, 9) =~= header());
}

/// Validating the header and then pulling records decodes the same lines as
/// pulling from the already-validated standing.
proof fn lemma_decode_all_after_header(st0: DecState, st9: DecState)
    requires
        !st0.started,
        0 <= st0.pos <= st0.bytes.len(),
        0 <= st9.pos <= st9.bytes.len(),
        parse_header(st0.bytes, st0.pos) == Some((Result::<(), FrError>::Ok(()), st9.pos)),
        st9 == (DecState { pos: st9.pos, started: true, ..st0 }),
    ensures
        decode_all(st0) == decode_all(st9),
{
    assert(next_line_spec(st0) == next_record(st9));
    assert(next_line_spec(st9) == next_record(st9));
}

/// A record whose bytes stand complete at `pos` parses back to the very line
/// it was encoded from, and to the shared-prefix length as the new cursor.
proof fn lemma_parse_record_of_encoded(
    bytes: Seq<u8>,
    pos: int,
    prev: Seq<u8>,
    plen: int,
    l: Seq<u8>,
)
    requires
        valid_utf8(prev),
        valid_utf8(l),
        0 <= plen <= prev.len() <= MAX_LINE_BYTES,
        l.len() <= MAX_LINE_BYTES,
        0 <= pos,
        pos + encode_record(prev, plen, l).len() <= bytes.len(),
        bytes.subrange(pos, pos + encode_record(prev, plen, l).len() as int) == encode_record(
            prev,
            plen,
            l,
        ),
    ensures
        parse_record(bytes, pos, prev, plen) == Some(
            (
                Result::<(Seq<u8>, int), FrError>::Ok((l, common_prefix_bytes(prev, l))),
                pos + encode_record(prev, plen, l).len(),
            ),
        ),
{
    lemma_common_prefix(prev, l);
    let p = common_prefix_bytes(prev, l);
    let off = p - plen;
    let slen = l.len() - p;
    let e1 = enc_int(off);
    let e2 = enc_int(slen);
    let sfx = l.subrange(p, l.len() as int);
    let rec = encode_record(prev, plen, l);
    assert(rec == e1 + e2 + sfx);
    assert(-32767 <= off <= 32767);
    assert(0 <= slen <= 32767);
    let n1 = e1.len() as int;
    let n2 = e2.len() as int;
    let win = bytes.subrange(pos, pos + rec.len() as int);
    assert(bytes.subrange(pos, pos + n1) =~= win.subrange(0, n1));
    assert(win.subrange(0, n1) =~= e1);
    lemma_read_int_of_enc(bytes, pos, off);
    let p1 = pos + n1;
    assert(bytes.subrange(p1, p1 + n2) =~= win.subrange(n1, n1 + n2));
    assert(win.subrange(n1, n1 + n2) =~= e2);
    lemma_read_int_of_enc(bytes, p1, slen);
    let p2 = p1 + n2;
    assert(p2 + slen <= bytes.len());
    assert(bytes.subrange(p2, p2 + slen) =~= win.subrange(n1 + n2, rec.len() as int));
    assert(win.subrange(n1 + n2, rec.len() as int) =~= sfx);
    valid_utf8_split(l, p);
    assert(valid_utf8(sfx));
    assert(plen + off == p);
    assert(prev.subrange(0, p) == l.subrange(0, p));
    assert(prev.subrange(0, p) + sfx =~= l);
}

/// A record cut anywhere before its last byte parses as the end of the
/// stream, never as a line and never as an error.
proof fn lemma_parse_record_truncated(
    bytes: Seq<u8>,
    pos: int,
    prev: Seq<u8>,
    plen: int,
    l: Seq<u8>,
    k: int,
)
    requires
        valid_utf8(prev),
        valid_utf8(l),
        0 <= plen <= prev.len() <= MAX_LINE_BYTES,
        l.len() <= MAX_LINE_BYTES,
        0 <= pos,
        bytes.len() == pos + k,
        0 <= k < encode_record(prev, plen, l).len(),
        bytes.subrange(pos, pos + k) == encode_record(prev, plen, l).subrange(0, k),
    ensures
        parse_record(bytes, pos, prev, plen) is None,
{
    lemma_common_prefix(prev, l);
    let p = common_prefix_bytes(prev, l);
    let off = p - plen;
    let slen = l.len() - p;
    let e1 = enc_int(off);
    let e2 = enc_int(slen);
    let rec = encode_record(prev, plen, l);
    assert(rec == e1 + e2 + l.subrange(p, l.len() as int));
    assert(-32767 <= off <= 32767);
    assert(0 <= slen <= 32767);
    let n1 = e1.len() as int;
    let n2 = e2.len() as int;
    let win = bytes.subrange(pos, pos + k);
    if k == 0 {
        assert(read_int(bytes, pos) is None);
    } else if k < n1 {
        assert(n1 == 3);
        assert(rec[0] == e1[0]);
        assert(bytes[pos] == win[0]);
        assert(win[0] == rec.subrange(0, k)[0]);
        assert(bytes[pos] == ESCAPE);
        assert(pos + 3 > bytes.len());
        assert(read_int(bytes, pos) is None);
    } else {
        assert(bytes.subrange(pos, pos + n1) =~= win.subrange(0, n1));
        assert(win.subrange(0, n1) =~= rec.subrange(0, k).subrange(0, n1));
        assert(rec.subrange(0, k).subrange(0, n1) =~= e1);
        lemma_read_int_of_enc(bytes, pos, off);
        let p1 = pos + n1;
        if k == n1 {
            assert(p1 >= bytes.len());
            assert(read_int(bytes, p1) is None);
        } else if k < n1 + n2 {
            assert(n2 == 3);
            assert(rec[n1] == e2[0]);
            assert(bytes[p1] == win[n1]);
            assert(win[n1] == rec.subrange(0, k)[n1]);
            assert(bytes[p1] == ESCAPE);
            assert(p1 + 3 > bytes.len());
            assert(read_int(bytes, p1) is None);
        } else {
            assert(bytes.subrange(p1, p1 + n2) =~= win.subrange(n1, n1 + n2));
            assert(win.subrange(n1, n1 + n2) =~= rec.subrange(0, k).subrange(n1, n1 + n2));
            assert(rec.subrange(0, k).subrange(n1, n1 + n2) =~= e2);
            lemma_read_int_of_enc(bytes, p1, slen);
            let p2 = p1 + n2;
            assert(p2 + slen > bytes.len());
        }
    }
}

/// Decoding the records of `lines`, appended to any already-consumed prefix,
/// from the matching cursor yields exactly `lines` and ends cleanly.
proof fn lemma_decode_of_records(pre: Seq<u8>, lines: Seq<Seq<u8>>, prev: Seq<u8>, plen: int)
    requires
        encodable(lines),
        valid_utf8(prev),
        0 <= plen <= prev.len() <= MAX_LINE_BYTES,
    ensures
        ({
            let bytes = pre + encode_records(lines, prev, plen);
            decode_all(
                DecState {
                    bytes,
                    pos: pre.len() as int,
                    started: true,
                    prev,
                    prev_prefix_len: plen,
                },
            ) == (lines, Option::<FrError>::None)
        }),
    decreases lines.len(),
{
    let bytes = pre + encode_records(lines, prev, plen);
    let st = DecState {
        bytes,
        pos: pre.len() as int,
        started: true,
        prev,
        prev_prefix_len: plen,
    };
    if lines.len() == 0 {
        assert(bytes =~= pre);
        assert(st.pos == bytes.len());
        assert(read_int(bytes, st.pos) is None);
        assert(decode_all(st).0 =~= Seq::<Seq<u8>>::empty());
    } else {
        let l = lines[0];
        let rest_lines = lines.subrange(1, lines.len() as int);
        lemma_common_prefix(prev, l);
        let p = common_prefix_bytes(prev, l);
        let rec = encode_record(prev, plen, l);
        let rest = encode_records(rest_lines, l, p);
        assert(bytes =~= (pre + rec) + rest);
        let pos = pre.len() as int;
        assert(bytes.subrange(pos, pos + rec.len() as int) =~= rec);
        lemma_parse_record_of_encoded(bytes, pos, prev, plen, l);
        let st1 = DecState { pos: pos + rec.len() as int, prev: l, prev_prefix_len: p, ..st };
        assert(next_line_spec(st) == (Some(Result::<Seq<u8>, FrError>::Ok(l)), st1));
        assert(forall|i: int|
            0 <= i < rest_lines.len() ==> #[trigger] rest_lines[i] == lines[i + 1]);
        assert(encodable(rest_lines));
        lemma_decode_of_records(pre + rec, rest_lines, l, p);
        let bytes2 = (pre + rec) + encode_records(rest_lines, l, p);
        assert(bytes2 =~= bytes);
        let st2 = DecState {
            bytes: bytes2,
            pos: (pre + rec).len() as int,
            started: true,
            prev: l,
            prev_prefix_len: p,
        };
        assert(st2 == st1);
        assert(decode_all(st1) == (rest_lines, Option::<FrError>::None));
        assert(decode_all(st).0 == seq![l] + rest_lines);
        assert(seq![l] + rest_lines =~= lines);
    }
}

/// How many whole records fit in the first `k` bytes of the records of
/// `lines`, encoded from the cursor (`prev`, `plen`).
pub open spec fn records_within(lines: Seq<Seq<u8>>, prev: Seq<u8>, plen: int, k: int) -> int
    decreases lines.len(),
{
    if lines.len() == 0 {
        0
    } else {
        let r = encode_record(prev, plen, lines[0]).len() as int;
        if k >= r {
            1 + records_within(
                lines.subrange(1, lines.len() as int),
                lines[0],
                common_prefix_bytes(prev, lines[0]),
                k - r,
            )
        } else {
            0
        }
    }
}

/// How many whole records of the database for `lines` lie before a cut at
/// byte `k`: none while the cut falls inside the header.
pub open spec fn complete_records(lines: Seq<Seq<u8>>, k: int) -> int {
    if lines.len() == 0 || k < 9 {
        0
    } else {
        records_within(lines, Seq::empty(), 0, k - 9)
    }
}

/// Decoding records cut off at an arbitrary byte yields exactly the lines
/// whose records lie wholly before the cut, and ends cleanly: a record the
/// cut falls inside counts as the end of the stream, not as an error.
#[verifier::rlimit(60)]
proof fn lemma_decode_of_records_truncated(
    pre: Seq<u8>,
    lines: Seq<Seq<u8>>,
    prev: Seq<u8>,
    plen: int,
    k: int,
)
    requires
        encodable(lines),
        valid_utf8(prev),
        0 <= plen <= prev.len() <= MAX_LINE_BYTES,
        0 <= k <= encode_records(lines, prev, plen).len(),
    ensures
        ({
            let bytes = pre + encode_records(lines, prev, plen).subrange(0, k);
            let m = records_within(lines, prev, plen, k);
            0 <= m <= lines.len() && decode_all(
                DecState {
                    bytes,
                    pos: pre.len() as int,
                    started: true,
                    prev,
                    prev_prefix_len: plen,
                },
            ) == (lines.subrange(0, m), Option::<FrError>::None)
        }),
    decreases lines.len(),
{
    let recs = encode_records(lines, prev, plen);
    let bytes = pre + recs.subrange(0, k);
    let st = DecState {
        bytes,
        pos: pre.len() as int,
        started: true,
        prev,
        prev_prefix_len: plen,
    };
    let pos = pre.len() as int;
    if lines.len() == 0 {
        assert(bytes =~= pre);
        assert(read_int(bytes, pos) is None);
        assert(lines.subrange(0, 0) =~= Seq::<Seq<u8>>::empty());
        assert(0 <= 0 <= lines.len() && decode_all(st) == (
            lines.subrange(0, 0),
            Option::<FrError>::None,
        ));
    } else {
        let l = lines[0];
        lemma_common_prefix(prev, l);
        let p = common_prefix_bytes(prev, l);
        let rec = encode_record(prev, plen, l);
        let rest_lines = lines.subrange(1, lines.len() as int);
        let rest = encode_records(rest_lines, l, p);
        assert(recs == rec + rest);
        let r_len = rec.len() as int;
        if k >= r_len {
            // the first record lies wholly before the cut and parses as in
            // the untruncated stream
            assert(bytes =~= (pre + rec) + rest.subrange(0, k - r_len));
            assert(bytes.subrange(pos, pos + r_len) =~= rec);
            lemma_parse_record_of_encoded(bytes, pos, prev, plen, l);
            let st1 = DecState { pos: pos + r_len, prev: l, prev_prefix_len: p, ..st };
            assert(next_line_spec(st) == (Some(Result::<Seq<u8>, FrError>::Ok(l)), st1));
            assert(forall|i: int|
                0 <= i < rest_lines.len() ==> #[trigger] rest_lines[i] == lines[i + 1]);
            assert(encodable(rest_lines));
            lemma_decode_of_records_truncated(pre + rec, rest_lines, l, p, k - r_len);
            let bytes2 = (pre + rec) + rest.subrange(0, k - r_len);
            assert(bytes2 =~= bytes);
            let st2 = DecState {
                bytes: bytes2,
                pos: (pre + rec).len() as int,
                started: true,
                prev: l,
                prev_prefix_len: p,
            };
            assert(st2 == st1);
            let m1 = records_within(rest_lines, l, p, k - r_len);
            assert(decode_all(st2) == (rest_lines.subrange(0, m1), Option::<FrError>::None));
            assert(records_within(lines, prev, plen, k) == 1 + m1);
            assert(decode_all(st).0 == seq![l] + rest_lines.subrange(0, m1));
            assert(seq![l] + rest_lines.subrange(0, m1) =~= lines.subrange(0, m1 + 1));
        } else {
            // the cut falls inside the first record: the pull ends the stream
            assert(bytes.len() == pos + k);
            assert(bytes.subrange(pos, pos + k) =~= rec.subrange(0, k)) by {
                assert(forall|j: int|
                    0 <= j < k ==> bytes.subrange(pos, pos + k)[j] == recs.subrange(0, k)[j]);
                assert(forall|j: int|
                    0 <= j < k ==> recs.subrange(0, k)[j] == #[trigger] rec.subrange(0, k)[j]);
            }
            lemma_parse_record_truncated(bytes, pos, prev, plen, l, k);
            assert(records_within(lines, prev, plen, k) == 0);
            assert(lines.subrange(0, 0) =~= Seq::<Seq<u8>>::empty());
            assert(decode_all(st) == (lines.subrange(0, 0), Option::<FrError>::None));
        }
    }
}

/// The truncation-tolerance law: a database cut off at any byte decodes to
/// exactly the lines whose records lie wholly before the cut, and then
/// simply ends, with no error.
pub proof fn lemma_truncation_tolerance(lines: Seq<Seq<u8>>, k: int)
    requires
        encodable(lines),
        0 <= k <= encode_lines(lines).len(),
    ensures
        ({
            let cut = encode_lines(lines).subrange(0, k);
            let m = complete_records(lines, k);
            0 <= m <= lines.len() && decode_all(dec_init(cut)) == (
                lines.subrange(0, m),
                Option::<FrError>::None,
            )
        }),
{
    let full = encode_lines(lines);
    let cut = full.subrange(0, k);
    let st0 = dec_init(cut);
    assert(lines.subrange(0, 0) =~= Seq::<Seq<u8>>::empty());
    if lines.len() == 0 {
        assert(cut.len() == 0);
        assert(parse_header(cut, 0) is None);
        assert(decode_all(st0) == (lines.subrange(0, 0), Option::<FrError>::None));
    } else {
        let records = encode_records(lines, Seq::empty(), 0);
        assert(full == header() + records);
        assert(forall|j: int| 0 <= j < k ==> cut[j] == full[j]);
        if k == 0 {
            assert(parse_header(cut, 0) is None);
            assert(decode_all(st0) == (lines.subrange(0, 0), Option::<FrError>::None));
        } else if k == 1 {
            assert(read_int(cut, 1) is None);
            assert(parse_header(cut, 0) is None);
            assert(decode_all(st0) == (lines.subrange(0, 0), Option::<FrError>::None));
        } else if k < 9 {
            assert(cut[1] == 7u8);
            assert(read_int(cut, 1) == Some((7int, 2int)));
            assert(2 + 7 > cut.len());
            assert(parse_header(cut, 0) is None);
            assert(decode_all(st0) == (lines.subrange(0, 0), Option::<FrError>::None));
        } else {
            assert(cut[1] == 7u8);
            assert(read_int(cut, 1) == Some((7int, 2int)));
            let lab = cut.subrange(2, 9);
            assert(lab =~= label());
            lemma_label_valid();
            assert(parse_header(cut, 0) == Some((Result::<(), FrError>::Ok(()), 9int)));
            let st9 = DecState { pos: 9, started: true, ..st0 };
            lemma_decode_all_after_header(st0, st9);
            lemma_decode_of_records_truncated(header(), lines, Seq::empty(), 0, k - 9);
            let bytes2 = header() + records.subrange(0, k - 9);
            assert(bytes2 =~= cut);
            let st9b = DecState {
                bytes: bytes2,
                pos: header().len() as int,
                started: true,
                prev: Seq::empty(),
                prev_prefix_len: 0,
            };
            assert(st9b == st9);
            let m = records_within(lines, Seq::empty(), 0, k - 9);
            assert(complete_records(lines, k) == m);
            assert(decode_all(st9b) == (lines.subrange(0, m), Option::<FrError>::None));
            assert(decode_all(st0) == (lines.subrange(0, m), Option::<FrError>::None));
        }
    }
}

/// The round-trip law: decoding an encoded sequence of acceptable lines
/// yields exactly those lines, in order, with no error.
pub proof fn lemma_round_trip(lines: Seq<Seq<u8>>)
    requires
        encodable(lines),
    ensures
        decode_all(dec_init(encode_lines(lines))) == (lines, Option::<FrError>::None),
{
    let bytes = encode_lines(lines);
    let st0 = dec_init(bytes);
    if lines.len() == 0 {
        assert(bytes.len() == 0);
        assert(parse_header(bytes, 0) is None);
        assert(decode_all(st0).0 =~= Seq::<Seq<u8>>::empty());
        assert(decode_all(st0).0 =~= lines);
    } else {
        let records = encode_records(lines, Seq::empty(), 0);
        assert(bytes == header() + records);
        assert(bytes.len() >= 9);
        assert(bytes[0] == 0u8 && bytes[1] == 7u8);
        assert(read_int(bytes, 1) == Some((7int, 2int)));
        let lab = bytes.subrange(2, 9);
        assert(lab =~= label());
        lemma_label_valid();
        assert(parse_header(bytes, 0) == Some((Result::<(), FrError>::Ok(()), 9int)));
        let st9 = DecState { pos: 9, started: true, ..st0 };
        lemma_decode_all_after_header(st0, st9);
        lemma_decode_of_records(header(), lines, Seq::empty(), 0);
        let bytes2 = header() + records;
        let st9b = DecState {
            bytes: bytes2,
            pos: header().len() as int,
            started: true,
            prev: Seq::empty(),
            prev_prefix_len: 0,
        };
        assert(st9b == st9);
        assert(decode_all(st9) == (lines, Option::<FrError>::None));
    }
}

} // verus!
