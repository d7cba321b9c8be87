//! Byte-string groundwork for the codec: an executable UTF-8 validity check,
//! the shared-prefix rule of the format (scalar by scalar, measured in UTF-8
//! bytes), and small byte-vector helpers.

use vstd::prelude::*;
use vstd::utf8::*;

verus! {

/// Copies `v[start..end]` into a fresh vector.
pub fn copy_range(v: &Vec<u8>, start: usize, end: usize) -> (r: Vec<u8>)
    requires
        start <= end <= v@.len(),
    ensures
        r@ == v@.subrange(start as int, end as int),
{
    let mut r: Vec<u8> = Vec::new();
    let mut i: usize = start;
    while i < end
        invariant
            start <= i <= end <= v@.len(),
            r@ == v@.subrange(start as int, i as int),
        decreases end - i,
    {
        r.push(v[i]);
        i = i + 1;
        assert(r@ =~= v@.subrange(start as int, i as int));
    }
    r
}

/// Whether two byte vectors hold the same bytes.
pub fn bytes_eq(a: &Vec<u8>, b: &Vec<u8>) -> (r: bool)
    ensures
        r == (a@ == b@),
{
    if a.len() != b.len() {
        return false;
    }
    let n = a.len();
    let mut i: usize = 0;
    while i < n
        invariant
            i <= n,
            n == a@.len() == b@.len(),
            forall|j: int| 0 <= j < i ==> a@[j] == b@[j],
        decreases n - i,
    {
        if a[i] != b[i] {
            return false;
        }
        i = i + 1;
    }
    assert(a@ =~= b@);
    true
}

/// The byte width of the scalar encoding that starts with lead byte `b0`,
/// going by the lead byte's bit pattern alone.
pub fn scalar_width(b0: u8) -> (w: usize)
    ensures
        is_leading_byte_width_1(b0) ==> w == 1,
        is_leading_byte_width_2(b0) ==> w == 2,
        is_leading_byte_width_3(b0) ==> w == 3,
        is_leading_byte_width_4(b0) ==> w == 4,
{
    if b0 < 0x80 {
        1
    } else if b0 < 0xc0 {
        0
    } else if b0 < 0xe0 {
        2
    } else if b0 < 0xf0 {
        3
    } else if b0 < 0xf8 {
        4
    } else {
        0
    }
}

proof fn lemma_cp1_value(b0: u8)
    by (bit_vector)
    requires
        b0 < 0x80,
    ensures
        (b0 & 0x7f) == b0,
{
}

proof fn lemma_cp2_bound(b0: u8, b1: u8)
    by (bit_vector)
    ensures
        ((((b0 & 0x1f) as u32) << 6u32) | ((b1 & 0x3f) as u32)) <= 0x7ff,
{
}

/// How far from the front `bytes` reads as well-formed UTF-8: the byte
/// length of the longest leading run of whole, well-formed scalar
/// encodings. The whole sequence is well-formed exactly when every byte is
/// in that run.
pub open spec fn utf8_valid_up_to(s: Seq<u8>) -> int
    decreases s.len(),
{
    if s.len() == 0 || !valid_first_scalar(s) {
        0
    } else {
        length_of_first_scalar(s) + utf8_valid_up_to(pop_first_scalar(s))
    }
}

/// Scans `bytes` from the front and reports where well-formed UTF-8 ends.
pub fn utf8_valid_prefix(v: &Vec<u8>) -> (r: usize)
    ensures
        r as int == utf8_valid_up_to(v@),
        (r == v@.len()) == valid_utf8(v@),
{
    let n = v.len();
    let mut i: usize = 0;
    assert(v@.skip(0) =~= v@);
    while i < n
        invariant
            i <= n,
            n == v@.len(),
            valid_utf8(v@) <==> valid_utf8(v@.skip(i as int)),
            utf8_valid_up_to(v@) == i + utf8_valid_up_to(v@.skip(i as int)),
        decreases n - i,
    {
        let ghost s = v@.skip(i as int);
        assert(s.len() == n - i);
        let b0 = v[i];
        assert(s[0] == b0);
        if b0 < 0x80 {
            proof {
                lemma_cp1_value(b0);
                assert(valid_first_scalar(s));
                assert(length_of_first_scalar(s) == 1);
                assert(pop_first_scalar(s) =~= v@.skip(i as int + 1));
            }
            i = i + 1;
        } else if b0 < 0xc0 {
            proof {
                assert(!valid_leading_and_continuation_bytes_first_codepoint(s));
                assert(!valid_utf8(s));
                assert(!valid_first_scalar(s));
                assert(utf8_valid_up_to(s) == 0);
            }
            return i;
        } else if b0 < 0xe0 {
            if n - i < 2 {
                proof {
                    assert(!valid_leading_and_continuation_bytes_first_codepoint(s));
                    assert(!valid_utf8(s));
                    assert(!valid_first_scalar(s));
                    assert(utf8_valid_up_to(s) == 0);
                }
                return i;
            }
            let b1 = v[i + 1];
            assert(s[1] == b1);
            if !(0x80 <= b1 && b1 <= 0xbf) {
                proof {
                    assert(!valid_leading_and_continuation_bytes_first_codepoint(s));
                    assert(!valid_utf8(s));
                    assert(!valid_first_scalar(s));
                    assert(utf8_valid_up_to(s) == 0);
                }
                return i;
            }
            let cp: u32 = (((b0 & 0x1f) as u32) << 6u32) | ((b1 & 0x3f) as u32);
            assert(cp == decode_first_codepoint(s));
            assert(length_of_first_codepoint(s) == 2);
            if cp < 0x80 {
                proof {
                    assert(!not_overlong_encoding(decode_first_codepoint(s), 2));
                    assert(!valid_first_scalar(s));
                    assert(!valid_utf8(s));
                    assert(!valid_first_scalar(s));
                    assert(utf8_valid_up_to(s) == 0);
                }
                return i;
            }
            proof {
                lemma_cp2_bound(b0, b1);
                assert(not_surrogate(decode_first_codepoint(s)));
                assert(valid_first_scalar(s));
                assert(pop_first_scalar(s) =~= v@.skip(i as int + 2));
            }
            i = i + 2;
        } else if b0 < 0xf0 {
            if n - i < 3 {
                proof {
                    assert(!valid_leading_and_continuation_bytes_first_codepoint(s));
                    assert(!valid_utf8(s));
                    assert(!valid_first_scalar(s));
                    assert(utf8_valid_up_to(s) == 0);
                }
                return i;
            }
            let b1 = v[i + 1];
            let b2 = v[i + 2];
            assert(s[1] == b1 && s[2] == b2);
            if !(0x80 <= b1 && b1 <= 0xbf) || !(0x80 <= b2 && b2 <= 0xbf) {
                proof {
                    assert(!valid_leading_and_continuation_bytes_first_codepoint(s));
                    assert(!valid_utf8(s));
                    assert(!valid_first_scalar(s));
                    assert(utf8_valid_up_to(s) == 0);
                }
                return i;
            }
            let cp: u32 = (((b0 & 0x0f) as u32) << 12u32) | (((b1 & 0x3f) as u32) << 6u32) | ((b2
                & 0x3f) as u32);
            assert(cp == decode_first_codepoint(s));
            assert(length_of_first_codepoint(s) == 3);
            if cp < 0x800 {
                proof {
                    assert(!not_overlong_encoding(decode_first_codepoint(s), 3));
                    assert(!valid_first_scalar(s));
                    assert(!valid_utf8(s));
                    assert(!valid_first_scalar(s));
                    assert(utf8_valid_up_to(s) == 0);
                }
                return i;
            }
            if 0xd800 <= cp && cp <= 0xdfff {
                proof {
                    assert(!not_surrogate(decode_first_codepoint(s)));
                    assert(!valid_first_scalar(s));
                    assert(!valid_utf8(s));
                    assert(!valid_first_scalar(s));
                    assert(utf8_valid_up_to(s) == 0);
                }
                return i;
            }
            proof {
                assert(valid_first_scalar(s));
                assert(pop_first_scalar(s) =~= v@.skip(i as int + 3));
            }
            i = i + 3;
        } else if b0 < 0xf8 {
            if n - i < 4 {
                proof {
                    assert(!valid_leading_and_continuation_bytes_first_codepoint(s));
                    assert(!valid_utf8(s));
                    assert(!valid_first_scalar(s));
                    assert(utf8_valid_up_to(s) == 0);
                }
                return i;
            }
            let b1 = v[i + 1];
            let b2 = v[i + 2];
            let b3 = v[i + 3];
            assert(s[1] == b1 && s[2] == b2 && s[3] == b3);
            if !(0x80 <= b1 && b1 <= 0xbf) || !(0x80 <= b2 && b2 <= 0xbf) || !(0x80 <= b3 && b3
                <= 0xbf) {
                proof {
                    assert(!valid_leading_and_continuation_bytes_first_codepoint(s));
                    assert(!valid_utf8(s));
                    assert(!valid_first_scalar(s));
                    assert(utf8_valid_up_to(s) == 0);
                }
                return i;
            }
            let cp: u32 = (((b0 & 0x07) as u32) << 18u32) | (((b1 & 0x3f) as u32) << 12u32) | (((b2
                & 0x3f) as u32) << 6u32) | ((b3 & 0x3f) as u32);
            assert(cp == decode_first_codepoint(s));
            assert(length_of_first_codepoint(s) == 4);
            if !(0x10000 <= cp && cp <= 0x10ffff) {
                proof {
                    assert(!not_overlong_encoding(decode_first_codepoint(s), 4));
                    assert(!valid_first_scalar(s));
                    assert(!valid_utf8(s));
                    assert(!valid_first_scalar(s));
                    assert(utf8_valid_up_to(s) == 0);
                }
                return i;
            }
            proof {
                assert(not_surrogate(decode_first_codepoint(s)));
                assert(valid_first_scalar(s));
                assert(pop_first_scalar(s) =~= v@.skip(i as int + 4));
            }
            i = i + 4;
        } else {
            proof {
                assert(!valid_leading_and_continuation_bytes_first_codepoint(s));
                assert(!valid_utf8(s));
                assert(!valid_first_scalar(s));
                assert(utf8_valid_up_to(s) == 0);
            }
            return i;
        }
    }
    assert(v@.skip(n as int) =~= Seq::<u8>::empty());
    n
}

/// Whether `bytes` is a well-formed UTF-8 encoding, decided byte by byte.
pub fn check_utf8(v: &Vec<u8>) -> (r: bool)
    ensures
        r == valid_utf8(v@),
{
    let p = utf8_valid_prefix(v);
    p == v.len()
}

/// The shared-prefix byte length of two lines: scalars are compared from the
/// start, and the byte widths of the matching leading scalars are summed. A
/// scalar is never split, so the result always lies on a boundary of both.
pub open spec fn common_prefix_bytes(a: Seq<u8>, b: Seq<u8>) -> int
    recommends
        valid_utf8(a),
        valid_utf8(b),
    decreases a.len(),
{
    if a.len() == 0 || b.len() == 0 || !valid_first_scalar(a) {
        0
    } else {
        let w = length_of_first_scalar(a);
        if w <= b.len() && a.subrange(0, w) == b.subrange(0, w) {
            w + common_prefix_bytes(a.subrange(w, a.len() as int), b.subrange(w, b.len() as int))
        } else {
            0
        }
    }
}

/// The shared prefix is a prefix of both lines, the bytes agree on it, and it
/// ends on a character boundary of both: a multi-byte scalar is never split.
pub proof fn lemma_common_prefix(a: Seq<u8>, b: Seq<u8>)
    requires
        valid_utf8(a),
        valid_utf8(b),
    ensures
        0 <= common_prefix_bytes(a, b) <= a.len(),
        common_prefix_bytes(a, b) <= b.len(),
        a.subrange(0, common_prefix_bytes(a, b)) == b.subrange(0, common_prefix_bytes(a, b)),
        is_char_boundary(a, common_prefix_bytes(a, b)),
        is_char_boundary(b, common_prefix_bytes(a, b)),
    decreases a.len(),
{
    let p = common_prefix_bytes(a, b);
    if a.len() == 0 || b.len() == 0 || !valid_first_scalar(a) {
        assert(p == 0);
        assert(a.subrange(0, 0) =~= b.subrange(0, 0));
    } else {
        let w = length_of_first_scalar(a);
        assert(1 <= w <= a.len());
        if w <= b.len() && a.subrange(0, w) == b.subrange(0, w) {
            let a1 = a.subrange(w, a.len() as int);
            let b1 = b.subrange(w, b.len() as int);
            assert(b[0] == a.subrange(0, w)[0]);
            assert(length_of_first_codepoint(b) == w);
            assert(valid_first_scalar(b));
            assert(pop_first_scalar(a) =~= a1);
            assert(pop_first_scalar(b) =~= b1);
            assert(valid_utf8(a1));
            assert(valid_utf8(b1));
            lemma_common_prefix(a1, b1);
            let p1 = common_prefix_bytes(a1, b1);
            assert(p == w + p1);
            assert forall|j: int| 0 <= j < p implies a[j] == b[j] by {
                if j < w {
                    assert(a.subrange(0, w)[j] == b.subrange(0, w)[j]);
                } else {
                    assert(a1.subrange(0, p1) == b1.subrange(0, p1));
                    assert(a1.subrange(0, p1)[j - w] == b1.subrange(0, p1)[j - w]);
                }
            }
            assert(a.subrange(0, p) =~= b.subrange(0, p));
            assert(is_char_boundary(a, p));
            assert(is_char_boundary(b, p));
        } else {
            assert(p == 0);
            assert(a.subrange(0, 0) =~= b.subrange(0, 0));
        }
    }
}

/// Computes the shared-prefix byte length of two well-formed lines.
pub fn common_prefix(a: &Vec<u8>, b: &Vec<u8>) -> (p: usize)
    requires
        valid_utf8(a@),
        valid_utf8(b@),
    ensures
        p as int == common_prefix_bytes(a@, b@),
{
    let alen = a.len();
    let blen = b.len();
    let mut i: usize = 0;
    assert(a@.skip(0) =~= a@);
    assert(b@.skip(0) =~= b@);
    loop
        invariant
            i <= alen,
            i <= blen,
            alen == a@.len(),
            blen == b@.len(),
            valid_utf8(a@.skip(i as int)),
            valid_utf8(b@.skip(i as int)),
            common_prefix_bytes(a@, b@) == i + common_prefix_bytes(
                a@.skip(i as int),
                b@.skip(i as int),
            ),
        decreases alen - i,
    {
        let ghost sa = a@.skip(i as int);
        let ghost sb = b@.skip(i as int);
        if i == alen || i == blen {
            assert(sa.len() == 0 || sb.len() == 0);
            assert(common_prefix_bytes(sa, sb) == 0);
            return i;
        }
        assert(sa[0] == a@[i as int] && sb[0] == b@[i as int]);
        if a[i] != b[i] {
            proof {
                if valid_first_scalar(sa) {
                    let w = length_of_first_scalar(sa);
                    if w <= sb.len() {
                        assert(sa.subrange(0, w)[0] == sa[0]);
                        assert(sb.subrange(0, w)[0] == sb[0]);
                        assert(sa.subrange(0, w) != sb.subrange(0, w));
                    }
                }
                assert(common_prefix_bytes(sa, sb) == 0);
            }
            return i;
        }
        assert(valid_first_scalar(sa));
        assert(valid_first_scalar(sb));
        let w = scalar_width(a[i]);
        assert(w == length_of_first_scalar(sa));
        assert(w == length_of_first_scalar(sb));
        assert(1 <= w && w as int <= sa.len() && w as int <= sb.len());
        let mut j: usize = 1;
        let mut same: bool = true;
        while j < w
            invariant
                1 <= j <= w,
                i + w <= alen,
                i + w <= blen,
                alen == a@.len(),
                blen == b@.len(),
                sa == a@.skip(i as int),
                sb == b@.skip(i as int),
                same <==> (forall|k: int| 0 <= k < j ==> sa[k] == sb[k]),
            decreases w - j,
        {
            if a[i + j] != b[i + j] {
                assert(sa[j as int] != sb[j as int]);
                same = false;
            }
            j = j + 1;
        }
        if !same {
            proof {
                let k = choose|k: int| 0 <= k < w && sa[k] != sb[k];
                assert(sa.subrange(0, w as int)[k] != sb.subrange(0, w as int)[k]);
                assert(sa.subrange(0, w as int) != sb.subrange(0, w as int));
                assert(common_prefix_bytes(sa, sb) == 0);
            }
            return i;
        }
        proof {
            assert(sa.subrange(0, w as int) =~= sb.subrange(0, w as int));
            assert(pop_first_scalar(sa) =~= a@.skip(i as int + w));
            assert(pop_first_scalar(sb) =~= b@.skip(i as int + w));
            assert(sa.subrange(w as int, sa.len() as int) =~= a@.skip(i as int + w));
            assert(sb.subrange(w as int, sb.len() as int) =~= b@.skip(i as int + w));
            assert(common_prefix_bytes(sa, sb) == w + common_prefix_bytes(
                a@.skip(i as int + w),
                b@.skip(i as int + w),
            ));
        }
        i = i + w;
    }
}

/// A single ASCII byte is a well-formed sequence of its own.
pub proof fn lemma_ascii_seq_valid(b: u8)
    requires
        b < 0x80,
    ensures
        valid_utf8(seq![b]),
{
    lemma_cp1_value(b);
    let s = seq![b];
    assert(is_leading_byte_width_1(s[0]));
    assert(decode_first_codepoint(s) == b as u32);
    assert(valid_first_scalar(s));
    assert(length_of_first_scalar(s) == 1);
    assert(pop_first_scalar(s) =~= Seq::<u8>::empty());
    assert(valid_utf8(Seq::<u8>::empty()));
}

/// Around an ASCII byte of a well-formed sequence both sides are boundaries.
pub proof fn lemma_ascii_boundary(s: Seq<u8>, i: int)
    requires
        valid_utf8(s),
        0 <= i < s.len(),
        s[i] < 0x80,
    ensures
        is_char_boundary(s, i),
        is_char_boundary(s, i + 1),
{
    is_char_boundary_iff_not_is_continuation_byte(s, i);
    assert(is_char_boundary(s, i));
    valid_utf8_split(s, i);
    let t = s.subrange(i, s.len() as int);
    assert(t[0] == s[i]);
    assert(valid_utf8(t));
    assert(valid_first_scalar(t));
    assert(length_of_first_scalar(t) == 1);
    if i + 1 == s.len() {
        is_char_boundary_start_end_of_seq(s);
    } else {
        let t1 = pop_first_scalar(t);
        assert(valid_utf8(t1));
        assert(t1 =~= s.subrange(i + 1, s.len() as int));
        assert(t1.len() > 0);
        assert(valid_first_scalar(t1));
        assert(t1[0] == s[i + 1]);
        assert(!is_continuation_byte(s[i + 1]));
        is_char_boundary_iff_not_is_continuation_byte(s, i + 1);
    }
}

} // verus!
