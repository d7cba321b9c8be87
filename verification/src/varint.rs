//! The variable-width signed integer fields of the database format.
//!
//! A field value that lies strictly between -128 and 128 is stored as a
//! single byte holding its two's-complement form. Any other value is stored
//! as the escape byte 0x80 followed by the value as a signed 16-bit
//! big-endian integer. The byte 0x80 can therefore never stand alone: it is
//! the one-byte pattern of -128, which is always written in escaped form.

use vstd::prelude::*;

verus! {

/// The escape byte that announces a two-byte big-endian field.
pub const ESCAPE: u8 = 0x80;

/// The value of one byte read as a signed 8-bit integer.
pub open spec fn i8_val(b: u8) -> int {
    if b < 128 {
        b as int
    } else {
        b - 256
    }
}

/// The value of two big-endian bytes read as a signed 16-bit integer.
pub open spec fn i16_val(hi: u8, lo: u8) -> int {
    let u = hi * 256 + lo;
    if u < 32768 {
        u as int
    } else {
        u - 65536
    }
}

/// The encoded form of an integer field.
pub open spec fn enc_int(v: int) -> Seq<u8>
    recommends
        -32768 <= v <= 32767,
{
    if -128 < v && v < 128 {
        if v >= 0 {
            seq![v as u8]
        } else {
            seq![(v + 256) as u8]
        }
    } else {
        let u = if v >= 0 {
            v
        } else {
            v + 65536
        };
        seq![ESCAPE, (u / 256) as u8, (u % 256) as u8]
    }
}

/// Reads one integer field from `bytes` at `pos`: the value and the position
/// after the field. `None` when the stream ends before the field is complete.
pub open spec fn read_int(bytes: Seq<u8>, pos: int) -> Option<(int, int)>
    recommends
        0 <= pos <= bytes.len(),
{
    if pos >= bytes.len() {
        None
    } else if bytes[pos] != ESCAPE {
        Some((i8_val(bytes[pos]), pos + 1))
    } else if pos + 3 <= bytes.len() {
        Some((i16_val(bytes[pos + 1], bytes[pos + 2]), pos + 3))
    } else {
        None
    }
}

/// Appends the encoded form of `v` to `out`.
pub fn write_int(out: &mut Vec<u8>, v: i32)
    requires
        -32768 <= v <= 32767,
        old(out)@.len() + 3 <= usize::MAX,
    ensures
        final(out)@ == old(out)@ + enc_int(v as int),
{
    if -128 < v && v < 128 {
        let b: u8 = if v >= 0 {
            v as u8
        } else {
            (v + 256) as u8
        };
        out.push(b);
        assert(final(out)@ =~= old(out)@ + enc_int(v as int));
    } else {
        let u: u32 = if v >= 0 {
            v as u32
        } else {
            (v + 65536) as u32
        };
        out.push(ESCAPE);
        out.push((u / 256) as u8);
        out.push((u % 256) as u8);
        assert(final(out)@ =~= old(out)@ + enc_int(v as int));
    }
}

/// Reads one integer field from `bytes` at `pos`, exactly as `read_int` says.
pub fn read_int_at(bytes: &Vec<u8>, pos: usize) -> (r: Option<(i32, usize)>)
    requires
        pos <= bytes@.len(),
    ensures
        r is None <==> read_int(bytes@, pos as int) is None,
        r matches Some(t) ==> read_int(bytes@, pos as int) == Some((t.0 as int, t.1 as int)),
        r matches Some(t) ==> -32768 <= t.0 <= 32767 && pos < t.1 <= bytes@.len(),
{
    if pos >= bytes.len() {
        return None;
    }
    let b0 = bytes[pos];
    if b0 != ESCAPE {
        let v: i32 = if b0 < 128 {
            b0 as i32
        } else {
            b0 as i32 - 256
        };
        Some((v, pos + 1))
    } else if bytes.len() - pos >= 3 {
        let hi = bytes[pos + 1];
        let lo = bytes[pos + 2];
        let u: i32 = hi as i32 * 256 + lo as i32;
        let v: i32 = if u < 32768 {
            u
        } else {
            u - 65536
        };
        Some((v, pos + 3))
    } else {
        None
    }
}

/// Reading an encoded field back from anywhere inside a longer stream yields
/// the value that was written, and consumes exactly the field's bytes.
pub proof fn lemma_read_int_of_enc(s: Seq<u8>, pos: int, v: int)
    requires
        -32768 <= v <= 32767,
        0 <= pos,
        pos + enc_int(v).len() <= s.len(),
        s.subrange(pos, pos + enc_int(v).len() as int) == enc_int(v),
    ensures
        read_int(s, pos) == Some((v, pos + enc_int(v).len())),
{
    if -128 < v && v < 128 {
        assert(s[pos] == enc_int(v)[0]);
        if v >= 0 {
            assert(s[pos] == v as u8);
            assert(i8_val(s[pos]) == v);
        } else {
            assert(s[pos] == (v + 256) as u8);
            assert(s[pos] > 128);
            assert(i8_val(s[pos]) == v);
        }
        assert(s[pos] != ESCAPE);
    } else {
        let u = if v >= 0 {
            v
        } else {
            v + 65536
        };
        assert(128 <= u <= 65535);
        let hi = (u / 256) as u8;
        let lo = (u % 256) as u8;
        assert(s[pos] == enc_int(v)[0]);
        assert(s[pos + 1] == enc_int(v)[1]);
        assert(s[pos + 2] == enc_int(v)[2]);
        assert(s[pos] == ESCAPE);
        vstd::arithmetic::div_mod::lemma_fundamental_div_mod(u, 256);
        assert(hi * 256 + lo == u);
        assert(i16_val(hi, lo) == v);
        assert(read_int(s, pos) == Some((v, pos + 3)));
    }
}

} // verus!
