//! The differential-prefix codec: the byte grammar of the path database and
//! the encoder that produces it, one record per line.
//!
//! A database is a header record — a zero offset field, a length field of 7,
//! and the seven ASCII bytes of the label — followed by one record per line.
//! Each record holds the signed difference between the line's shared-prefix
//! byte length and the previous one, the byte length of the unshared suffix,
//! and the suffix bytes themselves.

use crate::text::{bytes_eq, common_prefix, common_prefix_bytes, copy_range, lemma_common_prefix,
    utf8_valid_prefix, utf8_valid_up_to};
use crate::varint::{enc_int, read_int, read_int_at, write_int};
use vstd::prelude::*;
use vstd::utf8::{is_char_boundary, is_char_boundary_iff_not_is_continuation_byte,
    is_char_boundary_start_end_of_seq, is_continuation_byte, valid_utf8, valid_utf8_concat,
    valid_utf8_split};

verus! {

/// No line may be longer than this many bytes: lengths are carried in
/// signed 16-bit fields.
pub const MAX_LINE_BYTES: usize = 32767;

/// What can go wrong while encoding or decoding a database.
#[derive(Clone, Copy, Debug, PartialEq, Eq, Structural)]
pub enum FrError {
    /// The header record does not carry the expected label.
    InvalidLabelError,
    /// A line handed to the encoder exceeds the representable length.
    LineTooLongError,
    /// A decoded suffix field is not well-formed UTF-8. Carries the
    /// underlying decoding failure: how many leading bytes of the field
    /// were well-formed before decoding stopped.
    InvalidUtf8Error(usize),
    /// A decoded offset points outside the previous line or into the middle
    /// of a multi-byte scalar.
    InvalidOffsetError,
}

/// The seven label bytes, ASCII for the format's magic word.
pub open spec fn label() -> Seq<u8> {
    seq![76u8, 79u8, 67u8, 65u8, 84u8, 69u8, 87u8]
}

/// The nine header bytes: zero offset, length 7, then the label.
pub open spec fn header() -> Seq<u8> {
    seq![0u8, 7u8] + label()
}

/// The label as a vector.
pub fn label_vec() -> (r: Vec<u8>)
    ensures
        r@ == label(),
{
    let mut r: Vec<u8> = Vec::new();
    r.push(76);
    r.push(79);
    r.push(67);
    r.push(65);
    r.push(84);
    r.push(69);
    r.push(87);
    assert(r@ =~= label());
    r
}

/// The cursor that both sides of the codec carry from record to record: the
/// last line handled and the shared-prefix byte length used for it.
pub struct CodecState {
    pub started: bool,
    pub prev: Seq<u8>,
    pub prev_prefix_len: int,
}

/// The cursor before any line was handled.
pub open spec fn init_state() -> CodecState {
    CodecState { started: false, prev: Seq::empty(), prev_prefix_len: 0 }
}

/// A well-formed cursor: the previous line is UTF-8, and the recorded prefix
/// length lies within it.
pub open spec fn state_wf(s: CodecState) -> bool {
    &&& valid_utf8(s.prev)
    &&& 0 <= s.prev_prefix_len <= s.prev.len()
    &&& s.prev.len() <= MAX_LINE_BYTES
}

/// A line the encoder accepts: well-formed UTF-8 of representable length.
pub open spec fn encodable_line(l: Seq<u8>) -> bool {
    valid_utf8(l) && l.len() <= MAX_LINE_BYTES
}

/// Every line of the sequence is acceptable to the encoder.
pub open spec fn encodable(lines: Seq<Seq<u8>>) -> bool {
    forall|i: int| 0 <= i < lines.len() ==> encodable_line(#[trigger] lines[i])
}

/// The record emitted for `line` when the cursor holds `prev` and `plen`:
/// offset field, suffix-length field, then the unshared suffix bytes.
pub open spec fn encode_record(prev: Seq<u8>, plen: int, line: Seq<u8>) -> Seq<u8> {
    let p = common_prefix_bytes(prev, line);
    enc_int(p - plen) + enc_int(line.len() - p) + line.subrange(p, line.len() as int)
}

/// How one line advances the cursor.
pub open spec fn step_state(s: CodecState, line: Seq<u8>) -> CodecState {
    CodecState {
        started: true,
        prev: line,
        prev_prefix_len: common_prefix_bytes(s.prev, line),
    }
}

/// The cursor after a whole sequence of lines, starting from `s`.
pub open spec fn state_from(s: CodecState, lines: Seq<Seq<u8>>) -> CodecState
    decreases lines.len(),
{
    if lines.len() == 0 {
        s
    } else {
        state_from(step_state(s, lines[0]), lines.subrange(1, lines.len() as int))
    }
}

/// The cursor after a whole sequence of lines, starting fresh.
pub open spec fn state_after(lines: Seq<Seq<u8>>) -> CodecState {
    state_from(init_state(), lines)
}

/// The records of a sequence of lines, chained through the cursor.
pub open spec fn encode_records(lines: Seq<Seq<u8>>, prev: Seq<u8>, plen: int) -> Seq<u8>
    decreases lines.len(),
{
    if lines.len() == 0 {
        Seq::empty()
    } else {
        encode_record(prev, plen, lines[0]) + encode_records(
            lines.subrange(1, lines.len() as int),
            lines[0],
            common_prefix_bytes(prev, lines[0]),
        )
    }
}

/// The full database for a sequence of lines. Nothing at all is emitted for
/// an empty sequence: the header comes with the first line's chunk.
pub open spec fn encode_lines(lines: Seq<Seq<u8>>) -> Seq<u8> {
    if lines.len() == 0 {
        Seq::empty()
    } else {
        header() + encode_records(lines, Seq::empty(), 0)
    }
}

/// The chunk `next_chunk` hands out for `line` under cursor `s`: the record,
/// preceded by the header if no line came before.
pub open spec fn chunk_spec(s: CodecState, line: Seq<u8>) -> Seq<u8> {
    (if s.started {
        Seq::<u8>::empty()
    } else {
        header()
    }) + encode_record(s.prev, s.prev_prefix_len, line)
}

/// The encoder: feeds on lines one by one and hands back the byte chunk of
/// each; concatenating the chunks in order yields the database.
pub struct FrCompress {
    init: bool,
    prec_prefix_len: usize,
    prec: Vec<u8>,
}

impl View for FrCompress {
    type V = CodecState;

    closed spec fn view(&self) -> CodecState {
        CodecState {
            started: self.init,
            prev: self.prec@,
            prev_prefix_len: self.prec_prefix_len as int,
        }
    }
}

impl FrCompress {
    /// A fresh encoder with an empty cursor.
    pub fn new() -> (r: FrCompress)
        ensures
            r@ == init_state(),
            state_wf(r@),
    {
        let r = FrCompress { init: false, prec_prefix_len: 0, prec: Vec::new() };
        proof {
            assert(r@.prev =~= init_state().prev);
        }
        r
    }

    /// Encodes one line: the chunk is the line's record, with the header in
    /// front when this is the first line. A line longer than the format can
    /// represent is refused and leaves the cursor untouched.
    pub fn next_chunk(&mut self, line: &Vec<u8>) -> (r: Result<Vec<u8>, FrError>)
        requires
            valid_utf8(line@),
            state_wf(old(self)@),
        ensures
            state_wf(final(self)@),
            line@.len() > MAX_LINE_BYTES ==> r == Result::<Vec<u8>, FrError>::Err(
                FrError::LineTooLongError,
            ) && final(self)@ == old(self)@,
            line@.len() <= MAX_LINE_BYTES ==> (r matches Ok(chunk) && chunk@ == chunk_spec(
                old(self)@,
                line@,
            ) && final(self)@ == step_state(old(self)@, line@)),
    {
        let line_len = line.len();
        if line_len > MAX_LINE_BYTES {
            return Err(FrError::LineTooLongError);
        }
        let mut out: Vec<u8> = Vec::new();
        if !self.init {
            out.push(0u8);
            out.push(7u8);
            let mut lab = label_vec();
            out.append(&mut lab);
            self.init = true;
            assert(out@ =~= header());
        }
        let ghost out0 = out@;
        assert(out0.len() <= 9);
        let p = common_prefix(&self.prec, line);
        proof {
            lemma_common_prefix(self.prec@, line@);
        }
        let off: i32 = p as i32 - self.prec_prefix_len as i32;
        write_int(&mut out, off);
        let slen = line_len - p;
        write_int(&mut out, slen as i32);
        let ghost out1 = out@;
        let mut k: usize = p;
        assert(out1 =~= out1 + line@.subrange(p as int, p as int));
        while k < line_len
            invariant
                p <= k <= line_len,
                line_len == line@.len(),
                out@ == out1 + line@.subrange(p as int, k as int),
            decreases line_len - k,
        {
            out.push(line[k]);
            k = k + 1;
            assert(out@ =~= out1 + line@.subrange(p as int, k as int));
        }
        self.prec_prefix_len = p;
        self.prec = copy_range(line, 0, line_len);
        proof {
            assert(self.prec@ =~= line@);
            assert(out@ =~= chunk_spec(old(self)@, line@));
        }
        Ok(out)
    }
}

/// `state_from` threads through one more line at the end.
pub proof fn lemma_state_from_snoc(s: CodecState, lines: Seq<Seq<u8>>, l: Seq<u8>)
    ensures
        state_from(s, lines.push(l)) == step_state(state_from(s, lines), l),
    decreases lines.len(),
{
    if lines.len() == 0 {
        assert(lines.push(l)[0] == l);
        assert(lines.push(l).subrange(1, 1) =~= Seq::<Seq<u8>>::empty());
        assert(state_from(step_state(s, l), Seq::<Seq<u8>>::empty()) == step_state(s, l));
        assert(state_from(s, Seq::<Seq<u8>>::empty()) == s);
    } else {
        assert(lines.push(l)[0] == lines[0]);
        assert(lines.push(l).subrange(1, lines.len() as int + 1) =~= lines.subrange(
            1,
            lines.len() as int,
        ).push(l));
        lemma_state_from_snoc(step_state(s, lines[0]), lines.subrange(1, lines.len() as int), l);
        assert(state_from(s, lines.push(l)) == state_from(
            step_state(s, lines[0]),
            lines.subrange(1, lines.len() as int).push(l),
        ));
        assert(state_from(s, lines) == state_from(
            step_state(s, lines[0]),
            lines.subrange(1, lines.len() as int),
        ));
    }
}

/// Once a line has been handled the cursor counts as started.
pub proof fn lemma_state_from_started(s: CodecState, lines: Seq<Seq<u8>>)
    ensures
        state_from(s, lines).started == (s.started || lines.len() > 0),
    decreases lines.len(),
{
    if lines.len() > 0 {
        lemma_state_from_started(step_state(s, lines[0]), lines.subrange(1, lines.len() as int));
    }
}

/// Appending one line to the input extends the records by that line's record.
pub proof fn lemma_encode_records_snoc(lines: Seq<Seq<u8>>, s: CodecState, l: Seq<u8>)
    ensures
        encode_records(lines.push(l), s.prev, s.prev_prefix_len) == encode_records(
            lines,
            s.prev,
            s.prev_prefix_len,
        ) + encode_record(state_from(s, lines).prev, state_from(s, lines).prev_prefix_len, l),
    decreases lines.len(),
{
    if lines.len() == 0 {
        assert(lines.push(l)[0] == l);
        assert(lines.push(l).subrange(1, 1) =~= Seq::<Seq<u8>>::empty());
        assert(encode_records(
            Seq::<Seq<u8>>::empty(),
            l,
            common_prefix_bytes(s.prev, l),
        ) == Seq::<u8>::empty());
        assert(encode_records(Seq::<Seq<u8>>::empty(), s.prev, s.prev_prefix_len)
            == Seq::<u8>::empty());
        assert(state_from(s, Seq::<Seq<u8>>::empty()) == s);
        assert(encode_records(lines.push(l), s.prev, s.prev_prefix_len) =~= encode_records(
            lines,
            s.prev,
            s.prev_prefix_len,
        ) + encode_record(s.prev, s.prev_prefix_len, l));
    } else {
        let rest = lines.subrange(1, lines.len() as int);
        assert(lines.push(l)[0] == lines[0]);
        assert(lines.push(l).subrange(1, lines.len() as int + 1) =~= rest.push(l));
        let s1 = step_state(s, lines[0]);
        lemma_encode_records_snoc(rest, s1, l);
        assert(encode_records(lines.push(l), s.prev, s.prev_prefix_len) =~= encode_records(
            lines,
            s.prev,
            s.prev_prefix_len,
        ) + encode_record(state_from(s, lines).prev, state_from(s, lines).prev_prefix_len, l));
    }
}

/// Appending one line to the input extends the database by that line's chunk.
pub proof fn lemma_encode_lines_snoc(lines: Seq<Seq<u8>>, l: Seq<u8>)
    ensures
        encode_lines(lines.push(l)) == encode_lines(lines) + chunk_spec(state_after(lines), l),
    decreases lines.len(),
{
    lemma_state_from_started(init_state(), lines);
    lemma_encode_records_snoc(lines, init_state(), l);
    if lines.len() == 0 {
        assert(encode_lines(lines.push(l)) =~= encode_lines(lines) + chunk_spec(
            state_after(lines),
            l,
        ));
    } else {
        assert(encode_lines(lines.push(l)) =~= encode_lines(lines) + chunk_spec(
            state_after(lines),
            l,
        ));
    }
}

/// Encodes a whole list of lines into one database byte vector. Fails, as
/// the encoder does, when some line is longer than the format can represent.
pub fn compress_lines(lines: &Vec<Vec<u8>>) -> (r: Result<Vec<u8>, FrError>)
    requires
        forall|i: int| 0 <= i < lines@.len() ==> valid_utf8(#[trigger] lines@[i]@),
    ensures
        encodable(lines.deep_view()) ==> (r matches Ok(out) && out@ == encode_lines(
            lines.deep_view(),
        )),
        !encodable(lines.deep_view()) ==> r == Result::<Vec<u8>, FrError>::Err(
            FrError::LineTooLongError,
        ),
{
    let ghost deep = lines.deep_view();
    assert(deep.len() == lines@.len());
    assert(forall|i: int| 0 <= i < deep.len() ==> #[trigger] deep[i] == lines@[i]@);
    let mut enc = FrCompress::new();
    let mut out: Vec<u8> = Vec::new();
    let n = lines.len();
    let mut i: usize = 0;
    proof {
        assert(deep.take(0) =~= Seq::<Seq<u8>>::empty());
    }
    while i < n
        invariant
            i <= n,
            n == lines@.len(),
            deep == lines.deep_view(),
            deep.len() == n,
            forall|j: int| 0 <= j < deep.len() ==> #[trigger] deep[j] == lines@[j]@,
            forall|j: int| 0 <= j < lines@.len() ==> valid_utf8(#[trigger] lines@[j]@),
            forall|j: int| 0 <= j < i ==> encodable_line(#[trigger] deep[j]),
            enc@ == state_after(deep.take(i as int)),
            state_wf(enc@),
            out@ == encode_lines(deep.take(i as int)),
        decreases n - i,
    {
        let line = &lines[i];
        match enc.next_chunk(line) {
            Ok(mut chunk) => {
                proof {
                    lemma_encode_lines_snoc(deep.take(i as int), deep[i as int]);
                    lemma_state_from_snoc(init_state(), deep.take(i as int), deep[i as int]);
                    assert(deep.take(i as int).push(deep[i as int]) =~= deep.take(i as int + 1));
                }
                out.append(&mut chunk);
            },
            Err(e) => {
                assert(deep[i as int].len() > MAX_LINE_BYTES);
                assert(!encodable(deep));
                return Err(e);
            },
        }
        i = i + 1;
    }
    proof {
        assert(deep.take(n as int) =~= deep);
    }
    Ok(out)
}

/// The decoder's whole standing: the database bytes, how far they have been
/// consumed, whether the header has been validated, and the codec cursor.
pub struct DecState {
    pub bytes: Seq<u8>,
    pub pos: int,
    pub started: bool,
    pub prev: Seq<u8>,
    pub prev_prefix_len: int,
}

/// A fresh decoder standing over `bytes`.
pub open spec fn dec_init(bytes: Seq<u8>) -> DecState {
    DecState { bytes, pos: 0, started: false, prev: Seq::empty(), prev_prefix_len: 0 }
}

/// A well-formed decoder standing. The previous line never outgrows the
/// bytes consumed so far: every decoded line is built from consumed bytes.
pub open spec fn dec_wf(s: DecState) -> bool {
    &&& 0 <= s.pos <= s.bytes.len()
    &&& valid_utf8(s.prev)
    &&& 0 <= s.prev_prefix_len <= s.prev.len()
    &&& s.prev.len() <= s.pos
}

/// The standing after the stream has run dry: everything is consumed and
/// every further pull ends the sequence.
pub open spec fn dec_sink(s: DecState) -> DecState {
    DecState { pos: s.bytes.len() as int, ..s }
}

/// Consumes the header record at `pos`: one ignored offset byte, a length
/// field, and that many label bytes. `None` when the stream ends first; the
/// label must be well-formed text and must spell the format's magic word.
pub open spec fn parse_header(bytes: Seq<u8>, pos: int) -> Option<(Result<(), FrError>, int)> {
    if pos >= bytes.len() {
        None
    } else {
        match read_int(bytes, pos + 1) {
            None => None,
            Some((n, p2)) => if n < 0 || p2 + n > bytes.len() {
                None
            } else {
                let lab = bytes.subrange(p2, p2 + n);
                if !valid_utf8(lab) {
                    Some((Err(FrError::InvalidUtf8Error(utf8_valid_up_to(lab) as usize)), p2 + n))
                } else if lab != label() {
                    Some((Err(FrError::InvalidLabelError), p2 + n))
                } else {
                    Some((Ok(()), p2 + n))
                }
            },
        }
    }
}

/// Consumes one entry record at `pos` under cursor (`prev`, `plen`): the
/// offset field, the suffix-length field, and the suffix bytes. `None` when
/// the stream ends inside the record — the deliberate truncation leniency.
pub open spec fn parse_record(bytes: Seq<u8>, pos: int, prev: Seq<u8>, plen: int) -> Option<
    (Result<(Seq<u8>, int), FrError>, int),
> {
    match read_int(bytes, pos) {
        None => None,
        Some((off, p1)) => match read_int(bytes, p1) {
            None => None,
            Some((slen, p2)) => if slen < 0 || p2 + slen > bytes.len() {
                None
            } else {
                let suffix = bytes.subrange(p2, p2 + slen);
                let np = plen + off;
                let end = p2 + slen;
                if !valid_utf8(suffix) {
                    Some((Err(FrError::InvalidUtf8Error(utf8_valid_up_to(suffix) as usize)), end))
                } else if np < 0 || np > prev.len() || !is_char_boundary(prev, np) {
                    Some((Err(FrError::InvalidOffsetError), end))
                } else {
                    Some((Ok((prev.subrange(0, np) + suffix, np)), end))
                }
            },
        },
    }
}

/// One pull of an entry record, as a step on the decoder standing.
pub open spec fn next_record(st: DecState) -> (Option<Result<Seq<u8>, FrError>>, DecState) {
    match parse_record(st.bytes, st.pos, st.prev, st.prev_prefix_len) {
        None => (None, dec_sink(st)),
        Some((r, np)) => match r {
            Err(e) => (Some(Err(e)), DecState { pos: np, ..st }),
            Ok((line, nplen)) => (
                Some(Ok(line)),
                DecState { pos: np, prev: line, prev_prefix_len: nplen, ..st },
            ),
        },
    }
}

/// One pull of the decoder: validates the header first when it has not been
/// seen yet, then consumes one entry record.
pub open spec fn next_line_spec(st: DecState) -> (Option<Result<Seq<u8>, FrError>>, DecState) {
    if st.started {
        next_record(st)
    } else {
        match parse_header(st.bytes, st.pos) {
            None => (None, dec_sink(st)),
            Some((r, np)) => match r {
                Err(e) => (Some(Err(e)), DecState { pos: np, ..st }),
                Ok(()) => next_record(DecState { pos: np, started: true, ..st }),
            },
        }
    }
}

/// Everything the decoder yields from a standing on: the reconstructed lines
/// until the stream runs dry, and the error that cut the run short, if one
/// did.
pub open spec fn decode_all(st: DecState) -> (Seq<Seq<u8>>, Option<FrError>)
    decreases st.bytes.len() - st.pos
        when 0 <= st.pos <= st.bytes.len()
{
    let (r, st1) = next_line_spec(st);
    match r {
        None => (Seq::empty(), None),
        Some(rr) => match rr {
            Err(e) => (Seq::empty(), Some(e)),
            Ok(line) => (seq![line] + decode_all(st1).0, decode_all(st1).1),
        },
    }
}

/// The decoder: owns the database bytes and reconstructs one line per pull.
pub struct FrDecompress {
    bytes: Vec<u8>,
    pos: usize,
    init: bool,
    prec_prefix_len: usize,
    prec: Vec<u8>,
}

impl View for FrDecompress {
    type V = DecState;

    closed spec fn view(&self) -> DecState {
        DecState {
            bytes: self.bytes@,
            pos: self.pos as int,
            started: self.init,
            prev: self.prec@,
            prev_prefix_len: self.prec_prefix_len as int,
        }
    }
}

impl FrDecompress {
    /// A fresh decoder over a database byte stream.
    pub fn new(bytes: Vec<u8>) -> (r: FrDecompress)
        ensures
            r@ == dec_init(bytes@),
            dec_wf(r@),
    {
        let r = FrDecompress {
            bytes,
            pos: 0,
            init: false,
            prec_prefix_len: 0,
            prec: Vec::new(),
        };
        proof {
            assert(r@.prev =~= dec_init(r@.bytes).prev);
        }
        r
    }

    /// Reads one integer field from the current position. At the end of the
    /// stream the cursor is parked on the end and `None` comes back, now and
    /// on every later pull.
    pub fn count_from_bytes(&mut self) -> (r: Option<i32>)
        requires
            dec_wf(old(self)@),
        ensures
            dec_wf(final(self)@),
            final(self)@.bytes == old(self)@.bytes,
            final(self)@.started == old(self)@.started,
            final(self)@.prev == old(self)@.prev,
            final(self)@.prev_prefix_len == old(self)@.prev_prefix_len,
            read_int(old(self)@.bytes, old(self)@.pos) is None ==> r is None && final(self)@.pos
                == old(self)@.bytes.len(),
            read_int(old(self)@.bytes, old(self)@.pos) matches Some(t) ==> (r matches Some(v)
                && v as int == t.0 && final(self)@.pos == t.1),
    {
        match read_int_at(&self.bytes, self.pos) {
            None => {
                self.pos = self.bytes.len();
                None
            },
            Some((v, np)) => {
                self.pos = np;
                Some(v)
            },
        }
    }

    /// Reads `len` raw suffix bytes from the current position. When fewer
    /// are left the cursor is parked on the end and `None` comes back.
    pub fn suffix_from_bytes(&mut self, len: usize) -> (r: Option<Vec<u8>>)
        requires
            dec_wf(old(self)@),
        ensures
            dec_wf(final(self)@),
            final(self)@.bytes == old(self)@.bytes,
            final(self)@.started == old(self)@.started,
            final(self)@.prev == old(self)@.prev,
            final(self)@.prev_prefix_len == old(self)@.prev_prefix_len,
            old(self)@.pos + len > old(self)@.bytes.len() ==> r is None && final(self)@.pos
                == old(self)@.bytes.len(),
            old(self)@.pos + len <= old(self)@.bytes.len() ==> (r matches Some(s) && s@
                == old(self)@.bytes.subrange(old(self)@.pos, old(self)@.pos + len)
                && final(self)@.pos == old(self)@.pos + len),
    {
        if len > self.bytes.len() - self.pos {
            self.pos = self.bytes.len();
            None
        } else {
            let s = copy_range(&self.bytes, self.pos, self.pos + len);
            self.pos = self.pos + len;
            Some(s)
        }
    }

    /// Pulls one entry record and reconstructs its line from the previous
    /// one: the shared prefix, as far as the offset says, plus the suffix.
    fn next_record_exec(&mut self) -> (r: Option<Result<Vec<u8>, FrError>>)
        requires
            dec_wf(old(self)@),
        ensures
            dec_wf(final(self)@),
            final(self)@ == next_record(old(self)@).1,
            match r {
                None => next_record(old(self)@).0 is None,
                Some(rr) => match rr {
                    Ok(v) => next_record(old(self)@).0 == Some(
                        Result::<Seq<u8>, FrError>::Ok(v@),
                    ),
                    Err(e) => next_record(old(self)@).0 == Some(
                        Result::<Seq<u8>, FrError>::Err(e),
                    ),
                },
            },
    {
        let ghost st0 = self@;
        let off = match self.count_from_bytes() {
            None => {
                return None;
            },
            Some(v) => v,
        };
        let ghost p1 = self@.pos;
        assert(st0.pos < p1);
        let slen = match self.count_from_bytes() {
            None => {
                return None;
            },
            Some(v) => v,
        };
        let ghost p2 = self@.pos;
        assert(p1 < p2);
        if slen < 0 {
            self.pos = self.bytes.len();
            return None;
        }
        let suffix = match self.suffix_from_bytes(slen as usize) {
            None => {
                return None;
            },
            Some(s) => s,
        };
        let ghost sfxv = suffix@;
        let valid_to = utf8_valid_prefix(&suffix);
        if valid_to != suffix.len() {
            return Some(Err(FrError::InvalidUtf8Error(valid_to)));
        }
        let np: usize;
        if off >= 0 {
            let offu = off as usize;
            if offu > self.prec.len() - self.prec_prefix_len {
                return Some(Err(FrError::InvalidOffsetError));
            }
            np = self.prec_prefix_len + offu;
        } else {
            let mag = (-off) as usize;
            if mag > self.prec_prefix_len {
                return Some(Err(FrError::InvalidOffsetError));
            }
            np = self.prec_prefix_len - mag;
        }
        if np < self.prec.len() {
            let bnp = self.prec[np];
            if 0x80 <= bnp && bnp <= 0xbf {
                proof {
                    is_char_boundary_iff_not_is_continuation_byte(self.prec@, np as int);
                }
                return Some(Err(FrError::InvalidOffsetError));
            }
            proof {
                is_char_boundary_iff_not_is_continuation_byte(self.prec@, np as int);
            }
        } else {
            proof {
                is_char_boundary_start_end_of_seq(self.prec@);
            }
        }
        let mut line = copy_range(&self.prec, 0, np);
        let mut sfx = suffix;
        line.append(&mut sfx);
        proof {
            valid_utf8_split(self.prec@, np as int);
            valid_utf8_concat(self.prec@.subrange(0, np as int), sfxv);
            assert(line@ =~= self.prec@.subrange(0, np as int) + sfxv);
            assert(valid_utf8(line@));
            assert(np as int + off == np + off);
            assert(line@.len() == np + sfxv.len());
            assert(np <= st0.prev.len() <= st0.pos);
            assert(self@.pos == p2 + sfxv.len());
            assert(line@.len() <= self@.pos);
        }
        let line_len = line.len();
        self.prec_prefix_len = np;
        self.prec = copy_range(&line, 0, line_len);
        proof {
            assert(self.prec@ =~= line@);
            assert(final(self)@ == next_record(st0).1);
        }
        Some(Ok(line))
    }

    /// Pulls the next line of the database. On the first pull the header is
    /// consumed and validated before the first entry record. A stream that
    /// ends on or inside a record boundary simply ends the sequence.
    pub fn next_line(&mut self) -> (r: Option<Result<Vec<u8>, FrError>>)
        requires
            dec_wf(old(self)@),
        ensures
            dec_wf(final(self)@),
            final(self)@ == next_line_spec(old(self)@).1,
            match r {
                None => next_line_spec(old(self)@).0 is None,
                Some(rr) => match rr {
                    Ok(v) => next_line_spec(old(self)@).0 == Some(
                        Result::<Seq<u8>, FrError>::Ok(v@),
                    ),
                    Err(e) => next_line_spec(old(self)@).0 == Some(
                        Result::<Seq<u8>, FrError>::Err(e),
                    ),
                },
            },
    {
        let ghost st0 = self@;
        if !self.init {
            if self.pos >= self.bytes.len() {
                self.pos = self.bytes.len();
                return None;
            }
            self.pos = self.pos + 1;
            let n = match self.count_from_bytes() {
                None => {
                    return None;
                },
                Some(v) => v,
            };
            if n < 0 {
                self.pos = self.bytes.len();
                return None;
            }
            let lab = match self.suffix_from_bytes(n as usize) {
                None => {
                    return None;
                },
                Some(l) => l,
            };
            let valid_to = utf8_valid_prefix(&lab);
            if valid_to != lab.len() {
                return Some(Err(FrError::InvalidUtf8Error(valid_to)));
            }
            let expected = label_vec();
            if !bytes_eq(&lab, &expected) {
                return Some(Err(FrError::InvalidLabelError));
            }
            self.init = true;
        }
        self.next_record_exec()
    }
}

/// Decodes a whole database byte stream: all the lines it yields, or the
/// error that cut the run short.
pub fn decompress_lines(bytes: &Vec<u8>) -> (r: Result<Vec<Vec<u8>>, FrError>)
    ensures
        ({
            let (ls, err) = decode_all(dec_init(bytes@));
            match r {
                Ok(v) => err is None && v.deep_view() == ls,
                Err(e) => err == Some(e),
            }
        }),
{
    let ghost all = decode_all(dec_init(bytes@));
    let owned = copy_range(bytes, 0, bytes.len());
    assert(owned@ =~= bytes@);
    let mut dec = FrDecompress::new(owned);
    let mut out: Vec<Vec<u8>> = Vec::new();
    proof {
        assert(out.deep_view() + all.0 =~~= all.0);
    }
    loop
        invariant
            dec_wf(dec@),
            all == decode_all(dec_init(bytes@)),
            out.deep_view() + decode_all(dec@).0 == all.0,
            decode_all(dec@).1 == all.1,
        decreases decode_all(dec@).0.len(),
    {
        let ghost st = dec@;
        match dec.next_line() {
            None => {
                assert(decode_all(st).0 =~= Seq::<Seq<u8>>::empty());
                assert(decode_all(st).1 is None);
                assert(out.deep_view() =~~= all.0);
                return Ok(out);
            },
            Some(rr) => match rr {
                Err(e) => {
                    assert(decode_all(st).1 == Some(e));
                    return Err(e);
                },
                Ok(v) => {
                    let ghost st1 = next_line_spec(st).1;
                    let ghost vv = v@;
                    assert(decode_all(st).0 == seq![vv] + decode_all(st1).0);
                    let ghost out_old = out.deep_view();
                    out.push(v);
                    proof {
                        assert(out.deep_view() =~~= out_old.push(vv));
                        assert(out.deep_view() + decode_all(st1).0 =~~= all.0);
                    }
                },
            },
        }
    }
}

} // verus!
