//! The filtering side of the query pipeline: glob patterns are prepared and
//! compiled through the glob crate, decoded entries are classified as file
//! or directory, the match candidate is chosen, and a running result count
//! enforces an optional limit. The glob crate stands behind a small trusted
//! boundary; everything around it is verified.

use crate::codec::{dec_init, decode_all, DecState, FrDecompress, FrError, next_line_spec};
use crate::text::{copy_range, lemma_ascii_boundary, lemma_ascii_seq_valid};
use vstd::arithmetic::div_mod::lemma_fundamental_div_mod;
use vstd::prelude::*;
use vstd::utf8::{encode_utf8, valid_utf8, valid_utf8_concat, valid_utf8_split};

verus! {

/// The path-separator byte: ASCII backslash.
pub const SEP: u8 = 92;

/// The implicit-wildcard byte: ASCII star.
pub const STAR: u8 = 42;

#[verifier::external_type_specification]
#[verifier::external_body]
pub struct ExGlobSet(globset::GlobSet);

#[verifier::external_type_specification]
#[verifier::external_body]
pub struct ExGlobSetBuilder(globset::GlobSetBuilder);

#[verifier::external_type_specification]
#[verifier::external_body]
pub struct ExGlobError(globset::Error);

/// The patterns a builder has gathered so far, each as its glob text and its
/// case-insensitivity flag.
pub uninterp spec fn globs_in_builder(b: globset::GlobSetBuilder) -> Seq<(Seq<u8>, bool)>;

/// The patterns a built set holds.
pub uninterp spec fn globs_in_set(s: globset::GlobSet) -> Seq<(Seq<u8>, bool)>;

/// Whether the glob compiled from `pattern` — case-insensitive when `ci`,
/// literal separators and backslash escapes off — matches `candidate`, as
/// the glob crate computes it for this build target.
pub uninterp spec fn glob_match(pattern: Seq<u8>, ci: bool, candidate: Seq<u8>) -> bool;

/// Whether the glob crate accepts `pattern` — under the same fixed flags —
/// as a well-formed glob. Compilation is a function of the pattern text and
/// the flags alone.
pub uninterp spec fn glob_compiles(pattern: Seq<u8>, ci: bool) -> bool;

/// Whether the glob crate can build one matcher for this list of compiled
/// patterns. Building is a function of the patterns alone.
pub uninterp spec fn glob_set_builds(globs: Seq<(Seq<u8>, bool)>) -> bool;

/// One gathered pattern matches the candidate.
pub open spec fn glob_entry_matches(g: (Seq<u8>, bool), candidate: Seq<u8>) -> bool {
    glob_match(g.0, g.1, candidate)
}

/// Some pattern of the set matches the candidate.
pub open spec fn any_glob_matches(globs: Seq<(Seq<u8>, bool)>, candidate: Seq<u8>) -> bool {
    exists|i: int| 0 <= i < globs.len() && glob_entry_matches(#[trigger] globs[i], candidate)
}

/// How many patterns of the set match the candidate.
pub open spec fn match_count(globs: Seq<(Seq<u8>, bool)>, candidate: Seq<u8>) -> int {
    globs.filter(|g: (Seq<u8>, bool)| glob_entry_matches(g, candidate)).len() as int
}

/// Relies on globset's GlobSetBuilder::new: a builder holding no patterns.
#[verifier::external_body]
fn globset_builder_new() -> (b: globset::GlobSetBuilder)
    ensures
        globs_in_builder(b) == Seq::<(Seq<u8>, bool)>::empty(),
{
    globset::GlobSetBuilder::new()
}

/// Relies on globset's GlobBuilder::build and GlobSetBuilder::add: compiles
/// `pattern` with the given case flag, literal separators and backslash
/// escapes off, and appends it to the builder's patterns. Exactly the
/// malformed patterns are refused, and a refusal leaves the builder as it
/// was.
#[verifier::external_body]
fn globset_add_pattern(
    b: &mut globset::GlobSetBuilder,
    pattern: &Vec<u8>,
    ci: bool,
) -> (r: Result<(), globset::Error>)
    requires
        valid_utf8(pattern@),
    ensures
        r is Ok <==> glob_compiles(pattern@, ci),
        r is Ok ==> globs_in_builder(*final(b)) == globs_in_builder(*old(b)).push((pattern@, ci)),
        r is Err ==> globs_in_builder(*final(b)) == globs_in_builder(*old(b)),
{
    let text = std::str::from_utf8(pattern.as_slice()).unwrap();
    match globset::GlobBuilder::new(text)
        .case_insensitive(ci)
        .literal_separator(false)
        .backslash_escape(false)
        .build() {
        Ok(g) => {
            b.add(g);
            Ok(())
        },
        Err(e) => Err(e),
    }
}

/// Relies on globset's GlobSetBuilder::build: whether the matcher builds
/// is decided by the gathered patterns alone, and the built set holds
/// exactly the builder's patterns.
#[verifier::external_body]
fn globset_build(b: &globset::GlobSetBuilder) -> (r: Result<globset::GlobSet, globset::Error>)
    ensures
        r is Ok <==> glob_set_builds(globs_in_builder(*b)),
        r matches Ok(s) ==> globs_in_set(s) == globs_in_builder(*b),
{
    b.build()
}

/// Relies on globset's GlobSet::len: the number of globs in the set.
#[verifier::external_body]
fn globset_len(s: &globset::GlobSet) -> (n: usize)
    ensures
        n == globs_in_set(*s).len(),
{
    s.len()
}

/// Relies on globset's GlobSet::is_match: true exactly when some glob of
/// the set matches the candidate.
#[verifier::external_body]
fn globset_is_match(s: &globset::GlobSet, candidate: &Vec<u8>) -> (r: bool)
    requires
        valid_utf8(candidate@),
    ensures
        r == (exists|i: int|
            0 <= i < globs_in_set(*s).len() && #[trigger] glob_match(
                globs_in_set(*s)[i].0,
                globs_in_set(*s)[i].1,
                candidate@,
            )),
{
    let text = std::str::from_utf8(candidate.as_slice()).unwrap();
    s.is_match(std::path::Path::new(text))
}

/// Relies on globset's GlobSet::matches: the ascending, duplicate-free
/// sequence numbers of the globs that match the candidate, so their count
/// is the number of matching globs.
#[verifier::external_body]
fn globset_matches(s: &globset::GlobSet, candidate: &Vec<u8>) -> (r: Vec<usize>)
    requires
        valid_utf8(candidate@),
    ensures
        r@.len() == match_count(globs_in_set(*s), candidate@),
{
    let text = std::str::from_utf8(candidate.as_slice()).unwrap();
    s.matches(std::path::Path::new(text))
}

/// What can go wrong while preparing a query.
#[derive(Clone, Copy, Debug, PartialEq, Eq, Structural)]
pub enum QueryError {
    /// A pattern was refused by the glob engine.
    InvalidPatternError,
}

/// The user's pattern after the implicit-globbing rule: a leading slash
/// strips to the raw pattern, a pattern already anchored by a star at either
/// end stands as written, and anything else is wrapped in stars.
pub open spec fn prep_pattern_spec(p: Seq<u8>) -> Seq<u8> {
    if p.len() > 0 && p[0] == SEP_SLASH {
        p.subrange(1, p.len() as int)
    } else if p.len() > 0 && (p[0] == STAR || p[p.len() - 1] == STAR) {
        p
    } else {
        seq![STAR] + p + seq![STAR]
    }
}

/// The forward-slash byte that marks a pattern to take as written.
pub const SEP_SLASH: u8 = 47;

/// Applies the implicit-globbing rule to one pattern.
pub fn prep_pattern(pattern: &Vec<u8>) -> (r: Vec<u8>)
    requires
        valid_utf8(pattern@),
    ensures
        r@ == prep_pattern_spec(pattern@),
        valid_utf8(r@),
{
    let n = pattern.len();
    if n > 0 && pattern[0] == SEP_SLASH {
        proof {
            lemma_ascii_boundary(pattern@, 0);
            valid_utf8_split(pattern@, 1);
        }
        copy_range(pattern, 1, n)
    } else if n > 0 && (pattern[0] == STAR || pattern[n - 1] == STAR) {
        assert(pattern@.subrange(0, n as int) =~= pattern@);
        copy_range(pattern, 0, n)
    } else {
        let mut r: Vec<u8> = Vec::new();
        r.push(STAR);
        let mut mid = copy_range(pattern, 0, n);
        r.append(&mut mid);
        r.push(STAR);
        proof {
            lemma_ascii_seq_valid(STAR);
            valid_utf8_concat(seq![STAR], pattern@);
            valid_utf8_concat(seq![STAR] + pattern@, seq![STAR]);
            assert(r@ =~= (seq![STAR] + pattern@) + seq![STAR]);
            assert(r@ =~= prep_pattern_spec(pattern@));
        }
        r
    }
}

/// Compiles the user's patterns, after the implicit-globbing rule, into one
/// glob set with the given case flag. Succeeds exactly when every prepared
/// pattern compiles and the glob crate can build one matcher for them.
pub fn build_globset(patterns: &Vec<Vec<u8>>, case_insensitive: bool) -> (r: Result<
    globset::GlobSet,
    QueryError,
>)
    requires
        forall|i: int| 0 <= i < patterns@.len() ==> valid_utf8(#[trigger] patterns@[i]@),
    ensures
        r is Ok <==> ((forall|i: int|
            0 <= i < patterns.deep_view().len() ==> glob_compiles(
                prep_pattern_spec(#[trigger] patterns.deep_view()[i]),
                case_insensitive,
            )) && glob_set_builds(
            patterns.deep_view().map(
                |i: int, p: Seq<u8>| (prep_pattern_spec(p), case_insensitive),
            ),
        )),
        r matches Ok(s) ==> globs_in_set(s) == patterns.deep_view().map(
            |i: int, p: Seq<u8>| (prep_pattern_spec(p), case_insensitive),
        ),
{
    let ghost deep = patterns.deep_view();
    assert(deep.len() == patterns@.len());
    assert(forall|i: int| 0 <= i < deep.len() ==> #[trigger] deep[i] == patterns@[i]@);
    let ghost target = deep.map(|i: int, p: Seq<u8>| (prep_pattern_spec(p), case_insensitive));
    let mut b = globset_builder_new();
    let n = patterns.len();
    let mut i: usize = 0;
    proof {
        assert(globs_in_builder(b) =~= deep.take(0).map(
            |j: int, p: Seq<u8>| (prep_pattern_spec(p), case_insensitive),
        ));
    }
    while i < n
        invariant
            i <= n,
            n == patterns@.len(),
            deep == patterns.deep_view(),
            deep.len() == n,
            forall|j: int| 0 <= j < deep.len() ==> #[trigger] deep[j] == patterns@[j]@,
            forall|j: int| 0 <= j < patterns@.len() ==> valid_utf8(#[trigger] patterns@[j]@),
            target == deep.map(|j: int, p: Seq<u8>| (prep_pattern_spec(p), case_insensitive)),
            globs_in_builder(b) == deep.take(i as int).map(
                |j: int, p: Seq<u8>| (prep_pattern_spec(p), case_insensitive),
            ),
            forall|j: int|
                0 <= j < i ==> glob_compiles(
                    prep_pattern_spec(#[trigger] deep[j]),
                    case_insensitive,
                ),
        decreases n - i,
    {
        let prepped = prep_pattern(&patterns[i]);
        match globset_add_pattern(&mut b, &prepped, case_insensitive) {
            Ok(()) => {
                proof {
                    assert(deep.take(i as int + 1) =~= deep.take(i as int).push(deep[i as int]));
                    assert(globs_in_builder(b) =~= deep.take(i as int + 1).map(
                        |j: int, p: Seq<u8>| (prep_pattern_spec(p), case_insensitive),
                    ));
                }
            },
            Err(_) => {
                assert(!glob_compiles(prep_pattern_spec(deep[i as int]), case_insensitive));
                return Err(QueryError::InvalidPatternError);
            },
        }
        i = i + 1;
    }
    proof {
        assert(deep.take(n as int) =~= deep);
    }
    match globset_build(&b) {
        Ok(s) => Ok(s),
        Err(_) => {
            assert(!glob_set_builds(target));
            Err(QueryError::InvalidPatternError)
        },
    }
}

/// Whether an entry names a directory: the walker marks those with a
/// trailing separator.
pub open spec fn is_dir_entry(e: Seq<u8>) -> bool {
    e.len() > 0 && e[e.len() - 1] == SEP
}

/// The form an entry is shown in: a directory without its trailing
/// separator, a file as it stands.
pub open spec fn display_form(e: Seq<u8>) -> Seq<u8> {
    if is_dir_entry(e) {
        e.subrange(0, e.len() - 1)
    } else {
        e
    }
}

/// The part of an entry after its last separator; the whole entry when it
/// has none.
pub open spec fn basename_of(e: Seq<u8>) -> Seq<u8>
    decreases e.len(),
{
    if e.len() == 0 {
        e
    } else if e[e.len() - 1] == SEP {
        Seq::empty()
    } else {
        basename_of(e.subrange(0, e.len() - 1)).push(e[e.len() - 1])
    }
}

/// After a clean cut at `i` — the start, or just after a separator — with no
/// separator beyond it, the basename is everything from `i` on.
proof fn lemma_basename_at(e: Seq<u8>, i: int)
    requires
        0 <= i <= e.len(),
        i == 0 || e[i - 1] == SEP,
        forall|j: int| i <= j < e.len() ==> e[j] != SEP,
    ensures
        basename_of(e) == e.subrange(i, e.len() as int),
    decreases e.len(),
{
    if e.len() == 0 {
        assert(e.subrange(0, 0) =~= e);
    } else if i == e.len() {
        assert(e[e.len() - 1] == SEP);
        assert(basename_of(e) =~= e.subrange(i, e.len() as int));
    } else {
        assert(e[e.len() - 1] != SEP);
        let head = e.subrange(0, e.len() - 1);
        assert(forall|j: int| i <= j < head.len() ==> head[j] != SEP);
        lemma_basename_at(head, i);
        assert(head.subrange(i, head.len() as int).push(e[e.len() - 1]) =~= e.subrange(
            i,
            e.len() as int,
        ));
    }
}

/// The shown form of a well-formed entry, computed.
pub fn display_of(entry: &Vec<u8>) -> (r: Vec<u8>)
    requires
        valid_utf8(entry@),
    ensures
        r@ == display_form(entry@),
        valid_utf8(r@),
{
    let n = entry.len();
    if n > 0 && entry[n - 1] == SEP {
        proof {
            lemma_ascii_boundary(entry@, n as int - 1);
            valid_utf8_split(entry@, n as int - 1);
        }
        copy_range(entry, 0, n - 1)
    } else {
        assert(entry@.subrange(0, n as int) =~= entry@);
        copy_range(entry, 0, n)
    }
}

/// The basename of a well-formed entry, computed.
pub fn basename(entry: &Vec<u8>) -> (r: Vec<u8>)
    requires
        valid_utf8(entry@),
    ensures
        r@ == basename_of(entry@),
        valid_utf8(r@),
{
    let n = entry.len();
    let mut i: usize = n;
    while i > 0 && entry[i - 1] != SEP
        invariant
            i <= n,
            n == entry@.len(),
            forall|j: int| i <= j < n ==> entry@[j] != SEP,
        decreases i,
    {
        i = i - 1;
    }
    proof {
        lemma_basename_at(entry@, i as int);
        if i > 0 {
            lemma_ascii_boundary(entry@, i as int - 1);
        }
        valid_utf8_split(entry@, i as int);
    }
    copy_range(entry, i, n)
}

/// The string an entry is matched on: nothing for a directory under
/// basename matching (those are skipped), the basename of a file under
/// basename matching, and the shown form otherwise.
pub open spec fn candidate_of(e: Seq<u8>, base: bool) -> Option<Seq<u8>> {
    if base && is_dir_entry(e) {
        None
    } else if base {
        Some(basename_of(e))
    } else {
        Some(display_form(e))
    }
}

/// The count test of all-semantics means what it says: as many patterns
/// match as the set holds exactly when every pattern matches.
pub proof fn lemma_all_semantics(globs: Seq<(Seq<u8>, bool)>, cand: Seq<u8>)
    ensures
        0 <= match_count(globs, cand) <= globs.len(),
        (match_count(globs, cand) == globs.len()) <==> (forall|i: int|
            0 <= i < globs.len() ==> glob_entry_matches(#[trigger] globs[i], cand)),
    decreases globs.len(),
{
    reveal(Seq::filter);
    if globs.len() > 0 {
        let prefix = globs.drop_last();
        lemma_all_semantics(prefix, cand);
        assert(forall|i: int| 0 <= i < prefix.len() ==> prefix[i] == #[trigger] globs[i]);
        if glob_entry_matches(globs.last(), cand) {
            assert(match_count(globs, cand) == match_count(prefix, cand) + 1);
            if match_count(prefix, cand) == prefix.len() {
                assert(forall|i: int|
                    0 <= i < globs.len() ==> glob_entry_matches(#[trigger] globs[i], cand));
            }
        } else {
            assert(match_count(globs, cand) == match_count(prefix, cand));
            assert(match_count(globs, cand) < globs.len());
        }
    }
}

/// The match rule of the query: with a single pattern, or under
/// any-semantics, some pattern must match; under all-semantics with several
/// patterns, every one must.
pub open spec fn entry_matches_spec(globs: Seq<(Seq<u8>, bool)>, all: bool, cand: Seq<u8>) -> bool {
    if globs.len() == 1 || !all {
        any_glob_matches(globs, cand)
    } else {
        match_count(globs, cand) == globs.len()
    }
}

/// Decides the match rule for one candidate.
pub fn entry_matches(gs: &globset::GlobSet, all: bool, candidate: &Vec<u8>) -> (r: bool)
    requires
        valid_utf8(candidate@),
    ensures
        r == entry_matches_spec(globs_in_set(*gs), all, candidate@),
{
    let n = globset_len(gs);
    if n == 1 || !all {
        globset_is_match(gs, candidate)
    } else {
        let m = globset_matches(gs, candidate);
        m.len() == n
    }
}

/// What the consumer does with one decoded entry: what it emits, the new
/// running count, and whether the configured limit has now been reached.
pub open spec fn consume_step(
    globs: Seq<(Seq<u8>, bool)>,
    all: bool,
    base: bool,
    limit: Option<usize>,
    ctr: int,
    e: Seq<u8>,
) -> (Option<Seq<u8>>, int, bool) {
    match candidate_of(e, base) {
        None => (None, ctr, false),
        Some(c) => if !entry_matches_spec(globs, all, c) {
            (None, ctr, false)
        } else {
            (
                Some(display_form(e)),
                ctr + 1,
                (limit matches Some(l) && ctr + 1 == l),
            )
        },
    }
}

/// Handles one decoded entry: skips directories under basename matching,
/// matches the candidate, and on a match emits the shown form, bumps the
/// count, and reports whether the limit is reached.
pub fn consume_entry(
    gs: &globset::GlobSet,
    all: bool,
    base: bool,
    limit: Option<usize>,
    ctr: &mut usize,
    entry: &Vec<u8>,
) -> (r: (Option<Vec<u8>>, bool))
    requires
        valid_utf8(entry@),
        *old(ctr) < usize::MAX,
    ensures
        ({
            let (emit, nc, stop) = consume_step(
                globs_in_set(*gs),
                all,
                base,
                limit,
                *old(ctr) as int,
                entry@,
            );
            &&& *final(ctr) == nc
            &&& r.1 == stop
            &&& (match (r.0, emit) {
                (None, None) => true,
                (Some(v), Some(sv)) => v@ == sv,
                _ => false,
            })
        }),
{
    let n = entry.len();
    let is_dir = n > 0 && entry[n - 1] == SEP;
    if base && is_dir {
        return (None, false);
    }
    let cand = if base {
        basename(entry)
    } else {
        display_of(entry)
    };
    if !entry_matches(gs, all, &cand) {
        return (None, false);
    }
    *ctr = *ctr + 1;
    let stop = match limit {
        Some(l) => *ctr == l,
        None => false,
    };
    let shown = display_of(entry);
    (Some(shown), stop)
}

/// What the whole query emits from a sequence of decoded entries, starting
/// at a given count: the shown forms of the matches, in decode order, and
/// whether the limit cut the run short.
pub open spec fn query_spec(
    lines: Seq<Seq<u8>>,
    globs: Seq<(Seq<u8>, bool)>,
    all: bool,
    base: bool,
    limit: Option<usize>,
    ctr: int,
) -> (Seq<Seq<u8>>, bool)
    decreases lines.len(),
{
    if lines.len() == 0 {
        (Seq::empty(), false)
    } else {
        let (emit, nc, stop) = consume_step(globs, all, base, limit, ctr, lines[0]);
        let head = match emit {
            None => Seq::<Seq<u8>>::empty(),
            Some(v) => seq![v],
        };
        if stop {
            (head, true)
        } else {
            let (rest, stopped) = query_spec(
                lines.subrange(1, lines.len() as int),
                globs,
                all,
                base,
                limit,
                nc,
            );
            (head + rest, stopped)
        }
    }
}

/// A successful pull consumes at least the two integer fields of a record.
proof fn lemma_next_line_advances(st: DecState)
    requires
        0 <= st.pos <= st.bytes.len(),
    ensures
        next_line_spec(st).0 matches Some(r) && r is Ok ==> st.pos + 2 <= next_line_spec(st).1.pos
            <= st.bytes.len(),
{
}

/// Runs the whole query sequentially over a database byte stream: decodes
/// entry after entry, filters each, and stops at the limit. A decode error
/// behind the point where the limit stopped the run is never reached; one
/// before it surfaces as the query's error.
#[verifier::rlimit(80)]
pub fn query_db(
    db: &Vec<u8>,
    gs: &globset::GlobSet,
    all: bool,
    base: bool,
    limit: Option<usize>,
) -> (r: Result<Vec<Vec<u8>>, FrError>)
    ensures
        ({
            let (lines, derr) = decode_all(dec_init(db@));
            let (outs, stopped) = query_spec(lines, globs_in_set(*gs), all, base, limit, 0);
            match r {
                Ok(v) => (stopped || derr is None) && v.deep_view() == outs,
                Err(e) => !stopped && derr == Some(e),
            }
        }),
{
    let ghost all_dec = decode_all(dec_init(db@));
    let ghost target = query_spec(all_dec.0, globs_in_set(*gs), all, base, limit, 0);
    let mut dec = FrDecompress::new(copy_range(db, 0, db.len()));
    let mut out: Vec<Vec<u8>> = Vec::new();
    let mut ctr: usize = 0;
    let db_len = db.len();
    proof {
        assert(dec@.bytes =~= db@);
        assert(dec@ == dec_init(db@));
        assert(db@.len() <= usize::MAX);
        assert(out.deep_view() + query_spec(
            decode_all(dec@).0,
            globs_in_set(*gs),
            all,
            base,
            limit,
            ctr as int,
        ).0 =~~= target.0);
    }
    loop
        invariant
            crate::codec::dec_wf(dec@),
            dec@.bytes == db@,
            db@.len() <= usize::MAX,
            all_dec == decode_all(dec_init(db@)),
            target == query_spec(all_dec.0, globs_in_set(*gs), all, base, limit, 0),
            decode_all(dec@).1 == all_dec.1,
            2 * (ctr as int) <= dec@.pos,
            ({
                let rest = query_spec(
                    decode_all(dec@).0,
                    globs_in_set(*gs),
                    all,
                    base,
                    limit,
                    ctr as int,
                );
                out.deep_view() + rest.0 == target.0 && rest.1 == target.1
            }),
        decreases decode_all(dec@).0.len(),
    {
        let ghost st = dec@;
        match dec.next_line() {
            None => {
                assert(decode_all(st).0 =~= Seq::<Seq<u8>>::empty());
                assert(decode_all(st).1 is None);
                assert(out.deep_view() =~~= target.0);
                return Ok(out);
            },
            Some(rr) => match rr {
                Err(e) => {
                    assert(decode_all(st).0 =~= Seq::<Seq<u8>>::empty());
                    assert(decode_all(st).1 == Some(e));
                    assert(!target.1);
                    return Err(e);
                },
                Ok(v) => {
                    let ghost st1 = next_line_spec(st).1;
                    let ghost vv = v@;
                    proof {
                        lemma_next_line_advances(st);
                        assert(valid_utf8(vv));
                        assert(decode_all(st).0 == seq![vv] + decode_all(st1).0);
                        assert(decode_all(st).0.subrange(1, decode_all(st).0.len() as int)
                            =~~= decode_all(st1).0);
                    }
                    let ghost out_old = out.deep_view();
                    let ghost ctr_old = ctr as int;
                    proof {
                        assert(2 * (ctr as int) <= st.pos <= st.bytes.len() <= usize::MAX);
                        assert((ctr as int) < usize::MAX);
                    }
                    let (emit, stop) = consume_entry(gs, all, base, limit, &mut ctr, &v);
                    let ghost step = consume_step(
                        globs_in_set(*gs),
                        all,
                        base,
                        limit,
                        ctr_old,
                        vv,
                    );
                    match emit {
                        None => {
                            assert(out.deep_view() + query_spec(
                                decode_all(st1).0,
                                globs_in_set(*gs),
                                all,
                                base,
                                limit,
                                ctr as int,
                            ).0 =~~= target.0);
                        },
                        Some(ev) => {
                            let ghost evv = ev@;
                            out.push(ev);
                            proof {
                                assert(out.deep_view() =~~= out_old.push(evv));
                            }
                            if stop {
                                proof {
                                    assert(query_spec(
                                        decode_all(st).0,
                                        globs_in_set(*gs),
                                        all,
                                        base,
                                        limit,
                                        ctr_old,
                                    ) == (seq![evv], true));
                                    assert(out.deep_view() =~~= target.0);
                                    assert(target.1);
                                }
                                return Ok(out);
                            }
                            proof {
                                assert(out.deep_view() + query_spec(
                                    decode_all(st1).0,
                                    globs_in_set(*gs),
                                    all,
                                    base,
                                    limit,
                                    ctr as int,
                                ).0 =~~= target.0);
                            }
                        },
                    }
                },
            },
        }
    }
}

/// An ASCII decimal digit.
pub open spec fn is_dec_digit(b: u8) -> bool {
    48 <= b <= 57
}

/// The number the decimal digit bytes spell.
pub open spec fn digits_val(s: Seq<u8>) -> int
    decreases s.len(),
{
    if s.len() == 0 {
        0
    } else {
        digits_val(s.drop_last()) * 10 + (s.last() - 48)
    }
}

/// The digit run of a decimal value: the bytes after an optional plus sign.
pub open spec fn digits_part(s: Seq<u8>) -> Seq<u8> {
    if s.len() > 0 && s[0] == 43 {
        s.subrange(1, s.len() as int)
    } else {
        s
    }
}

/// Every byte is an ASCII decimal digit.
pub open spec fn all_digits(s: Seq<u8>) -> bool {
    forall|i: int| 0 <= i < s.len() ==> is_dec_digit(#[trigger] s[i])
}

/// Whether the bytes parse as an unsigned machine integer: an optional
/// leading plus sign, then at least one digit, spelling a value in range.
pub open spec fn parses_as_usize(s: Seq<u8>) -> bool {
    &&& digits_part(s).len() > 0
    &&& all_digits(digits_part(s))
    &&& digits_val(digits_part(s)) <= usize::MAX
}

proof fn lemma_digits_val_nonneg(s: Seq<u8>)
    requires
        all_digits(s),
    ensures
        digits_val(s) >= 0,
    decreases s.len(),
{
    if s.len() > 0 {
        assert(all_digits(s.drop_last())) by {
            assert(forall|i: int|
                0 <= i < s.len() - 1 ==> s.drop_last()[i] == #[trigger] s[i]);
        }
        lemma_digits_val_nonneg(s.drop_last());
    }
}

/// Digits appended at the end never shrink the spelled value.
proof fn lemma_digits_val_grows(s: Seq<u8>, k: int)
    requires
        0 <= k <= s.len(),
        all_digits(s),
    ensures
        digits_val(s) >= digits_val(s.subrange(0, k)),
    decreases s.len() - k,
{
    if k == s.len() {
        assert(s.subrange(0, k) =~= s);
    } else {
        let t = s.subrange(0, k + 1);
        assert(t.drop_last() =~= s.subrange(0, k));
        assert(t.last() == s[k]);
        assert(all_digits(s.subrange(0, k))) by {
            assert(forall|i: int|
                0 <= i < k ==> s.subrange(0, k)[i] == #[trigger] s[i]);
        }
        lemma_digits_val_nonneg(s.subrange(0, k));
        assert(digits_val(t) >= digits_val(s.subrange(0, k)));
        lemma_digits_val_grows(s, k + 1);
    }
}

/// Whether a command-line value is a well-formed result count: `Ok` exactly
/// when it parses as an unsigned machine integer, `Err` hands the value
/// back.
pub fn is_usize(v: &String) -> (r: Result<(), String>)
    ensures
        r is Ok <==> parses_as_usize(encode_utf8(v@)),
        r matches Err(s) ==> s@ == v@,
{
    let b = v.as_str().as_bytes();
    let ghost sb = b@;
    assert(sb == encode_utf8(v@));
    let n = b.len();
    let start: usize = if n > 0 && b[0] == 43 {
        1
    } else {
        0
    };
    let ghost d = digits_part(sb);
    assert(d =~= sb.subrange(start as int, n as int));
    if n == start {
        assert(d.len() == 0);
        return Err(v.clone());
    }
    let mut acc: usize = 0;
    let mut i: usize = start;
    assert(sb.subrange(start as int, start as int) =~= Seq::<u8>::empty());
    while i < n
        invariant
            start <= i <= n,
            n == sb.len(),
            b@ == sb,
            start <= 1,
            sb == encode_utf8(v@),
            d == digits_part(sb),
            d.len() > 0,
            d == sb.subrange(start as int, n as int),
            forall|j: int| start <= j < i ==> is_dec_digit(#[trigger] sb[j]),
            acc as int == digits_val(sb.subrange(start as int, i as int)),
        decreases n - i,
    {
        let c = b[i];
        if !(48 <= c && c <= 57) {
            proof {
                assert(d[i - start] == sb[i as int]);
                assert(!is_dec_digit(d[i - start]));
                assert(!all_digits(d));
            }
            return Err(v.clone());
        }
        let dig = (c - 48) as usize;
        let ghost pre = sb.subrange(start as int, i as int);
        let ghost ext = sb.subrange(start as int, i as int + 1);
        proof {
            assert(ext.drop_last() =~= pre);
            assert(ext.last() == sb[i as int]);
            assert(digits_val(ext) == digits_val(pre) * 10 + dig);
        }
        if acc > (usize::MAX - dig) / 10 {
            proof {
                lemma_fundamental_div_mod((usize::MAX - dig) as int, 10);
                assert(acc as int * 10 + dig > usize::MAX);
                assert(digits_val(ext) > usize::MAX);
                if parses_as_usize(sb) {
                    assert(all_digits(d));
                    lemma_digits_val_grows(d, i as int + 1 - start);
                    assert(d.subrange(0, i as int + 1 - start) =~= ext);
                    assert(digits_val(d) > usize::MAX);
                }
            }
            return Err(v.clone());
        }
        proof {
            lemma_fundamental_div_mod((usize::MAX - dig) as int, 10);
            assert(acc as int * 10 + dig <= usize::MAX);
        }
        acc = acc * 10 + dig;
        i = i + 1;
    }
    proof {
        assert(sb.subrange(start as int, n as int) == d);
        assert(acc as int == digits_val(d));
        assert forall|j: int| 0 <= j < d.len() implies is_dec_digit(#[trigger] d[j]) by {
            assert(d[j] == sb[j + start]);
        }
        assert(all_digits(d));
    }
    Ok(())
}

} // verus!
