//! The source map: which file occupies which range of the concatenated
//! virtual address space, together with each file's bytes, and the
//! resolution of a span to the literal source text it covers.

use vstd::prelude::*;
use vstd::slice::slice_subrange;
use vstd::string::StringExecFns;
use vstd::utf8::decode_utf8;
use vstd::utf8::valid_utf8;

use crate::text::str_eq;
use crate::trace::Span;

verus! {

/// One source map record: a file, the global offset range the file
/// occupies in the concatenated virtual address space, and the file's
/// bytes.
pub struct SourceMapEntry {
    pub source: String,
    pub span: Span,
    pub text: Vec<u8>,
}

/// The mathematical content of one source map record.
pub ghost struct SmEntryModel {
    pub name: Seq<char>,
    pub span: Span,
    pub text: Seq<u8>,
}

/// The mathematical content of a record list.
pub open spec fn entries_model(s: Seq<SourceMapEntry>) -> Seq<SmEntryModel> {
    s.map_values(
        |e: SourceMapEntry| SmEntryModel { name: e.source@, span: e.span, text: e.text@ },
    )
}

/// Errors that can happen when trying to resolve source text for a span.
#[derive(Debug, Clone, Copy, PartialEq, Eq, Structural)]
pub enum SourceError {
    /// A span reached outside the range assigned to a file.
    ExceededAssignedRange,
    /// An offset exceeded the largest supported size.
    OffsetExceededMaxSize,
    /// A file's recorded range reaches beyond the bytes it holds, or an
    /// empty overlap was requested from it.
    UnexpectedEof,
    /// The bytes covering the span are not valid UTF-8.
    FromUtf8Error,
    /// No file covers any part of the span.
    SourceNotFound(Span),
    /// The span is malformed: its low bound exceeds its high bound.
    InvalidSpan(Span),
}

/// The first record position at or after `i` whose file name is `name`.
pub open spec fn spec_lookup(m: Seq<SmEntryModel>, name: Seq<char>, i: int) -> Option<int>
    decreases m.len() - i,
{
    if !(0 <= i < m.len()) {
        None
    } else if m[i].name == name {
        Some(i)
    } else {
        spec_lookup(m, name, i + 1)
    }
}

/// Ordering of two record positions: by low offset, then by high offset,
/// then by position, so that records listed in file order stay in their
/// listed order when their ranges are equal.
pub open spec fn entry_le(m: Seq<SmEntryModel>, a: int, b: int) -> bool {
    let sa = m[a].span;
    let sb = m[b].span;
    sa.0 < sb.0 || (sa.0 == sb.0 && (sa.1 < sb.1 || (sa.1 == sb.1 && a <= b)))
}

/// Inserts position `k` into the position list `s`, which is ordered by
/// `entry_le`, after every position that orders at or before `k`.
pub open spec fn insert_sorted(m: Seq<SmEntryModel>, s: Seq<usize>, k: usize) -> Seq<usize>
    decreases s.len(),
{
    if s.len() == 0 {
        seq![k]
    } else if entry_le(m, s.last() as int, k as int) {
        s.push(k)
    } else {
        insert_sorted(m, s.drop_last(), k).push(s.last())
    }
}

/// The positions among records `0 .. n` whose range intersects `span`,
/// ordered by `entry_le`.
pub open spec fn sorted_matches_upto(m: Seq<SmEntryModel>, span: Span, n: int) -> Seq<usize>
    decreases n,
{
    if n <= 0 {
        Seq::empty()
    } else {
        let prev = sorted_matches_upto(m, span, n - 1);
        if m[n - 1].span.spec_intersects(span) {
            insert_sorted(m, prev, (n - 1) as usize)
        } else {
            prev
        }
    }
}

/// The record positions whose range intersects `span`, in the order of
/// their position in the span.
pub open spec fn spec_files_in_span(m: Seq<SmEntryModel>, span: Span) -> Seq<usize> {
    sorted_matches_upto(m, span, m.len() as int)
}

/// The text that the overlap of `span` with record `k` resolves to: the
/// bytes of the overlap, decoded as UTF-8.
pub open spec fn spec_read_span(m: Seq<SmEntryModel>, k: int, span: Span) -> Result<
    Seq<char>,
    SourceError,
> {
    match m[k].span.spec_intersection(span) {
        None => Err(SourceError::UnexpectedEof),
        Some(s) => {
            let lo = s.0 - m[k].span.0;
            let hi = s.1 - m[k].span.0;
            if hi > m[k].text.len() {
                Err(SourceError::UnexpectedEof)
            } else {
                let bytes = m[k].text.subrange(lo as int, hi as int);
                if valid_utf8(bytes) {
                    Ok(decode_utf8(bytes))
                } else {
                    Err(SourceError::FromUtf8Error)
                }
            }
        },
    }
}

/// The concatenation of the texts that the records listed in `idxs`
/// resolve for `span`; the first failing record decides the error.
pub open spec fn spec_concat_reads(m: Seq<SmEntryModel>, idxs: Seq<usize>, span: Span) -> Result<
    Seq<char>,
    SourceError,
>
    decreases idxs.len(),
{
    if idxs.len() == 0 {
        Ok(Seq::empty())
    } else {
        match spec_read_span(m, idxs[0] as int, span) {
            Err(e) => Err(e),
            Ok(t) => match spec_concat_reads(m, idxs.drop_first(), span) {
                Err(e) => Err(e),
                Ok(rest) => Ok(t + rest),
            },
        }
    }
}

/// The literal source text covered by `span`: the resolved texts of every
/// intersecting file, joined in span order.  A malformed span (low above
/// high) is rejected outright, and a span no file intersects has no
/// source.
pub open spec fn spec_text_in_span(m: Seq<SmEntryModel>, span: Span) -> Result<
    Seq<char>,
    SourceError,
> {
    if span.0 > span.1 {
        Err(SourceError::InvalidSpan(span))
    } else {
        let idxs = spec_files_in_span(m, span);
        if idxs.len() == 0 {
            Err(SourceError::SourceNotFound(span))
        } else {
            spec_concat_reads(m, idxs, span)
        }
    }
}

/// Joins a resolved prefix with the outcome of resolving the rest.
spec fn combine_read(acc: Seq<char>, rest: Result<Seq<char>, SourceError>) -> Result<
    Seq<char>,
    SourceError,
> {
    match rest {
        Ok(r) => Ok(acc + r),
        Err(e) => Err(e),
    }
}

/// Maps a span to the files it covers and to the literal source text
/// inside them.
///
/// The records are expected to name each file once — a file occupies one
/// offset range of the address space.  Should a name nonetheless appear
/// twice, every lookup by name answers with the first listed record, and
/// span queries treat the records as the distinct entries they are.
pub struct SourceMap {
    entries: Vec<SourceMapEntry>,
}

impl SourceMap {
    /// The record list's mathematical content.
    pub closed spec fn model(&self) -> Seq<SmEntryModel> {
        entries_model(self.entries@)
    }

    /// Builds a source map from its records.
    pub fn new(entries: Vec<SourceMapEntry>) -> (r: SourceMap)
        ensures
            r.model() == entries_model(entries@),
    {
        SourceMap { entries }
    }

    /// Looks up a file path by position.  Calling this with a position
    /// outside the record list is a programmer error.
    pub fn get_file(&self, index: usize) -> (r: &str)
        requires
            index < self.model().len(),
        ensures
            r@ == self.model()[index as int].name,
    {
        self.entries[index].source.as_str()
    }

    /// Returns the list of all files in the hosted project, each with its
    /// position.
    pub fn get_files(&self) -> (r: Vec<(usize, &String)>)
        ensures
            r@.len() == self.model().len(),
            forall|k: int|
                0 <= k < r@.len() ==> (#[trigger] r@[k]).0 == k && r@[k].1@ == self.model()[k].name,
    {
        let mut files: Vec<(usize, &String)> = Vec::new();
        let n = self.entries.len();
        let mut k: usize = 0;
        while k < n
            invariant
                k <= n,
                n == self.model().len(),
                files@.len() == k,
                forall|t: int|
                    0 <= t < k ==> (#[trigger] files@[t]).0 == t && files@[t].1@
                        == self.model()[t].name,
            decreases n - k,
        {
            files.push((k, &self.entries[k].source));
            k = k + 1;
        }
        files
    }

    /// Returns the global offset range assigned to a file, when the file
    /// is in the project; otherwise reports the file as missing.  The
    /// first record listed under the name answers.
    pub fn get_file_offset_range(&self, file: &str) -> (r: Result<&Span, String>)
        ensures
            match r {
                Ok(sp) => {
                    let found = spec_lookup(self.model(), file@, 0);
                    found is Some && *sp == self.model()[found->0].span
                },
                Err(msg) => {
                    spec_lookup(self.model(), file@, 0) is None && msg@ == file@
                        + " not in source map"@
                },
            },
    {
        let n = self.entries.len();
        let mut k: usize = 0;
        while k < n
            invariant
                k <= n,
                n == self.model().len(),
                spec_lookup(self.model(), file@, 0) == spec_lookup(self.model(), file@, k as int),
            decreases n - k,
        {
            if str_eq(self.entries[k].source.as_str(), file) {
                return Ok(&self.entries[k].span);
            }
            k = k + 1;
        }
        let mut msg = file.to_owned();
        msg.append(" not in source map");
        Err(msg)
    }

    /// Returns the positions of the files whose range intersects `span`,
    /// in the order of their position in the span.
    fn matching_indices(&self, span: Span) -> (r: Vec<usize>)
        ensures
            r@ == spec_files_in_span(self.model(), span),
            forall|t: int| 0 <= t < r@.len() ==> (#[trigger] r@[t]) < self.model().len(),
    {
        let ghost m = self.model();
        let n = self.entries.len();
        let mut idxs: Vec<usize> = Vec::new();
        let mut k: usize = 0;
        while k < n
            invariant
                k <= n,
                n == m.len(),
                m == self.model(),
                idxs@ == sorted_matches_upto(m, span, k as int),
                forall|t: int| 0 <= t < idxs@.len() ==> (#[trigger] idxs@[t]) < n,
            decreases n - k,
        {
            if self.entries[k].span.intersects(&span) {
                proof {
                    assert(m[k as int].span == self.entries@[k as int].span);
                }
                let ghost idxs0 = idxs@;
                // Scan backwards to the position after the last record
                // that orders at or before this one.
                let mut p: usize = idxs.len();
                proof {
                    assert(idxs0.subrange(0, p as int) =~= idxs0);
                    assert(idxs0.subrange(p as int, idxs0.len() as int) =~= Seq::<usize>::empty());
                    assert(insert_sorted(m, idxs0, k) =~= insert_sorted(
                        m,
                        idxs0.subrange(0, p as int),
                        k,
                    ) + idxs0.subrange(p as int, idxs0.len() as int));
                }
                while p > 0 && !self.entry_le_exec(idxs[p - 1], k)
                    invariant
                        p <= idxs0.len(),
                        idxs@ == idxs0,
                        k < n,
                        n == m.len(),
                        m == self.model(),
                        forall|t: int| 0 <= t < idxs0.len() ==> (#[trigger] idxs0[t]) < n,
                        insert_sorted(m, idxs0, k) == insert_sorted(
                            m,
                            idxs0.subrange(0, p as int),
                            k,
                        ) + idxs0.subrange(p as int, idxs0.len() as int),
                    decreases p,
                {
                    proof {
                        let pre = idxs0.subrange(0, p as int);
                        assert(pre.last() == idxs0[p - 1]);
                        assert(pre.drop_last() =~= idxs0.subrange(0, p - 1));
                        assert(insert_sorted(m, pre, k) == insert_sorted(
                            m,
                            idxs0.subrange(0, p - 1),
                            k,
                        ).push(idxs0[p - 1]));
                        assert(insert_sorted(m, idxs0.subrange(0, p - 1), k).push(idxs0[p - 1])
                            + idxs0.subrange(p as int, idxs0.len() as int) =~= insert_sorted(
                            m,
                            idxs0.subrange(0, p - 1),
                            k,
                        ) + idxs0.subrange(p - 1, idxs0.len() as int));
                    }
                    p = p - 1;
                }
                proof {
                    let pre = idxs0.subrange(0, p as int);
                    if p == 0 {
                        assert(pre =~= Seq::<usize>::empty());
                        assert(insert_sorted(m, pre, k) == seq![k]);
                    } else {
                        assert(pre.last() == idxs0[p - 1]);
                        assert(insert_sorted(m, pre, k) == pre.push(k));
                    }
                    assert(insert_sorted(m, idxs0, k) =~= idxs0.insert(p as int, k));
                    lemma_insert_sorted_elements(m, idxs0, k, n as int);
                }
                idxs.insert(p, k);
            }
            proof {
                assert(idxs@ == sorted_matches_upto(m, span, k + 1 as int));
            }
            k = k + 1;
        }
        idxs
    }

    /// Ordering test between two record positions.
    fn entry_le_exec(&self, a: usize, b: usize) -> (r: bool)
        requires
            a < self.model().len(),
            b < self.model().len(),
        ensures
            r == entry_le(self.model(), a as int, b as int),
    {
        let sa = self.entries[a].span;
        let sb = self.entries[b].span;
        sa.0 < sb.0 || (sa.0 == sb.0 && (sa.1 < sb.1 || (sa.1 == sb.1 && a <= b)))
    }

    /// Given a span, returns all the files it touches, each with the
    /// file's assigned offset range, in the order of their position in
    /// the span.
    pub fn files_in_span(&self, span: Span) -> (r: Vec<(&str, Span)>)
        ensures
            ({
                let idxs = spec_files_in_span(self.model(), span);
                &&& r@.len() == idxs.len()
                &&& forall|t: int|
                    0 <= t < r@.len() ==> (#[trigger] r@[t]).0@ == self.model()[idxs[t] as int].name
                        && r@[t].1 == self.model()[idxs[t] as int].span
            }),
    {
        let idxs = self.matching_indices(span);
        let mut r: Vec<(&str, Span)> = Vec::new();
        let n = idxs.len();
        let mut t: usize = 0;
        while t < n
            invariant
                t <= n,
                n == idxs@.len(),
                idxs@ == spec_files_in_span(self.model(), span),
                forall|j: int| 0 <= j < idxs@.len() ==> (#[trigger] idxs@[j]) < self.model().len(),
                r@.len() == t,
                forall|j: int|
                    0 <= j < t ==> (#[trigger] r@[j]).0@ == self.model()[idxs@[j] as int].name
                        && r@[j].1 == self.model()[idxs@[j] as int].span,
            decreases n - t,
        {
            let k = idxs[t];
            let e = &self.entries[k];
            r.push((e.source.as_str(), e.span));
            t = t + 1;
        }
        r
    }

    /// Resolves the text of the overlap of `span` with the file at record
    /// position `k`.
    fn read_span(&self, k: usize, span: Span) -> (r: Result<String, SourceError>)
        requires
            k < self.model().len(),
        ensures
            match (r, spec_read_span(self.model(), k as int, span)) {
                (Ok(s), Ok(t)) => s@ == t,
                (Err(a), Err(b)) => a == b,
                _ => false,
            },
    {
        let e = &self.entries[k];
        match e.span.intersection(&span) {
            None => Err(SourceError::UnexpectedEof),
            Some(s) => {
                let lo = (s.low() - e.span.low()) as usize;
                let hi = (s.high() - e.span.low()) as usize;
                if hi > e.text.len() {
                    Err(SourceError::UnexpectedEof)
                } else {
                    let bytes = slice_subrange(e.text.as_slice(), lo, hi);
                    match utf8_to_string(bytes) {
                        Some(t) => Ok(t),
                        None => Err(SourceError::FromUtf8Error),
                    }
                }
            },
        }
    }

    /// Returns the literal source text that the given span covers.  A span
    /// crossing several files yields their texts joined in span order; a
    /// malformed span (low above high) is rejected with a typed error, and
    /// a span covering no file at all has no source.
    pub fn text_in_span(&self, span: Span) -> (r: Result<String, SourceError>)
        ensures
            match (r, spec_text_in_span(self.model(), span)) {
                (Ok(s), Ok(t)) => s@ == t,
                (Err(a), Err(b)) => a == b,
                _ => false,
            },
    {
        if span.low() > span.high() {
            return Err(SourceError::InvalidSpan(span));
        }
        let ghost m = self.model();
        let idxs = self.matching_indices(span);
        let ghost idxs0 = idxs@;
        let n = idxs.len();
        if n == 0 {
            return Err(SourceError::SourceNotFound(span));
        }
        let mut acc = String::new();
        let mut t: usize = 0;
        proof {
            assert(idxs0.skip(0) =~= idxs0);
        }
        while t < n
            invariant
                t <= n,
                n == idxs0.len(),
                n >= 1,
                span.0 <= span.1,
                idxs@ == idxs0,
                m == self.model(),
                idxs0 == spec_files_in_span(m, span),
                forall|j: int| 0 <= j < idxs0.len() ==> (#[trigger] idxs0[j]) < m.len(),
                spec_concat_reads(m, idxs0, span) == combine_read(
                    acc@,
                    spec_concat_reads(m, idxs0.skip(t as int), span),
                ),
            decreases n - t,
        {
            let ghost rem = idxs0.skip(t as int);
            proof {
                assert(rem[0] == idxs0[t as int]);
                assert(rem.drop_first() =~= idxs0.skip(t + 1 as int));
            }
            match self.read_span(idxs[t], span) {
                Ok(txt) => {
                    let ghost acc0 = acc@;
                    acc.append(txt.as_str());
                    proof {
                        match spec_concat_reads(m, idxs0.skip(t + 1 as int), span) {
                            Ok(rest) => {
                                assert(acc0 + (txt@ + rest) =~= (acc0 + txt@) + rest);
                            },
                            Err(_) => {},
                        }
                    }
                },
                Err(e) => {
                    return Err(e);
                },
            }
            t = t + 1;
        }
        proof {
            assert(idxs0.skip(n as int) =~= Seq::<usize>::empty());
            assert(acc@ + Seq::<char>::empty() =~= acc@);
        }
        Ok(acc)
    }
}

/// Every position in an ordered insertion stays below the bound that every
/// inserted position respects.
proof fn lemma_insert_sorted_elements(m: Seq<SmEntryModel>, s: Seq<usize>, k: usize, bound: int)
    requires
        forall|t: int| 0 <= t < s.len() ==> (#[trigger] s[t]) < bound,
        k < bound,
    ensures
        forall|t: int|
            0 <= t < insert_sorted(m, s, k).len() ==> (#[trigger] insert_sorted(m, s, k)[t])
                < bound,
    decreases s.len(),
{
    if s.len() == 0 {
        assert(insert_sorted(m, s, k) == seq![k]);
    } else if entry_le(m, s.last() as int, k as int) {
        let r = insert_sorted(m, s, k);
        assert(r == s.push(k));
        assert forall|t: int| 0 <= t < r.len() implies (#[trigger] r[t]) < bound by {
            if t < s.len() {
                assert(r[t] == s[t]);
            } else {
                assert(r[t] == k);
            }
        }
    } else {
        lemma_insert_sorted_elements(m, s.drop_last(), k, bound);
        let rec = insert_sorted(m, s.drop_last(), k);
        let r = insert_sorted(m, s, k);
        assert(r == rec.push(s.last()));
        assert forall|t: int| 0 <= t < r.len() implies (#[trigger] r[t]) < bound by {
            if t < rec.len() {
                assert(r[t] == rec[t]);
            } else {
                assert(r[t] == s.last());
                assert(s.last() == s[s.len() - 1]);
            }
        }
    }
}

/// Relies on `String::from_utf8`: it succeeds exactly on UTF-8 valid
/// bytes, and the string it returns holds exactly the characters those
/// bytes decode to.
#[verifier::external_body]
fn utf8_to_string(bytes: &[u8]) -> (r: Option<String>)
    ensures
        r is Some <==> valid_utf8(bytes@),
        r is Some ==> r->0@ == decode_utf8(bytes@),
{
    match String::from_utf8(bytes.to_vec()) {
        Ok(s) => Some(s),
        Err(_) => None,
    }
}

} // verus!
