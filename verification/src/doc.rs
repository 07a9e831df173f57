//! Smart-documentation (`#!`) references and anchors.
//!
//! A `#!` comment may name project symbols inline with `![Name]`, optionally
//! kind-qualified as `![kind:Name]`, and may declare an anchor with
//! `#! @key description…` — a whole-line act: the `@` must be the first
//! thing after `#!`, so prose mentioning `@name` declares nothing.

use vstd::prelude::*;

use crate::kind::KindId;
use crate::schema::{last_by_bytes, Schema};
use crate::text::{find_byte_from, is_alnum, lemma_find_byte_from, ascii_alnum, slice_find_byte_between, slice_find_byte_from};

verus! {

/// The kind recorded for an unqualified `![Name]`: a sentinel that consumers
/// match by name across kinds.
pub fn doc_ref() -> (k: KindId)
    ensures
        k@ == "doc_ref"@,
{
    KindId::new("doc_ref")
}

/// The explicit kind and name offset of a `![…]` ref's inner text: when a
/// `:` occurs and the text before the first one is a doc-ref alias, that
/// alias's kind and the offset just past the colon; otherwise no kind and 0.
pub open spec fn spec_parse_doc_ref(content: Seq<u8>, aliases: Seq<(&'static str, KindId)>) -> (
    Option<KindId>,
    usize,
) {
    let colon = find_byte_from(content, 58u8, 0);
    if colon < content.len() && last_by_bytes(aliases, content.take(colon)) is Some {
        (last_by_bytes(aliases, content.take(colon)), (colon + 1) as usize)
    } else {
        (None, 0usize)
    }
}

/// Splits a `![…]` ref's inner text into an optional explicit kind (resolved
/// against the schema's aliases) and the byte offset where the name begins:
/// `scheme:Name` → the scheme kind and 7; bare or unknown-prefix text →
/// no kind and 0.
pub fn parse_doc_ref(content: &[u8], schema: &Schema) -> (r: (Option<KindId>, usize))
    ensures
        r == spec_parse_doc_ref(content@, schema.spec_doc_aliases()),
{
    let colon = slice_find_byte_from(content, 58u8, 0);
    proof {
        lemma_find_byte_from(content@, 58u8, 0);
    }
    if colon < content.len() {
        if let Some(kind) = schema.kind_by_alias_prefix(content, colon) {
            return (Some(kind), colon + 1);
        }
    }
    (None, 0)
}

/// A byte that may appear in an anchor key: ASCII letters and digits, `_`,
/// `.` and `:`.
pub open spec fn spec_is_anchor_byte(b: u8) -> bool {
    is_alnum(b) || b == 95u8 || b == 46u8 || b == 58u8
}

/// Space or tab.
pub open spec fn is_blank(b: u8) -> bool {
    b == 32u8 || b == 9u8
}

fn is_anchor_byte(b: u8) -> (r: bool)
    ensures
        r == spec_is_anchor_byte(b),
{
    ascii_alnum(b) || b == 95u8 || b == 46u8 || b == 58u8
}

/// The end of the run of blanks in `src[from..hi]` starting at `from`.
pub open spec fn blank_run_end(src: Seq<u8>, from: int, hi: int) -> int
    decreases hi - from,
{
    if from >= hi || !is_blank(src[from]) {
        from
    } else {
        blank_run_end(src, from + 1, hi)
    }
}

/// The end of the run of anchor bytes in `src[from..hi]` starting at `from`.
pub open spec fn anchor_run_end(src: Seq<u8>, from: int, hi: int) -> int
    decreases hi - from,
{
    if from >= hi || !spec_is_anchor_byte(src[from]) {
        from
    } else {
        anchor_run_end(src, from + 1, hi)
    }
}

/// The smaller of two integers.
pub open spec fn min_int(a: int, b: int) -> int {
    if a < b {
        a
    } else {
        b
    }
}

/// The anchor key of the `#!` comment `src[start..end]`: past the two marker
/// bytes and any blanks, an `@` followed by a non-empty run of anchor bytes;
/// the key is that run.
pub open spec fn spec_doc_anchor_span(src: Seq<u8>, start: u32, end: u32) -> Option<(u32, u32)> {
    let hi = min_int(end as int, src.len() as int);
    let k = blank_run_end(src, min_int(start + 2, hi), hi);
    if !(k < src.len() && src[k] == 64u8) {
        None
    } else {
        let ne = anchor_run_end(src, k + 1, hi);
        if ne > k + 1 {
            Some(((k + 1) as u32, ne as u32))
        } else {
            None
        }
    }
}

/// The byte range of the key in a `#! @key …` anchor declaration, if this
/// comment declares one. `start`/`end` delimit a `#!` doc comment.
pub fn doc_anchor_span(src: &[u8], start: u32, end: u32) -> (r: Option<(u32, u32)>)
    ensures
        r == spec_doc_anchor_span(src@, start, end),
{
    let lo = start as usize;
    let hi = if (end as usize) < src.len() {
        end as usize
    } else {
        src.len()
    };
    // Skip the `#!` marker itself.
    let mut k: usize = if lo >= hi || hi - lo < 2 {
        hi
    } else {
        lo + 2
    };
    assert(k as int == min_int(start + 2, hi as int));
    let ghost k0 = k as int;
    while k < hi && (src[k] == 32u8 || src[k] == 9u8)
        invariant
            k <= hi,
            hi <= src@.len(),
            blank_run_end(src@, k0, hi as int) == blank_run_end(src@, k as int, hi as int),
        decreases hi - k,
    {
        k += 1;
    }
    if !(k < src.len() && src[k] == 64u8) {
        return None;
    }
    let ns = k + 1;
    let mut ne = ns;
    while ne < hi && is_anchor_byte(src[ne])
        invariant
            ns <= ne,
            ns <= hi + 1,
            ne <= hi || ne == ns,
            hi <= src@.len(),
            anchor_run_end(src@, ns as int, hi as int) == anchor_run_end(src@, ne as int, hi as int),
        decreases hi + 1 - ne,
    {
        ne += 1;
    }
    if ne > ns {
        Some((ns as u32, ne as u32))
    } else {
        None
    }
}

/// The `Name` ranges of the `![Name]` refs in `src[k..hi]`, scanning from
/// `k`: a `![` opens a ref that runs to the next `]` before `hi` (kept when
/// non-empty; scanning resumes past the `]`); a `![` with no closing `]` is
/// skipped.
pub open spec fn spec_ref_spans_from(src: Seq<u8>, k: int, hi: int) -> Seq<(u32, u32)>
    decreases hi - k,
{
    if k < 0 || k + 1 >= hi || hi > src.len() {
        Seq::empty()
    } else if src[k] == 33u8 && src[k + 1] == 91u8 && find_byte_from(src.take(hi), 93u8, k + 2) < hi {
        proof {
            lemma_find_byte_from(src.take(hi), 93u8, k + 2);
        }
        let ns = k + 2;
        let ne = find_byte_from(src.take(hi), 93u8, ns);
        let here = if ne > ns {
            seq![(ns as u32, ne as u32)]
        } else {
            Seq::empty()
        };
        here + spec_ref_spans_from(src, ne + 1, hi)
    } else {
        spec_ref_spans_from(src, k + 1, hi)
    }
}

/// Appends to `out` the byte ranges of the `Name` inside every `![Name]` of
/// the `#!` comment `src[start..end]`.
pub fn doc_ref_spans(src: &[u8], start: u32, end: u32, out: &mut Vec<(u32, u32)>)
    ensures
        final(out)@ == old(out)@ + spec_ref_spans_from(
            src@,
            start as int,
            min_int(end as int, src@.len() as int),
        ),
{
    let lo = start as usize;
    let hi = if (end as usize) < src.len() {
        end as usize
    } else {
        src.len()
    };
    let ghost h = hi as int;
    let ghost base = old(out)@;
    let mut k = lo;
    assert(h == min_int(end as int, src@.len() as int));
    while k < hi && hi - k > 1
        invariant
            hi <= src@.len(),
            h == hi as int,
            hi <= u32::MAX,
            out@ + spec_ref_spans_from(src@, k as int, h) == base + spec_ref_spans_from(src@, lo as int, h),
        decreases hi - k,
    {
        if src[k] == 33u8 && src[k + 1] == 91u8 {
            let ns = k + 2;
            let ne = slice_find_byte_between(src, 93u8, ns, hi);
            proof {
                lemma_find_byte_from(src@.take(h), 93u8, ns as int);
            }
            if ne < hi {
                let ghost before = out@;
                if ne > ns {
                    out.push((ns as u32, ne as u32));
                    assert(out@ == before + seq![(ns as u32, ne as u32)]);
                } else {
                    assert(out@ == before + Seq::<(u32, u32)>::empty());
                }
                assert(before + spec_ref_spans_from(src@, k as int, h) == out@ + spec_ref_spans_from(
                    src@,
                    ne as int + 1,
                    h,
                ));
                k = ne + 1;
                continue;
            }
        }
        k += 1;
    }
    assert(spec_ref_spans_from(src@, k as int, h) =~= Seq::<(u32, u32)>::empty());
    assert(out@ =~= out@ + spec_ref_spans_from(src@, k as int, h));
}

proof fn lemma_blank_run(src: Seq<u8>, from: int, hi: int)
    requires
        from <= hi <= src.len(),
    ensures
        from <= blank_run_end(src, from, hi) <= hi,
        forall|j: int| from <= j < blank_run_end(src, from, hi) ==> is_blank(#[trigger] src[j]),
    decreases hi - from,
{
    if from < hi && is_blank(src[from]) {
        lemma_blank_run(src, from + 1, hi);
    }
}

proof fn lemma_anchor_run(src: Seq<u8>, from: int, hi: int)
    requires
        from <= hi + 1,
        hi <= src.len(),
    ensures
        from <= anchor_run_end(src, from, hi),
        from <= hi ==> anchor_run_end(src, from, hi) <= hi,
        forall|j: int| from <= j < anchor_run_end(src, from, hi) ==> spec_is_anchor_byte(#[trigger] src[j]),
    decreases hi - from,
{
    if from < hi && spec_is_anchor_byte(src[from]) {
        lemma_anchor_run(src, from + 1, hi);
    }
}

/// Declaring an anchor is a whole-line act: when a `#!` comment declares
/// one, only blanks stand between the marker and the `@`, and the key is a
/// non-empty run of anchor bytes ending inside the comment.
pub proof fn law_anchor_is_whole_line(src: Seq<u8>, start: u32, end: u32)
    requires
        start + 2 <= min_int(end as int, src.len() as int),
    ensures
        spec_doc_anchor_span(src, start, end) matches Some((s, e)) ==> {
            &&& start + 3 <= s < e <= min_int(end as int, src.len() as int)
            &&& src[s - 1] == 64u8
            &&& forall|j: int| start + 2 <= j < s - 1 ==> is_blank(#[trigger] src[j])
            &&& forall|j: int| s <= j < e ==> spec_is_anchor_byte(#[trigger] src[j])
        },
{
    let hi = min_int(end as int, src.len() as int);
    lemma_blank_run(src, start + 2, hi);
    let k = blank_run_end(src, start + 2, hi);
    lemma_anchor_run(src, k + 1, hi);
}

/// The bytes an anchor key is made of: ASCII letters and digits, `_`, `.`
/// (dotted names such as `test.0001`) and `:` (namespaces).
pub open spec fn key_byte(b: u8) -> bool {
    ||| 48 <= b <= 57
    ||| 65 <= b <= 90
    ||| 97 <= b <= 122
    ||| b == 95u8
    ||| b == 46u8
    ||| b == 58u8
}

proof fn lemma_anchor_run_stops(src: Seq<u8>, from: int, hi: int)
    requires
        from <= hi <= src.len(),
    ensures
        anchor_run_end(src, from, hi) < hi ==> !spec_is_anchor_byte(src[anchor_run_end(src, from, hi)]),
    decreases hi - from,
{
    if from < hi && spec_is_anchor_byte(src[from]) {
        lemma_anchor_run_stops(src, from + 1, hi);
    }
}

/// The anchor key is the maximal run of key bytes after the `@`: every byte
/// of the key is a letter, digit, `_`, `.` or `:`, and the byte that ends it
/// inside the comment is none of those.
pub proof fn law_anchor_key_is_maximal(src: Seq<u8>, start: u32, end: u32)
    ensures
        spec_doc_anchor_span(src, start, end) matches Some((s, e)) ==> {
            &&& forall|j: int| s <= j < e ==> key_byte(#[trigger] src[j])
            &&& e < min_int(end as int, src.len() as int) ==> !key_byte(src[e as int])
        },
{
    let hi = min_int(end as int, src.len() as int);
    let k = blank_run_end(src, min_int(start + 2, hi), hi);
    if let Some((s, e)) = spec_doc_anchor_span(src, start, end) {
        if min_int(start + 2, hi) <= hi {
            lemma_blank_run(src, min_int(start + 2, hi), hi);
        }
        lemma_anchor_run(src, k + 1, hi);
        lemma_anchor_run_stops(src, k + 1, hi);
        assert forall|j: int| s <= j < e implies key_byte(#[trigger] src[j]) by {
            assert(spec_is_anchor_byte(src[j]));
        }
    }
}

} // verus!
