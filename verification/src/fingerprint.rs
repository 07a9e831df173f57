//! The single source of truth for cache hashing: the content fingerprint of a
//! file's bytes, and the entry file name of a source path.

use sha2::{Digest, Sha256};
use vstd::prelude::*;
use vstd::string::StringSliceAdditionalSpecFns;

verus! {

/// The SHA-256 digest of a byte string (FIPS 180-4), as computed by the
/// `sha2` crate.
pub uninterp spec fn sha256_digest(data: Seq<u8>) -> Seq<u8>;

/// SHA-256 of a file's raw bytes — the ground-truth freshness check.
///
/// Calls `sha2::Sha256::digest`; its contract claims only that the 32 bytes
/// returned are the SHA-256 digest of `src`, and that equal inputs give equal
/// digests (which `sha256_digest` being a function already says).
#[verifier::external_body]
pub fn content_hash(src: &[u8]) -> (h: [u8; 32])
    ensures
        h@ == sha256_digest(src@),
{
    Sha256::digest(src).into()
}

// ---------------------------------------------------------------------------
// Lexical path cleaning.

/// Whether a path is rooted (starts with `/`).
pub open spec fn is_rooted(p: Seq<u8>) -> bool {
    p.len() > 0 && p[0] == 47u8
}

/// The path element `.`.
pub open spec fn is_dot(s: Seq<u8>) -> bool {
    s == seq![46u8]
}

/// The path element `..`.
pub open spec fn is_dot_dot(s: Seq<u8>) -> bool {
    s == seq![46u8, 46u8]
}

/// Pushes one path element onto the stack of kept elements: empty elements
/// and `.` vanish; `..` removes the element before it, vanishes at the root
/// of a rooted path, and is kept otherwise.
pub open spec fn push_element(st: Seq<Seq<u8>>, e: Seq<u8>, rooted: bool) -> Seq<Seq<u8>> {
    if e.len() == 0 || is_dot(e) {
        st
    } else if is_dot_dot(e) {
        if st.len() > 0 && !is_dot_dot(st.last()) {
            st.drop_last()
        } else if rooted {
            st
        } else {
            st.push(e)
        }
    } else {
        st.push(e)
    }
}

/// The kept elements and the element being read after the first `i` bytes
/// of `p`.
pub open spec fn scan_path(p: Seq<u8>, i: nat) -> (Seq<Seq<u8>>, Seq<u8>)
    decreases i,
{
    if i == 0 || i > p.len() {
        (Seq::empty(), Seq::empty())
    } else {
        let prev = scan_path(p, (i - 1) as nat);
        if p[i - 1] == 47u8 {
            (push_element(prev.0, prev.1, is_rooted(p)), Seq::empty())
        } else {
            (prev.0, prev.1.push(p[i - 1]))
        }
    }
}

/// The elements a cleaned path keeps, in order.
pub open spec fn clean_elements(p: Seq<u8>) -> Seq<Seq<u8>> {
    let end = scan_path(p, p.len());
    push_element(end.0, end.1, is_rooted(p))
}

/// Path elements joined by `/`.
pub open spec fn join_elements(st: Seq<Seq<u8>>) -> Seq<u8>
    decreases st.len(),
{
    if st.len() == 0 {
        Seq::empty()
    } else if st.len() == 1 {
        st[0]
    } else {
        join_elements(st.drop_last()) + seq![47u8] + st.last()
    }
}

/// The shortest path equivalent to `p` by purely lexical processing: `/`
/// runs collapse, `.` elements vanish, each `..` removes the element before
/// it, `..` at the root of a rooted path vanishes, and an empty result is
/// `.`.
pub open spec fn clean_path(p: Seq<u8>) -> Seq<u8> {
    let body = join_elements(clean_elements(p));
    if is_rooted(p) {
        seq![47u8] + body
    } else if body.len() == 0 {
        seq![46u8]
    } else {
        body
    }
}

/// The contents of some owned element buffers.
pub open spec fn element_views(v: Seq<Vec<u8>>) -> Seq<Seq<u8>> {
    v.map_values(|e: Vec<u8>| e@)
}

fn is_dot_dot_exec(e: &[u8]) -> (r: bool)
    ensures
        r == is_dot_dot(e@),
{
    if e.len() == 2 && e[0] == 46u8 && e[1] == 46u8 {
        assert(e@ =~= seq![46u8, 46u8]);
        true
    } else {
        false
    }
}

fn push_element_exec(st: &mut Vec<Vec<u8>>, e: Vec<u8>, rooted: bool)
    ensures
        element_views(final(st)@) == push_element(element_views(old(st)@), e@, rooted),
{
    let ghost base = element_views(st@);
    if e.len() == 0 || (e.len() == 1 && e[0] == 46u8) {
        proof {
            if e@.len() == 1 {
                assert(e@ =~= seq![46u8]);
            }
        }
        return;
    }
    assert(!is_dot(e@));
    if is_dot_dot_exec(&e) {
        let n = st.len();
        if n > 0 && !is_dot_dot_exec(&st[n - 1]) {
            st.pop();
            assert(element_views(st@) =~= base.drop_last());
        } else if !rooted {
            st.push(e);
            assert(element_views(st@) =~= base.push(e@));
        }
    } else {
        st.push(e);
        assert(element_views(st@) =~= base.push(e@));
    }
}

proof fn lemma_join_step(st: Seq<Seq<u8>>, k: int)
    requires
        1 <= k < st.len(),
    ensures
        join_elements(st.take(k + 1)) == join_elements(st.take(k)) + seq![47u8] + st[k],
{
    assert(st.take(k + 1).drop_last() =~= st.take(k));
}

/// The lexically cleaned form of a path's bytes (see [`clean_path`]).
pub fn clean_bytes(p: &[u8]) -> (r: Vec<u8>)
    ensures
        r@ == clean_path(p@),
{
    let rooted = p.len() > 0 && p[0] == 47u8;
    let mut st: Vec<Vec<u8>> = Vec::new();
    let mut cur: Vec<u8> = Vec::new();
    let mut i: usize = 0;
    assert(element_views(st@) =~= Seq::<Seq<u8>>::empty());
    assert(cur@ =~= Seq::<u8>::empty());
    while i < p.len()
        invariant
            i <= p@.len(),
            rooted == is_rooted(p@),
            (element_views(st@), cur@) == scan_path(p@, i as nat),
        decreases p@.len() - i,
    {
        if p[i] == 47u8 {
            let e = cur;
            cur = Vec::new();
            push_element_exec(&mut st, e, rooted);
            assert(cur@ =~= Seq::<u8>::empty());
        } else {
            cur.push(p[i]);
        }
        i += 1;
    }
    push_element_exec(&mut st, cur, rooted);
    let ghost els = element_views(st@);
    assert(els == clean_elements(p@));
    let mut out: Vec<u8> = Vec::new();
    if rooted {
        out.push(47u8);
    }
    let ghost lead = out@;
    let mut k: usize = 0;
    assert(els.take(0) =~= Seq::<Seq<u8>>::empty());
    assert(out@ =~= lead + join_elements(els.take(0)));
    while k < st.len()
        invariant
            k <= els.len(),
            els == element_views(st@),
            out@ == lead + join_elements(els.take(k as int)),
        decreases els.len() - k,
    {
        let ghost before = out@;
        if k > 0 {
            out.push(47u8);
        }
        let e = &st[k];
        let ghost mid = out@;
        let mut j: usize = 0;
        while j < e.len()
            invariant
                j <= e@.len(),
                out@ == mid + e@.take(j as int),
            decreases e@.len() - j,
        {
            out.push(e[j]);
            assert(e@.take(j as int + 1) =~= e@.take(j as int).push(e@[j as int]));
            j += 1;
        }
        assert(e@.take(e@.len() as int) =~= e@);
        assert(els[k as int] == e@);
        proof {
            if k == 0 {
                assert(els.take(1) =~= seq![els[0]]);
                assert(out@ =~= lead + join_elements(els.take(1)));
            } else {
                lemma_join_step(els, k as int);
                assert(out@ =~= lead + join_elements(els.take(k as int + 1)));
            }
        }
        k += 1;
    }
    assert(els.take(els.len() as int) =~= els);
    if out.len() == 0 {
        out.push(46u8);
        assert(out@ =~= seq![46u8]);
    } else {
        assert(!rooted ==> out@ =~= join_elements(els));
        assert(rooted ==> out@ =~= seq![47u8] + join_elements(els));
    }
    out
}

/// No byte of `e` is a separator.
pub open spec fn no_separator(e: Seq<u8>) -> bool {
    forall|x: int| 0 <= x < e.len() ==> e[x] != 47u8
}

/// Kept elements are well formed: non-empty, separator-free and not `.`;
/// every `..` precedes every other element; a rooted path keeps no `..`.
pub open spec fn elements_ok(st: Seq<Seq<u8>>, rooted: bool) -> bool {
    &&& forall|i: int| 0 <= i < st.len() ==> (#[trigger] st[i]).len() > 0 && !is_dot(st[i]) && no_separator(st[i])
    &&& forall|i: int, j: int| 0 <= i < j < st.len() && is_dot_dot(#[trigger] st[j]) ==> is_dot_dot(#[trigger] st[i])
    &&& rooted ==> forall|i: int| 0 <= i < st.len() ==> !is_dot_dot(#[trigger] st[i])
}

proof fn lemma_elements_ok_take(st: Seq<Seq<u8>>, rooted: bool, k: int)
    requires
        elements_ok(st, rooted),
        0 <= k <= st.len(),
    ensures
        elements_ok(st.take(k), rooted),
{
    let t = st.take(k);
    assert forall|i: int, j: int| 0 <= i < j < t.len() && is_dot_dot(#[trigger] t[j]) implies is_dot_dot(#[trigger] t[i]) by {
        assert(t[j] == st[j] && t[i] == st[i]);
    }
    assert forall|i: int| 0 <= i < t.len() implies (#[trigger] t[i]).len() > 0 && !is_dot(t[i]) && no_separator(t[i]) by {
        assert(t[i] == st[i]);
    }
    assert forall|i: int| rooted && 0 <= i < t.len() implies !is_dot_dot(#[trigger] t[i]) by {
        assert(t[i] == st[i]);
    }
}

proof fn lemma_push_element_ok(st: Seq<Seq<u8>>, e: Seq<u8>, rooted: bool)
    requires
        elements_ok(st, rooted),
        no_separator(e),
    ensures
        elements_ok(push_element(st, e, rooted), rooted),
{
    let r = push_element(st, e, rooted);
    if e.len() == 0 || is_dot(e) {
    } else if is_dot_dot(e) {
        if st.len() > 0 && !is_dot_dot(st.last()) {
            lemma_elements_ok_take(st, rooted, st.len() - 1);
            assert(r =~= st.take(st.len() - 1));
        } else if !rooted {
            assert forall|i: int, j: int| 0 <= i < j < r.len() && is_dot_dot(#[trigger] r[j]) implies is_dot_dot(#[trigger] r[i]) by {
                assert(r[i] == st[i]);
                if j < st.len() {
                    assert(r[j] == st[j]);
                } else {
                    assert(is_dot_dot(st[st.len() - 1]));
                }
            }
            assert forall|i: int| 0 <= i < r.len() implies (#[trigger] r[i]).len() > 0 && !is_dot(r[i]) && no_separator(r[i]) by {
                if i < st.len() {
                    assert(r[i] == st[i]);
                } else {
                    assert(r[i] == e);
                    assert(e == seq![46u8, 46u8]);
                }
            }
        }
    } else {
        assert forall|i: int, j: int| 0 <= i < j < r.len() && is_dot_dot(#[trigger] r[j]) implies is_dot_dot(#[trigger] r[i]) by {
            assert(r[i] == st[i]);
            assert(j < st.len());
            assert(r[j] == st[j]);
        }
        assert forall|i: int| 0 <= i < r.len() implies (#[trigger] r[i]).len() > 0 && !is_dot(r[i]) && no_separator(r[i]) by {
            if i < st.len() {
                assert(r[i] == st[i]);
            }
        }
        assert forall|i: int| rooted && 0 <= i < r.len() implies !is_dot_dot(#[trigger] r[i]) by {
            if i < st.len() {
                assert(r[i] == st[i]);
            }
        }
    }
}

proof fn lemma_scan_ok(p: Seq<u8>, i: nat)
    requires
        i <= p.len(),
    ensures
        elements_ok(scan_path(p, i).0, is_rooted(p)),
        no_separator(scan_path(p, i).1),
    decreases i,
{
    if i > 0 {
        lemma_scan_ok(p, (i - 1) as nat);
        let prev = scan_path(p, (i - 1) as nat);
        if p[i - 1] == 47u8 {
            lemma_push_element_ok(prev.0, prev.1, is_rooted(p));
        } else {
            let c = prev.1.push(p[i - 1]);
            assert forall|x: int| 0 <= x < c.len() implies c[x] != 47u8 by {
                if x < prev.1.len() {
                    assert(c[x] == prev.1[x]);
                }
            }
        }
    }
}

/// A well-formed element is pushed as is.
proof fn lemma_push_plain(st: Seq<Seq<u8>>, e: Seq<u8>, rooted: bool)
    requires
        elements_ok(st.push(e), rooted),
    ensures
        push_element(st, e, rooted) == st.push(e),
{
    let r = st.push(e);
    assert(r[st.len() as int] == e);
    if is_dot_dot(e) && st.len() > 0 {
        assert(r[st.len() - 1] == st.last());
        assert(is_dot_dot(r[st.len() - 1]));
    }
}

/// Joining a prefix of the elements gives a prefix of the whole join.
proof fn lemma_join_prefix(els: Seq<Seq<u8>>, j: int, m: int)
    requires
        0 <= j <= m <= els.len(),
    ensures
        join_elements(els.take(j)).len() <= join_elements(els.take(m)).len(),
        forall|x: int| 0 <= x < join_elements(els.take(j)).len() ==> join_elements(els.take(m))[x] == join_elements(els.take(j))[x],
    decreases m - j,
{
    if j < m {
        lemma_join_prefix(els, j, m - 1);
        if m >= 2 {
            lemma_join_step(els, m - 1);
        } else {
            assert(els.take(0).len() == 0);
        }
    }
}

proof fn lemma_scan_element(q: Seq<u8>, base: int, st: Seq<Seq<u8>>, e: Seq<u8>, m: int)
    requires
        0 <= base,
        0 <= m <= e.len(),
        base + e.len() <= q.len(),
        forall|x: int| 0 <= x < e.len() ==> q[base + x] == e[x],
        no_separator(e),
        scan_path(q, base as nat) == (st, Seq::<u8>::empty()),
    ensures
        scan_path(q, (base + m) as nat) == (st, e.take(m)),
    decreases m,
{
    if m > 0 {
        lemma_scan_element(q, base, st, e, m - 1);
        assert(q[base + m - 1] == e[m - 1]);
        assert(e.take(m) =~= e.take(m - 1).push(e[m - 1]));
    } else {
        assert(e.take(0) =~= Seq::<u8>::empty());
    }
}

proof fn lemma_scan_joined(q: Seq<u8>, pre: int, els: Seq<Seq<u8>>, k: int)
    requires
        elements_ok(els, is_rooted(q)),
        1 <= k <= els.len(),
        0 <= pre,
        pre + join_elements(els).len() <= q.len(),
        forall|x: int| 0 <= x < join_elements(els).len() ==> q[pre + x] == join_elements(els)[x],
        scan_path(q, pre as nat) == (Seq::<Seq<u8>>::empty(), Seq::<u8>::empty()),
    ensures
        scan_path(q, (pre + join_elements(els.take(k)).len()) as nat) == (els.take(k - 1), els[k - 1]),
    decreases k,
{
    assert(els.take(els.len() as int) =~= els);
    lemma_join_prefix(els, k, els.len() as int);
    let jk = join_elements(els.take(k));
    if k == 1 {
        assert(els.take(1) =~= seq![els[0]]);
        assert(jk == els[0]);
        assert(els.take(0) =~= Seq::<Seq<u8>>::empty());
        lemma_scan_element(q, pre, Seq::empty(), els[0], els[0].len() as int);
        assert(els[0].take(els[0].len() as int) =~= els[0]);
    } else {
        lemma_scan_joined(q, pre, els, k - 1);
        lemma_join_step(els, k - 1);
        let jp = join_elements(els.take(k - 1));
        let at = pre + jp.len();
        assert(jk == jp + seq![47u8] + els[k - 1]);
        assert(jk[jp.len() as int] == 47u8);
        assert(q[at] == 47u8);
        lemma_elements_ok_take(els, is_rooted(q), k - 1);
        assert(els.take(k - 2).push(els[k - 2]) =~= els.take(k - 1));
        lemma_push_plain(els.take(k - 2), els[k - 2], is_rooted(q));
        assert(scan_path(q, (at + 1) as nat) == (els.take(k - 1), Seq::<u8>::empty()));
        let e = els[k - 1];
        assert forall|x: int| 0 <= x < e.len() implies q[at + 1 + x] == e[x] by {
            assert(jk[jp.len() + 1 + x] == e[x]);
        }
        lemma_scan_element(q, at + 1, els.take(k - 1), e, e.len() as int);
        assert(e.take(e.len() as int) =~= e);
    }
}

/// Cleaning is idempotent: a cleaned path is already clean, so a path and
/// its cleaned form name the same cache entry.
pub proof fn law_clean_is_idempotent(p: Seq<u8>)
    ensures
        clean_path(clean_path(p)) == clean_path(p),
{
    let els = clean_elements(p);
    let r = is_rooted(p);
    let end = scan_path(p, p.len());
    lemma_scan_ok(p, p.len());
    lemma_push_element_ok(end.0, end.1, r);
    let body = join_elements(els);
    let q = clean_path(p);
    assert(els.take(els.len() as int) =~= els);
    if !r && body.len() == 0 {
        assert(q == seq![46u8]);
        assert(scan_path(q, 0) == (Seq::<Seq<u8>>::empty(), Seq::<u8>::empty()));
        assert(Seq::<u8>::empty().push(46u8) =~= seq![46u8]);
        assert(scan_path(q, 1) == (Seq::<Seq<u8>>::empty(), seq![46u8]));
        assert(clean_elements(q) =~= Seq::<Seq<u8>>::empty());
        return;
    }
    let pre: int = if r { 1 } else { 0 };
    assert(q =~= if r { seq![47u8] + body } else { body });
    assert forall|x: int| 0 <= x < body.len() implies q[pre + x] == body[x] by {}
    if r {
        assert(scan_path(q, 0) == (Seq::<Seq<u8>>::empty(), Seq::<u8>::empty()));
        assert(scan_path(q, 1) == (push_element(Seq::<Seq<u8>>::empty(), Seq::<u8>::empty(), true), Seq::<u8>::empty()));
        assert(is_rooted(q));
    } else {
        assert(els.len() > 0);
        lemma_join_prefix(els, 1, els.len() as int);
        assert(els.take(1) =~= seq![els[0]]);
        assert(body[0] == els[0][0]);
        assert(!is_rooted(q));
    }
    assert(scan_path(q, pre as nat) == (Seq::<Seq<u8>>::empty(), Seq::<u8>::empty()));
    if els.len() == 0 {
        assert(q.len() == 1);
        assert(clean_elements(q) =~= Seq::<Seq<u8>>::empty());
    } else {
        let n = els.len() as int;
        lemma_scan_joined(q, pre, els, n);
        assert(q.len() == pre + body.len());
        assert(els.take(n - 1).push(els[n - 1]) =~= els);
        lemma_push_plain(els.take(n - 1), els[n - 1], r);
        assert(clean_elements(q) == els);
    }
}

// ---------------------------------------------------------------------------
// Hex names.

/// The lowercase hexadecimal digits.
pub open spec fn hex_digit(n: int) -> char {
    "0123456789abcdef"@[n]
}

/// Each byte as two lowercase hexadecimal digits, most significant first.
pub open spec fn hex_text(bytes: Seq<u8>) -> Seq<char>
    decreases bytes.len(),
{
    if bytes.len() == 0 {
        Seq::empty()
    } else {
        hex_text(bytes.drop_last()) + seq![
            hex_digit(bytes.last() as int / 16),
            hex_digit(bytes.last() as int % 16),
        ]
    }
}

/// `hex_text` doubles the length.
pub proof fn lemma_hex_text_len(bytes: Seq<u8>)
    ensures
        hex_text(bytes).len() == 2 * bytes.len(),
    decreases bytes.len(),
{
    if bytes.len() > 0 {
        lemma_hex_text_len(bytes.drop_last());
    }
}

fn push_hex_digit(out: &mut String, n: u8)
    requires
        n < 16,
    ensures
        final(out)@ == old(out)@.push(hex_digit(n as int)),
{
    let digits = "0123456789abcdef";
    proof {
        reveal_strlit("0123456789abcdef");
    }
    let d = digits.substring_ascii(n as usize, n as usize + 1);
    assert(d@ =~= seq![hex_digit(n as int)]);
    out.append(d);
}

/// The on-disk entry file name for a source path:
/// `hex(sha256(clean(path))).bin`.
///
/// Hashed by *path*: stable filesystem-safe names of fixed length, and
/// re-caching a file overwrites its single entry. The path is lexically
/// cleaned first so `a/./b` and `a/b` share an entry.
pub fn entry_file_name(path: &str) -> (name: String)
    ensures
        name@ == hex_text(sha256_digest(clean_path(path.spec_bytes()))) + ".bin"@,
        name@.len() == 68,
{
    let cleaned = clean_bytes(path.as_bytes());
    let hash = content_hash(&cleaned);
    let ghost h = hash@;
    let mut name = String::new();
    let mut i: usize = 0;
    assert(h.take(0) =~= Seq::<u8>::empty());
    while i < 32
        invariant
            i <= 32,
            h == hash@,
            h.len() == 32,
            name@ == hex_text(h.take(i as int)),
        decreases 32 - i,
    {
        let b = hash[i];
        push_hex_digit(&mut name, b / 16);
        push_hex_digit(&mut name, b % 16);
        assert(h.take(i as int + 1).drop_last() =~= h.take(i as int));
        i += 1;
    }
    assert(h.take(32) =~= h);
    let ext = ".bin";
    proof {
        reveal_strlit(".bin");
        lemma_hex_text_len(h);
    }
    name.append(ext);
    name
}

} // verus!
