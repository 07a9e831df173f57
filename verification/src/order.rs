//! Byte-lexicographic order on text, and sorted, duplicate-free name lists
//! (the order `String`'s `Ord` gives, which is what a `BTreeSet<String>`
//! iterates in).

use vstd::prelude::*;

verus! {

/// Byte-lexicographic "less than".
pub open spec fn bytes_lt(a: Seq<u8>, b: Seq<u8>) -> bool
    decreases a.len(),
{
    if a.len() == 0 {
        b.len() > 0
    } else if b.len() == 0 {
        false
    } else if a[0] < b[0] {
        true
    } else if a[0] > b[0] {
        false
    } else {
        bytes_lt(a.drop_first(), b.drop_first())
    }
}

/// `bytes_lt` is irreflexive.
pub proof fn lemma_lt_irreflexive(a: Seq<u8>)
    ensures
        !bytes_lt(a, a),
    decreases a.len(),
{
    if a.len() > 0 {
        lemma_lt_irreflexive(a.drop_first());
    }
}

/// `bytes_lt` is transitive.
pub proof fn lemma_lt_transitive(a: Seq<u8>, b: Seq<u8>, c: Seq<u8>)
    requires
        bytes_lt(a, b),
        bytes_lt(b, c),
    ensures
        bytes_lt(a, c),
    decreases a.len(),
{
    if a.len() > 0 && b.len() > 0 && c.len() > 0 && a[0] == b[0] && b[0] == c[0] {
        lemma_lt_transitive(a.drop_first(), b.drop_first(), c.drop_first());
    }
}

/// `bytes_lt` is total on distinct sequences.
pub proof fn lemma_lt_total(a: Seq<u8>, b: Seq<u8>)
    ensures
        a == b || bytes_lt(a, b) || bytes_lt(b, a),
    decreases a.len(),
{
    if a.len() > 0 && b.len() > 0 && a[0] == b[0] {
        lemma_lt_total(a.drop_first(), b.drop_first());
        if a.drop_first() == b.drop_first() {
            assert(a =~= seq![a[0]] + a.drop_first());
            assert(b =~= seq![b[0]] + b.drop_first());
        }
    } else if a.len() == 0 && b.len() == 0 {
        assert(a =~= b);
    }
}

/// `bytes_lt` is asymmetric.
pub proof fn lemma_lt_asymmetric(a: Seq<u8>, b: Seq<u8>)
    requires
        bytes_lt(a, b),
    ensures
        !bytes_lt(b, a),
    decreases a.len(),
{
    if a.len() > 0 && b.len() > 0 && a[0] == b[0] {
        lemma_lt_asymmetric(a.drop_first(), b.drop_first());
    }
}

/// Byte-lexicographic comparison of two slices.
pub fn slice_lt(a: &[u8], b: &[u8]) -> (r: bool)
    ensures
        r == bytes_lt(a@, b@),
{
    let mut i: usize = 0;
    assert(a@.skip(0) =~= a@);
    assert(b@.skip(0) =~= b@);
    while i < a.len() && i < b.len()
        invariant
            i <= a@.len(),
            i <= b@.len(),
            bytes_lt(a@, b@) == bytes_lt(a@.skip(i as int), b@.skip(i as int)),
        decreases a@.len() - i,
    {
        assert(a@.skip(i as int).drop_first() =~= a@.skip(i as int + 1));
        assert(b@.skip(i as int).drop_first() =~= b@.skip(i as int + 1));
        assert(a@.skip(i as int)[0] == a@[i as int]);
        assert(b@.skip(i as int)[0] == b@[i as int]);
        if a[i] < b[i] {
            return true;
        }
        if a[i] > b[i] {
            return false;
        }
        i += 1;
    }
    a.len() - i == 0 && b.len() - i > 0
}

/// The UTF-8 bytes of a text.
pub open spec fn enc(t: Seq<char>) -> Seq<u8> {
    vstd::utf8::encode_utf8(t)
}

/// Strictly increasing by UTF-8 bytes.
pub open spec fn sorted_texts(v: Seq<Seq<char>>) -> bool {
    forall|i: int, j: int| 0 <= i < j < v.len() ==> bytes_lt(enc(v[i]), enc(v[j]))
}

/// The elements of a list of texts, as a set.
pub open spec fn text_set(v: Seq<Seq<char>>) -> Set<Seq<char>> {
    Set::new(|t: Seq<char>| exists|i: int| 0 <= i < v.len() && v[i] == t)
}

/// The texts of `ts`, once each, in byte order.
pub open spec fn sorted_set(ts: Seq<Seq<char>>) -> Seq<Seq<char>> {
    choose|v: Seq<Seq<char>>| sorted_texts(v) && text_set(v) == text_set(ts)
}

/// Two strictly sorted lists with the same elements are equal.
pub proof fn lemma_sorted_unique(a: Seq<Seq<char>>, b: Seq<Seq<char>>)
    requires
        sorted_texts(a),
        sorted_texts(b),
        text_set(a) == text_set(b),
    ensures
        a == b,
    decreases a.len() + b.len(),
{
    if a.len() == 0 {
        if b.len() > 0 {
            assert(text_set(b).contains(b[0]));
        }
        assert(a =~= b);
    } else if b.len() == 0 {
        assert(text_set(a).contains(a[0]));
    } else {
        assert(text_set(a).contains(a[0]));
        assert(text_set(b).contains(b[0]));
        let k = choose|i: int| 0 <= i < b.len() && b[i] == a[0];
        let m = choose|i: int| 0 <= i < a.len() && a[i] == b[0];
        if k > 0 {
            // b[0] < b[k] == a[0] and a[0] <= a[m] == b[0]
            if m > 0 {
                lemma_lt_transitive(enc(b[0]), enc(a[0]), enc(a[m]));
            }
            lemma_lt_irreflexive(enc(b[0]));
        }
        assert(a[0] == b[0]);
        let a1 = a.drop_first();
        let b1 = b.drop_first();
        assert forall|t: Seq<char>| text_set(a1).contains(t) == text_set(b1).contains(t) by {
            if text_set(a1).contains(t) {
                let i = choose|i: int| 0 <= i < a1.len() && a1[i] == t;
                assert(text_set(a).contains(t));
                let j = choose|j: int| 0 <= j < b.len() && b[j] == t;
                if j == 0 {
                    assert(a[i + 1] == a[0]);
                    lemma_lt_irreflexive(enc(a[0]));
                }
                assert(b1[j - 1] == t);
            }
            if text_set(b1).contains(t) {
                let i = choose|i: int| 0 <= i < b1.len() && b1[i] == t;
                assert(text_set(b).contains(t));
                let j = choose|j: int| 0 <= j < a.len() && a[j] == t;
                if j == 0 {
                    assert(b[i + 1] == b[0]);
                    lemma_lt_irreflexive(enc(b[0]));
                }
                assert(a1[j - 1] == t);
            }
        }
        assert(text_set(a1) =~= text_set(b1));
        lemma_sorted_unique(a1, b1);
        assert(a =~= seq![a[0]] + a1);
        assert(b =~= seq![b[0]] + b1);
    }
}

/// Any strictly sorted list of the texts of `ts` is `sorted_set(ts)`.
pub proof fn lemma_is_sorted_set(v: Seq<Seq<char>>, ts: Seq<Seq<char>>)
    requires
        sorted_texts(v),
        text_set(v) == text_set(ts),
    ensures
        v == sorted_set(ts),
{
    let w = sorted_set(ts);
    assert(sorted_texts(w) && text_set(w) == text_set(ts));
    lemma_sorted_unique(v, w);
}

/// The texts of a list of strings.
pub open spec fn texts(v: Seq<String>) -> Seq<Seq<char>> {
    v.map_values(|s: String| s@)
}

/// Inserts `x` into the strictly sorted `v` unless its text is already there.
pub fn insert_sorted_unique(v: &mut Vec<String>, x: String)
    requires
        sorted_texts(texts(old(v)@)),
    ensures
        sorted_texts(texts(final(v)@)),
        text_set(texts(final(v)@)) == text_set(texts(old(v)@)).insert(x@),
{
    let ghost xb = enc(x@);
    let mut p: usize = 0;
    while p < v.len() && slice_lt(v[p].as_str().as_bytes(), x.as_str().as_bytes())
        invariant
            p <= v@.len(),
            xb == enc(x@),
            sorted_texts(texts(v@)),
            forall|k: int| 0 <= k < p ==> bytes_lt(enc(v@[k]@), xb),
        decreases v@.len() - p,
    {
        p += 1;
    }
    if p < v.len() && crate::text::slice_eq(v[p].as_str().as_bytes(), x.as_str().as_bytes()) {
        proof {
            crate::text::lemma_utf8_injective(v@[p as int]@, x@);
            assert(texts(v@)[p as int] == x@);
            assert(text_set(texts(v@)) =~= text_set(texts(v@)).insert(x@));
        }
        return;
    }
    let ghost old_v = v@;
    let ghost ot = texts(old_v);
    proof {
        if p < old_v.len() {
            lemma_lt_total(enc(old_v[p as int]@), xb);
            crate::text::lemma_utf8_injective(old_v[p as int]@, x@);
        }
    }
    v.insert(p, x);
    proof {
        let nt = texts(v@);
        assert(nt =~= ot.insert(p as int, x@));
        assert forall|i: int, j: int| 0 <= i < j < nt.len() implies bytes_lt(enc(nt[i]), enc(nt[j])) by {
            if j == p {
                assert(bytes_lt(enc(old_v[i]@), xb));
            } else if i == p {
                if j - 1 > p {
                    lemma_lt_transitive(xb, enc(ot[p as int]), enc(ot[j - 1]));
                }
            } else {
                let oi = if i < p {
                    i
                } else {
                    i - 1
                };
                let oj = if j < p {
                    j
                } else {
                    j - 1
                };
                assert(nt[i] == ot[oi] && nt[j] == ot[oj]);
            }
        }
        assert forall|t: Seq<char>| text_set(nt).contains(t) == text_set(ot).insert(x@).contains(t) by {
            if text_set(nt).contains(t) {
                let i = choose|i: int| 0 <= i < nt.len() && nt[i] == t;
                if i < p {
                    assert(nt[i] == ot[i]);
                } else if i > p {
                    assert(nt[i] == ot[i - 1]);
                }
            }
            if text_set(ot).contains(t) {
                let i = choose|i: int| 0 <= i < ot.len() && ot[i] == t;
                if i < p {
                    assert(nt[i] == ot[i]);
                } else {
                    assert(nt[i + 1] == ot[i]);
                }
            }
            if t == x@ {
                assert(nt[p as int] == x@);
            }
        }
        assert(text_set(nt) =~= text_set(ot).insert(x@));
    }
}

/// The strings of `found`, once each, in byte order.
pub fn sort_unique(found: Vec<String>) -> (r: Vec<String>)
    ensures
        texts(r@) == sorted_set(texts(found@)),
{
    let mut out: Vec<String> = Vec::new();
    let ghost ft = texts(found@);
    let mut it = found;
    let ghost all = it@;
    let mut i: usize = 0;
    assert(text_set(texts(out@)) =~= text_set(texts(all).take(0)));
    while i < it.len()
        invariant
            all == it@,
            ft == texts(all),
            i <= all.len(),
            sorted_texts(texts(out@)),
            text_set(texts(out@)) == text_set(ft.take(i as int)),
        decreases all.len() - i,
    {
        let s = it[i].clone();
        insert_sorted_unique(&mut out, s);
        proof {
            let a = ft.take(i as int + 1);
            let b = ft.take(i as int);
            assert(a =~= b.push(ft[i as int]));
            assert forall|t: Seq<char>| text_set(a).contains(t) == text_set(b).insert(ft[i as int]).contains(t) by {
                if text_set(a).contains(t) {
                    let k = choose|k: int| 0 <= k < a.len() && #[trigger] a[k] == t;
                    if k < i {
                        assert(b[k] == t);
                    }
                }
                if text_set(b).contains(t) {
                    let k = choose|k: int| 0 <= k < b.len() && #[trigger] b[k] == t;
                    assert(a[k] == t);
                }
                if t == ft[i as int] {
                    assert(a[i as int] == t);
                }
            }
            assert(text_set(ft.take(i as int + 1)) =~= text_set(ft.take(i as int)).insert(ft[i as int]));
        }
        i += 1;
    }
    proof {
        assert(ft.take(all.len() as int) =~= ft);
        lemma_is_sorted_set(texts(out@), ft);
    }
    out
}

} // verus!
