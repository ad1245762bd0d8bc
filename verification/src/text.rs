//! Byte-level helpers for strings: UTF-8 decoding and the byte order of keys.

use vstd::prelude::*;
use vstd::utf8::{decode_utf8, valid_utf8};

verus! {

/// The characters that `String::from_utf8_lossy` makes of `b`.
pub uninterp spec fn utf8_lossy(b: Seq<u8>) -> Seq<char>;

/// The characters of `b` read as UTF-8: exactly its characters when it is
/// valid, else what `String::from_utf8_lossy` makes of it.
pub open spec fn lossy_chars(b: Seq<u8>) -> Seq<char> {
    if valid_utf8(b) {
        decode_utf8(b)
    } else {
        utf8_lossy(b)
    }
}

/// Calls `String::from_utf8_lossy`. Its documentation: valid UTF-8 comes
/// back unchanged, and invalid sequences become U+FFFD; the contract states
/// the former, and names the result for the latter.
#[verifier::external_body]
pub(crate) fn string_from_utf8_lossy(b: &[u8]) -> (s: String)
    ensures
        s@ == lossy_chars(b@),
        !valid_utf8(b@) ==> s@ == utf8_lossy(b@),
{
    String::from_utf8_lossy(b).into_owned()
}

/// Lexicographic order on byte strings: `a` sorts before `b`.
pub open spec fn bytes_lt(a: Seq<u8>, b: Seq<u8>) -> bool
    decreases a.len(),
{
    if b.len() == 0 {
        false
    } else if a.len() == 0 {
        true
    } else if a[0] != b[0] {
        a[0] < b[0]
    } else {
        bytes_lt(a.subrange(1, a.len() as int), b.subrange(1, b.len() as int))
    }
}

/// Whether `a` and `b` agree before position `k` and `a` has the smaller
/// byte there.
pub open spec fn smaller_at(a: Seq<u8>, b: Seq<u8>, k: int) -> bool {
    &&& 0 <= k < a.len()
    &&& k < b.len()
    &&& a.subrange(0, k) == b.subrange(0, k)
    &&& a[k] < b[k]
}

/// Byte order is lexicographic: `a` sorts before `b` exactly when, at the
/// first position where they differ, `a` has the smaller byte, or when `a`
/// is a proper prefix of `b`.
pub proof fn lemma_bytes_lt_meaning(a: Seq<u8>, b: Seq<u8>)
    ensures
        bytes_lt(a, b) == ((exists|k: int| #[trigger] smaller_at(a, b, k)) || (a.len() < b.len() && a
            == b.subrange(0, a.len() as int))),
    decreases a.len(),
{
    if b.len() == 0 {
        assert(!(exists|k: int| #[trigger] smaller_at(a, b, k)));
    } else if a.len() == 0 {
        assert(a =~= b.subrange(0, 0));
    } else if a[0] != b[0] {
        if a[0] < b[0] {
            assert(a.subrange(0, 0) =~= b.subrange(0, 0));
            assert(smaller_at(a, b, 0));
        } else {
            assert forall|k: int| !#[trigger] smaller_at(a, b, k) by {
                if 0 < k < a.len() && k < b.len() && a.subrange(0, k) == b.subrange(0, k) {
                    assert(a.subrange(0, k)[0] == b.subrange(0, k)[0]);
                }
            }
            if a.len() < b.len() && a == b.subrange(0, a.len() as int) {
                assert(a[0] == b.subrange(0, a.len() as int)[0]);
            }
        }
    } else {
        let at = a.subrange(1, a.len() as int);
        let bt = b.subrange(1, b.len() as int);
        lemma_bytes_lt_meaning(at, bt);
        if exists|k: int| #[trigger] smaller_at(at, bt, k) {
            let k = choose|k: int| #[trigger] smaller_at(at, bt, k);
            assert(a.subrange(0, k + 1) =~= seq![a[0]] + at.subrange(0, k));
            assert(b.subrange(0, k + 1) =~= seq![b[0]] + bt.subrange(0, k));
            assert(smaller_at(a, b, k + 1));
        }
        if exists|k: int| #[trigger] smaller_at(a, b, k) {
            let k = choose|k: int| #[trigger] smaller_at(a, b, k);
            assert(k != 0);
            assert(at.subrange(0, k - 1) =~= a.subrange(0, k).subrange(1, k));
            assert(bt.subrange(0, k - 1) =~= b.subrange(0, k).subrange(1, k));
            assert(smaller_at(at, bt, k - 1));
        }
        if at.len() < bt.len() && at == bt.subrange(0, at.len() as int) {
            assert forall|i: int| 0 <= i < a.len() implies a[i] == b.subrange(0, a.len() as int)[i] by {
                if i > 0 {
                    assert(a[i] == at[i - 1]);
                    assert(at[i - 1] == bt.subrange(0, at.len() as int)[i - 1]);
                }
            }
            assert(a =~= b.subrange(0, a.len() as int));
        }
        if a.len() < b.len() && a == b.subrange(0, a.len() as int) {
            assert(at =~= bt.subrange(0, at.len() as int));
        }
    }
}

/// Whether `a` sorts before `b` in byte order: the order of a `BTreeMap`
/// keyed by `String`.
pub fn bytes_less(a: &[u8], b: &[u8]) -> (r: bool)
    ensures
        r == bytes_lt(a@, b@),
{
    let mut i: usize = 0;
    assert(a@.subrange(0, a@.len() as int) =~= a@);
    assert(b@.subrange(0, b@.len() as int) =~= b@);
    while i < a.len() && i < b.len()
        invariant
            i <= a@.len(),
            i <= b@.len(),
            bytes_lt(a@, b@) == bytes_lt(a@.subrange(i as int, a@.len() as int), b@.subrange(i as int, b@.len() as int)),
        decreases a.len() - i,
    {
        let ghost x = a@.subrange(i as int, a@.len() as int);
        let ghost y = b@.subrange(i as int, b@.len() as int);
        if a[i] != b[i] {
            return a[i] < b[i];
        }
        assert(x.subrange(1, x.len() as int) =~= a@.subrange(i + 1, a@.len() as int));
        assert(y.subrange(1, y.len() as int) =~= b@.subrange(i + 1, b@.len() as int));
        i += 1;
    }
    i < b.len()
}

/// Byte order is irreflexive.
pub proof fn lemma_bytes_lt_irreflexive(a: Seq<u8>)
    ensures
        !bytes_lt(a, a),
    decreases a.len(),
{
    if a.len() > 0 {
        lemma_bytes_lt_irreflexive(a.subrange(1, a.len() as int));
    }
}

/// Byte order is asymmetric.
pub proof fn lemma_bytes_lt_asymmetric(a: Seq<u8>, b: Seq<u8>)
    ensures
        bytes_lt(a, b) ==> !bytes_lt(b, a),
    decreases a.len(),
{
    if a.len() > 0 && b.len() > 0 && a[0] == b[0] {
        lemma_bytes_lt_asymmetric(a.subrange(1, a.len() as int), b.subrange(1, b.len() as int));
    }
}

/// Byte order is transitive.
pub proof fn lemma_bytes_lt_transitive(a: Seq<u8>, b: Seq<u8>, c: Seq<u8>)
    ensures
        bytes_lt(a, b) && bytes_lt(b, c) ==> bytes_lt(a, c),
    decreases a.len(),
{
    if a.len() > 0 && b.len() > 0 && c.len() > 0 && a[0] == b[0] && b[0] == c[0] {
        lemma_bytes_lt_transitive(
            a.subrange(1, a.len() as int),
            b.subrange(1, b.len() as int),
            c.subrange(1, c.len() as int),
        );
    }
}

/// Byte order is total on distinct strings.
pub proof fn lemma_bytes_lt_total(a: Seq<u8>, b: Seq<u8>)
    ensures
        a != b ==> bytes_lt(a, b) || bytes_lt(b, a),
    decreases a.len(),
{
    if a.len() == 0 && b.len() == 0 {
        assert(a =~= b);
    } else if a.len() > 0 && b.len() > 0 && a[0] == b[0] {
        let x = a.subrange(1, a.len() as int);
        let y = b.subrange(1, b.len() as int);
        lemma_bytes_lt_total(x, y);
        if x == y {
            assert(a =~= seq![a[0]] + x);
            assert(b =~= seq![b[0]] + y);
        }
    }
}

} // verus!
