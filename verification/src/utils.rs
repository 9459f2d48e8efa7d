use vstd::prelude::*;

verus! {

/// Strict lexicographic order on byte strings, comparing from position `i` on.
pub open spec fn lex_lt_from(a: Seq<u8>, b: Seq<u8>, i: int) -> bool
    decreases b.len() - i,
{
    if i < 0 || i >= b.len() {
        false
    } else if i >= a.len() {
        true
    } else if a[i] < b[i] {
        true
    } else if a[i] > b[i] {
        false
    } else {
        lex_lt_from(a, b, i + 1)
    }
}

/// Strict lexicographic order on byte strings.
pub open spec fn lex_lt(a: Seq<u8>, b: Seq<u8>) -> bool {
    lex_lt_from(a, b, 0)
}

/// The canonical key of a word: the lexicographically smaller of the word and
/// its reverse, so that mirror-symmetric entries fold into one index slot.
pub open spec fn canonical_spec(w: Seq<u8>) -> Seq<u8> {
    if lex_lt(w.reverse(), w) {
        w.reverse()
    } else {
        w
    }
}

/// Lexicographic order is irreflexive from any position.
pub proof fn lemma_lex_irrefl(a: Seq<u8>, i: int)
    ensures
        !lex_lt_from(a, a, i),
    decreases a.len() - i,
{
    if 0 <= i < a.len() {
        lemma_lex_irrefl(a, i + 1);
    }
}

/// At most one of two strings is strictly smaller than the other.
pub proof fn lemma_lex_asym(a: Seq<u8>, b: Seq<u8>, i: int)
    ensures
        !(lex_lt_from(a, b, i) && lex_lt_from(b, a, i)),
    decreases b.len() - i,
{
    if 0 <= i && i < a.len() && i < b.len() && a[i] == b[i] {
        lemma_lex_asym(a, b, i + 1);
    }
}

/// Two strings of one length are equal or one is strictly smaller.
pub proof fn lemma_lex_total(a: Seq<u8>, b: Seq<u8>, i: int)
    requires
        a.len() == b.len(),
        0 <= i,
        forall|j: int| 0 <= j < i ==> a[j] == b[j],
    ensures
        a == b || lex_lt_from(a, b, i) || lex_lt_from(b, a, i),
    decreases a.len() - i,
{
    if i >= a.len() {
        assert(a =~= b);
    } else if a[i] == b[i] {
        lemma_lex_total(a, b, i + 1);
    }
}

/// The canonical key is the word or its reverse, has the word's length, and
/// is shared by the word and its reverse.
pub proof fn lemma_canonical_pair(w: Seq<u8>)
    ensures
        canonical_spec(w) == w || canonical_spec(w) == w.reverse(),
        canonical_spec(w).len() == w.len(),
        canonical_spec(w.reverse()) == canonical_spec(w),
{
    let r = w.reverse();
    assert(r.reverse() =~= w);
    lemma_lex_irrefl(w, 0);
    lemma_lex_irrefl(r, 0);
    if w == r {
    } else {
        lemma_lex_total(r, w, 0);
        lemma_lex_asym(r, w, 0);
        if lex_lt(r, w) {
            assert(canonical_spec(w) == r);
            assert(canonical_spec(r) == r);
        } else {
            assert(lex_lt(w, r));
            assert(canonical_spec(w) == w);
            assert(canonical_spec(r) == w);
        }
    }
}

/// Two words share a canonical key exactly when one is the other, forward or
/// reversed.
pub proof fn lemma_canonical_eq(x: Seq<u8>, y: Seq<u8>)
    ensures
        (canonical_spec(x) == canonical_spec(y)) == (x == y || x == y.reverse()),
{
    lemma_canonical_pair(x);
    lemma_canonical_pair(y);
    assert(x.reverse().reverse() =~= x);
    assert(y.reverse().reverse() =~= y);
    if x == y.reverse() {
        lemma_canonical_pair(y.reverse());
    }
    if canonical_spec(x) == canonical_spec(y) {
        if canonical_spec(x) == x {
            if canonical_spec(y) == y {
            } else {
                assert(x == y.reverse());
            }
        } else {
            assert(canonical_spec(x) == x.reverse());
            if canonical_spec(y) == y {
                assert(x.reverse() == y);
                assert(x == y.reverse());
            } else {
                assert(x.reverse() == y.reverse());
                assert(x =~= y);
            }
        }
    }
}

/// Whether `word` reads the same forward and backward.
pub fn is_palindrome(word: &[u8]) -> (r: bool)
    ensures
        r == (word@ == word@.reverse()),
{
    let len = word.len();
    let half = len / 2;
    let mut i: usize = 0;
    while i < half
        invariant
            half == len / 2,
            len == word@.len(),
            i <= half,
            forall|k: int| 0 <= k < i ==> #[trigger] word@[k] == word@[len - 1 - k],
        decreases half - i,
    {
        if word[i] != word[len - 1 - i] {
            proof {
                assert(word@.reverse()[i as int] == word@[len - 1 - i]);
            }
            return false;
        }
        i += 1;
    }
    proof {
        assert forall|k: int| 0 <= k < len implies word@.reverse()[k] == word@[k] by {
            assert(word@.reverse()[k] == word@[len - 1 - k]);
            if k < half {
            } else if len - 1 - k < half {
                assert(word@[len - 1 - k] == word@[len - 1 - (len - 1 - k)]);
            } else {
                assert(k == len - 1 - k);
            }
        }
        assert(word@ =~= word@.reverse());
    }
    true
}

/// A copy of `word` with its bytes in reverse order.
pub fn reverse_bytes(word: &[u8]) -> (r: Vec<u8>)
    ensures
        r@ == word@.reverse(),
{
    let len = word.len();
    let mut out: Vec<u8> = Vec::new();
    let mut i: usize = 0;
    while i < len
        invariant
            len == word@.len(),
            i <= len,
            out@.len() == i,
            forall|k: int| 0 <= k < i ==> out@[k] == word@[len - 1 - k],
        decreases len - i,
    {
        out.push(word[len - 1 - i]);
        i += 1;
    }
    proof {
        assert(out@ =~= word@.reverse());
    }
    out
}

/// Whether two byte strings hold the same bytes.
pub fn bytes_eq(a: &[u8], b: &[u8]) -> (r: bool)
    ensures
        r == (a@ == b@),
{
    if a.len() != b.len() {
        return false;
    }
    let len = a.len();
    let mut i: usize = 0;
    while i < len
        invariant
            len == a@.len() == b@.len(),
            i <= len,
            forall|k: int| 0 <= k < i ==> a@[k] == b@[k],
        decreases len - i,
    {
        if a[i] != b[i] {
            return false;
        }
        i += 1;
    }
    proof {
        assert(a@ =~= b@);
    }
    true
}

/// Whether `a` is strictly lexicographically smaller than `b`.
pub fn lex_less(a: &[u8], b: &[u8]) -> (r: bool)
    ensures
        r == lex_lt(a@, b@),
{
    let mut i: usize = 0;
    loop
        invariant
            i <= a@.len(),
            i <= b@.len(),
            lex_lt(a@, b@) == lex_lt_from(a@, b@, i as int),
        decreases b@.len() - i,
    {
        if i >= b.len() {
            return false;
        }
        if i >= a.len() {
            return true;
        }
        if a[i] < b[i] {
            return true;
        }
        if a[i] > b[i] {
            return false;
        }
        i += 1;
    }
}

/// The canonical key of `word`: the lexicographically smaller of the word and
/// its byte-reverse.
pub fn canonical_order(word: &[u8]) -> (r: Vec<u8>)
    ensures
        r@ == canonical_spec(word@),
{
    let rev = reverse_bytes(word);
    if lex_less(rev.as_slice(), word) {
        rev
    } else {
        vstd::slice::slice_to_vec(word)
    }
}

/// Compares `pivot` against each of `iters`: one flag per entry, true exactly
/// when that entry holds the same bytes as `pivot`.
pub fn many_iter_eq(pivot: &[u8], iters: &[Vec<u8>]) -> (r: Vec<bool>)
    ensures
        r@.len() == iters@.len(),
        forall|k: int| 0 <= k < iters@.len() ==> r@[k] == (iters@[k]@ == pivot@),
{
    let mut out: Vec<bool> = Vec::new();
    let mut i: usize = 0;
    while i < iters.len()
        invariant
            i <= iters@.len(),
            out@.len() == i,
            forall|k: int| 0 <= k < i ==> out@[k] == (iters@[k]@ == pivot@),
        decreases iters@.len() - i,
    {
        out.push(bytes_eq(iters[i].as_slice(), pivot));
        i += 1;
    }
    out
}

} // verus!
