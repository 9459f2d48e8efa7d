use vstd::prelude::*;

use crate::utils::{bytes_eq, canonical_order, canonical_spec, is_palindrome, reverse_bytes};
use crate::{Crossword, Direction, Solver};

verus! {

/// The value keyed by `k`, looked up from entry `e` on, first match winning.
pub open spec fn assoc_get_from<V>(entries: Seq<(Vec<u8>, V)>, k: Seq<u8>, e: int) -> Option<V>
    decreases entries.len() - e,
{
    if e < 0 || e >= entries.len() {
        None
    } else if entries[e].0@ == k {
        Some(entries[e].1)
    } else {
        assoc_get_from(entries, k, e + 1)
    }
}

/// The value keyed by `k` in an association list.
pub open spec fn assoc_get<V>(entries: Seq<(Vec<u8>, V)>, k: Seq<u8>) -> Option<V> {
    assoc_get_from(entries, k, 0)
}

/// The count stored under `q`, absent keys counting 0.
pub open spec fn count_val(entries: Seq<(Vec<u8>, usize)>, q: Seq<u8>) -> nat {
    match assoc_get(entries, q) {
        Some(v) => v as nat,
        None => 0,
    }
}

/// No two entries carry the same key.
pub open spec fn assoc_unique<V>(entries: Seq<(Vec<u8>, V)>) -> bool {
    forall|e1: int, e2: int|
        0 <= e1 < entries.len() && 0 <= e2 < entries.len() && e1 != e2 ==> (
        #[trigger] entries[e1]).0@ != (#[trigger] entries[e2]).0@
}

/// Every key is non-empty.
pub open spec fn keys_nonempty<V>(entries: Seq<(Vec<u8>, V)>) -> bool {
    forall|e: int| 0 <= e < entries.len() ==> (#[trigger] entries[e]).0@.len() >= 1
}

/// A found value sits in some entry with the key; an absent key matches no
/// entry.
pub proof fn lemma_assoc_get_match<V>(entries: Seq<(Vec<u8>, V)>, k: Seq<u8>, e: int)
    requires
        0 <= e,
    ensures
        match assoc_get_from(entries, k, e) {
            Some(v) => exists|i: int|
                e <= i < entries.len() && #[trigger] entries[i].0@ == k && entries[i].1 == v,
            None => forall|i: int| e <= i < entries.len() ==> (#[trigger] entries[i]).0@ != k,
        },
    decreases entries.len() - e,
{
    if e < entries.len() && entries[e].0@ != k {
        lemma_assoc_get_match(entries, k, e + 1);
    }
}

/// With unique keys, looking up an entry's own key yields its value.
pub proof fn lemma_assoc_self_from<V>(entries: Seq<(Vec<u8>, V)>, e: int, i: int)
    requires
        assoc_unique(entries),
        0 <= i <= e < entries.len(),
    ensures
        assoc_get_from(entries, entries[e].0@, i) == Some(entries[e].1),
    decreases e - i,
{
    if i < e {
        lemma_assoc_self_from(entries, e, i + 1);
    }
}

/// Replacing the value of entry `e` (same key) rewrites exactly that key's
/// lookup.
pub proof fn lemma_assoc_update_from<V>(
    old_e: Seq<(Vec<u8>, V)>,
    new_e: Seq<(Vec<u8>, V)>,
    e: int,
    q: Seq<u8>,
    i: int,
)
    requires
        assoc_unique(old_e),
        0 <= e < old_e.len(),
        new_e.len() == old_e.len(),
        new_e[e].0@ == old_e[e].0@,
        forall|x: int| 0 <= x < old_e.len() && x != e ==> #[trigger] new_e[x] == old_e[x],
        0 <= i,
    ensures
        assoc_get_from(new_e, q, i) == if q == old_e[e].0@ && i <= e {
            Some(new_e[e].1)
        } else {
            assoc_get_from(old_e, q, i)
        },
    decreases old_e.len() - i,
{
    if i < old_e.len() {
        assert(new_e[i].0@ == old_e[i].0@);
        lemma_assoc_update_from(old_e, new_e, e, q, i + 1);
    }
}

/// Appending an entry with a fresh key adds exactly that key's lookup.
pub proof fn lemma_assoc_push_from<V>(
    entries: Seq<(Vec<u8>, V)>,
    x: (Vec<u8>, V),
    q: Seq<u8>,
    i: int,
)
    requires
        0 <= i <= entries.len(),
    ensures
        assoc_get_from(entries.push(x), q, i) == match assoc_get_from(entries, q, i) {
            Some(v) => Some(v),
            None => if q == x.0@ {
                Some(x.1)
            } else {
                None
            },
        },
    decreases entries.len() - i,
{
    if i < entries.len() {
        assert(entries.push(x)[i] == entries[i]);
        lemma_assoc_push_from(entries, x, q, i + 1);
    } else {
        assert(entries.push(x)[i] == x);
        assert(assoc_get_from(entries, q, i) is None);
        assert(assoc_get_from(entries.push(x), q, i + 1) is None);
    }
}

/// Every stored count is at most `b`.
pub open spec fn counts_vals_bound(entries: Seq<(Vec<u8>, usize)>, b: int) -> bool {
    forall|e: int| 0 <= e < entries.len() ==> (#[trigger] entries[e]).1 <= b
}

/// Every stored anchor list holds at most `b` anchors.
pub open spec fn pos_lens_bound(
    entries: Seq<(Vec<u8>, Vec<(usize, usize, Direction)>)>,
    b: int,
) -> bool {
    forall|e: int| 0 <= e < entries.len() ==> (#[trigger] entries[e]).1@.len() <= b
}

/// A map from byte-string keys to occurrence counts, stored as an
/// association list with unique keys.
pub struct CountMap {
    pub entries: Vec<(Vec<u8>, usize)>,
}

impl CountMap {
    fn new() -> (r: Self)
        ensures
            r.entries@.len() == 0,
    {
        CountMap { entries: Vec::new() }
    }

    /// The position of `key`'s entry, if present.
    fn get_index(&self, key: &[u8]) -> (r: Option<usize>)
        ensures
            match r {
                Some(e) => e < self.entries@.len() && self.entries@[e as int].0@ == key@
                    && assoc_get(self.entries@, key@) == Some(self.entries@[e as int].1),
                None => assoc_get(self.entries@, key@) is None,
            },
    {
        let mut e: usize = 0;
        loop
            invariant
                e <= self.entries@.len(),
                assoc_get(self.entries@, key@) == assoc_get_from(self.entries@, key@, e as int),
            decreases self.entries@.len() - e,
        {
            if e >= self.entries.len() {
                return None;
            }
            if bytes_eq(self.entries[e].0.as_slice(), key) {
                return Some(e);
            }
            e += 1;
        }
    }

    /// The count stored for `key`, if any.
    fn get(&self, key: &[u8]) -> (r: Option<usize>)
        ensures
            r == assoc_get(self.entries@, key@),
    {
        match self.get_index(key) {
            Some(e) => Some(self.entries[e].1),
            None => None,
        }
    }

    /// Adds one to `key`'s count, starting it at 1 when absent.
    fn bump(&mut self, key: &[u8])
        requires
            assoc_unique(old(self).entries@),
            keys_nonempty(old(self).entries@),
            key@.len() >= 1,
            match assoc_get(old(self).entries@, key@) {
                Some(v) => v < usize::MAX,
                None => true,
            },
        ensures
            assoc_unique(final(self).entries@),
            keys_nonempty(final(self).entries@),
            assoc_get(final(self).entries@, key@) == match assoc_get(old(self).entries@, key@) {
                Some(v) => Some((v + 1) as usize),
                None => Some(1usize),
            },
            forall|q: Seq<u8>|
                q != key@ ==> #[trigger] assoc_get(final(self).entries@, q) == assoc_get(
                    old(self).entries@,
                    q,
                ),
    {
        let ghost pre = self.entries@;
        match self.get_index(key) {
            Some(e) => {
                let v = self.entries[e].1;
                let k2 = vstd::slice::slice_to_vec(key);
                self.entries.set(e, (k2, v + 1));
                proof {
                    assert forall|q: Seq<u8>| true implies #[trigger] assoc_get(
                        self.entries@,
                        q,
                    ) == if q == pre[e as int].0@ {
                        Some(self.entries@[e as int].1)
                    } else {
                        assoc_get(pre, q)
                    } by {
                        lemma_assoc_update_from(pre, self.entries@, e as int, q, 0);
                    }
                    assert forall|e1: int, e2: int|
                        0 <= e1 < self.entries@.len() && 0 <= e2 < self.entries@.len() && e1
                            != e2 implies (#[trigger] self.entries@[e1]).0@ != (
                    #[trigger] self.entries@[e2]).0@ by {
                        assert(self.entries@[e1].0@ == pre[e1].0@);
                        assert(self.entries@[e2].0@ == pre[e2].0@);
                    }
                    assert forall|x: int|
                        0 <= x < self.entries@.len() implies (
                    #[trigger] self.entries@[x]).0@.len() >= 1 by {
                        assert(self.entries@[x].0@ == pre[x].0@);
                    }
                }
            },
            None => {
                proof {
                    lemma_assoc_get_match(pre, key@, 0);
                }
                let k2 = vstd::slice::slice_to_vec(key);
                self.entries.push((k2, 1));
                proof {
                    let x = self.entries@[self.entries@.len() - 1];
                    assert(self.entries@ =~= pre.push(x));
                    assert forall|q: Seq<u8>| true implies #[trigger] assoc_get(
                        self.entries@,
                        q,
                    ) == match assoc_get(pre, q) {
                        Some(v) => Some(v),
                        None => if q == x.0@ {
                            Some(x.1)
                        } else {
                            None
                        },
                    } by {
                        lemma_assoc_push_from(pre, x, q, 0);
                    }
                    assert forall|e1: int, e2: int|
                        0 <= e1 < self.entries@.len() && 0 <= e2 < self.entries@.len() && e1
                            != e2 implies (#[trigger] self.entries@[e1]).0@ != (
                    #[trigger] self.entries@[e2]).0@ by {
                        if e1 < pre.len() && e2 < pre.len() {
                            assert(self.entries@[e1] == pre[e1]);
                            assert(self.entries@[e2] == pre[e2]);
                        } else if e1 == pre.len() {
                            assert(self.entries@[e2] == pre[e2]);
                            assert(pre[e2].0@ != key@);
                        } else {
                            assert(self.entries@[e1] == pre[e1]);
                            assert(pre[e1].0@ != key@);
                        }
                    }
                    assert forall|y: int|
                        0 <= y < self.entries@.len() implies (
                    #[trigger] self.entries@[y]).0@.len() >= 1 by {
                        if y < pre.len() {
                            assert(self.entries@[y] == pre[y]);
                        }
                    }
                }
            },
        }
    }
}

/// The anchors stored for key `k`: the `(row, col, direction)` triples of
/// every full-length run whose first bytes are `k`.
pub open spec fn anchors_of(
    entries: Seq<(Vec<u8>, Vec<(usize, usize, Direction)>)>,
    k: Seq<u8>,
) -> Seq<(usize, usize, Direction)> {
    match assoc_get(entries, k) {
        Some(l) => l@,
        None => Seq::empty(),
    }
}

/// A map from byte-string keys to anchor lists, stored as an association
/// list with unique keys.
pub struct PosMap {
    pub entries: Vec<(Vec<u8>, Vec<(usize, usize, Direction)>)>,
}

impl PosMap {
    fn new() -> (r: Self)
        ensures
            r.entries@.len() == 0,
    {
        PosMap { entries: Vec::new() }
    }

    /// The position of `key`'s entry, if present.
    fn get_index(&self, key: &[u8]) -> (r: Option<usize>)
        ensures
            match r {
                Some(e) => e < self.entries@.len() && self.entries@[e as int].0@ == key@
                    && assoc_get(self.entries@, key@) == Some(self.entries@[e as int].1),
                None => assoc_get(self.entries@, key@) is None,
            },
    {
        let mut e: usize = 0;
        loop
            invariant
                e <= self.entries@.len(),
                assoc_get(self.entries@, key@) == assoc_get_from(self.entries@, key@, e as int),
            decreases self.entries@.len() - e,
        {
            if e >= self.entries.len() {
                return None;
            }
            if bytes_eq(self.entries[e].0.as_slice(), key) {
                return Some(e);
            }
            e += 1;
        }
    }

    /// Appends `pos` to `key`'s anchor list, starting the list when absent.
    fn push_anchor(&mut self, key: &[u8], pos: (usize, usize, Direction))
        requires
            assoc_unique(old(self).entries@),
            keys_nonempty(old(self).entries@),
            key@.len() >= 1,
        ensures
            assoc_unique(final(self).entries@),
            keys_nonempty(final(self).entries@),
            anchors_of(final(self).entries@, key@) == anchors_of(old(self).entries@, key@).push(
                pos,
            ),
            forall|q: Seq<u8>|
                q != key@ ==> #[trigger] assoc_get(final(self).entries@, q) == assoc_get(
                    old(self).entries@,
                    q,
                ),
            forall|b: int|
                #[trigger] pos_lens_bound(old(self).entries@, b) && b >= 0 ==> pos_lens_bound(
                    final(self).entries@,
                    b + 1,
                ),
    {
        let ghost pre = self.entries@;
        match self.get_index(key) {
            Some(e) => {
                let mut copied: Vec<(usize, usize, Direction)> = Vec::new();
                let mut i: usize = 0;
                let n = self.entries[e].1.len();
                while i < n
                    invariant
                        e < self.entries@.len(),
                        self.entries@ == pre,
                        n == self.entries@[e as int].1@.len(),
                        i <= n,
                        copied@ == self.entries@[e as int].1@.subrange(0, i as int),
                    decreases n - i,
                {
                    proof {
                        let l = self.entries@[e as int].1@;
                        assert(l.subrange(0, i + 1) =~= l.subrange(0, i as int).push(l[i as int]));
                    }
                    let p = self.entries[e].1[i];
                    copied.push(p);
                    i += 1;
                }
                proof {
                    let l = self.entries@[e as int].1@;
                    assert(copied@ =~= l);
                }
                copied.push(pos);
                let k2 = vstd::slice::slice_to_vec(key);
                let ghost newlist = copied@;
                self.entries.set(e, (k2, copied));
                proof {
                    assert forall|q: Seq<u8>| true implies #[trigger] assoc_get(
                        self.entries@,
                        q,
                    ) == if q == pre[e as int].0@ {
                        Some(self.entries@[e as int].1)
                    } else {
                        assoc_get(pre, q)
                    } by {
                        lemma_assoc_update_from(pre, self.entries@, e as int, q, 0);
                    }
                    assert(anchors_of(self.entries@, key@) =~= anchors_of(pre, key@).push(pos));
                    assert forall|e1: int, e2: int|
                        0 <= e1 < self.entries@.len() && 0 <= e2 < self.entries@.len() && e1
                            != e2 implies (#[trigger] self.entries@[e1]).0@ != (
                    #[trigger] self.entries@[e2]).0@ by {
                        assert(self.entries@[e1].0@ == pre[e1].0@);
                        assert(self.entries@[e2].0@ == pre[e2].0@);
                    }
                    assert forall|x: int|
                        0 <= x < self.entries@.len() implies (
                    #[trigger] self.entries@[x]).0@.len() >= 1 by {
                        assert(self.entries@[x].0@ == pre[x].0@);
                    }
                    assert forall|b: int|
                        #[trigger] pos_lens_bound(pre, b) && b >= 0 implies pos_lens_bound(
                        self.entries@,
                        b + 1,
                    ) by {
                        assert forall|x: int|
                            0 <= x < self.entries@.len() implies (
                        #[trigger] self.entries@[x]).1@.len() <= b + 1 by {
                            if x == e as int {
                                assert(pre[x].1@.len() <= b);
                            } else {
                                assert(self.entries@[x] == pre[x]);
                                assert(pre[x].1@.len() <= b);
                            }
                        }
                    }
                }
            },
            None => {
                proof {
                    lemma_assoc_get_match(pre, key@, 0);
                }
                let k2 = vstd::slice::slice_to_vec(key);
                let mut fresh: Vec<(usize, usize, Direction)> = Vec::new();
                fresh.push(pos);
                self.entries.push((k2, fresh));
                proof {
                    let x = self.entries@[self.entries@.len() - 1];
                    assert(self.entries@ =~= pre.push(x));
                    assert forall|q: Seq<u8>| true implies #[trigger] assoc_get(
                        self.entries@,
                        q,
                    ) == match assoc_get(pre, q) {
                        Some(v) => Some(v),
                        None => if q == x.0@ {
                            Some(x.1)
                        } else {
                            None
                        },
                    } by {
                        lemma_assoc_push_from(pre, x, q, 0);
                    }
                    assert(anchors_of(self.entries@, key@) =~= anchors_of(pre, key@).push(pos));
                    assert forall|e1: int, e2: int|
                        0 <= e1 < self.entries@.len() && 0 <= e2 < self.entries@.len() && e1
                            != e2 implies (#[trigger] self.entries@[e1]).0@ != (
                    #[trigger] self.entries@[e2]).0@ by {
                        if e1 < pre.len() && e2 < pre.len() {
                            assert(self.entries@[e1] == pre[e1]);
                            assert(self.entries@[e2] == pre[e2]);
                        } else if e1 == pre.len() {
                            assert(self.entries@[e2] == pre[e2]);
                            assert(pre[e2].0@ != key@);
                        } else {
                            assert(self.entries@[e1] == pre[e1]);
                            assert(pre[e1].0@ != key@);
                        }
                    }
                    assert forall|y: int|
                        0 <= y < self.entries@.len() implies (
                    #[trigger] self.entries@[y]).0@.len() >= 1 by {
                        if y < pre.len() {
                            assert(self.entries@[y] == pre[y]);
                        }
                    }
                    assert forall|b: int|
                        #[trigger] pos_lens_bound(pre, b) && b >= 0 implies pos_lens_bound(
                        self.entries@,
                        b + 1,
                    ) by {
                        assert forall|y: int|
                            0 <= y < self.entries@.len() implies (
                        #[trigger] self.entries@[y]).1@.len() <= b + 1 by {
                            if y < pre.len() {
                                assert(self.entries@[y] == pre[y]);
                                assert(pre[y].1@.len() <= b);
                            } else {
                                assert(self.entries@[y].1@.len() == 1);
                            }
                        }
                    }
                }
            },
        }
    }
}

/// Whether the run at anchor `a` of `w`'s length lies in the grid and reads
/// exactly as `w`.
pub open spec fn anchor_matches(g: Crossword, a: (usize, usize, Direction), w: Seq<u8>) -> bool {
    &&& g.in_bounds_run(a.0 as int, a.1 as int, a.2, w.len() as int)
    &&& g.run_seq(a.0 as int, a.1 as int, a.2, w.len() as int) == w
}

/// The number of anchors from position `i` on whose re-fetched run reads as
/// `w`.
pub open spec fn confirmed_from(
    g: Crossword,
    list: Seq<(usize, usize, Direction)>,
    w: Seq<u8>,
    i: int,
) -> nat
    decreases list.len() - i,
{
    if i < 0 || i >= list.len() {
        0
    } else {
        (if anchor_matches(g, list[i], w) {
            1nat
        } else {
            0nat
        }) + confirmed_from(g, list, w, i + 1)
    }
}

/// The number of anchors of `list` whose re-fetched run reads as `w`.
pub open spec fn confirmed(g: Crossword, list: Seq<(usize, usize, Direction)>, w: Seq<u8>) -> nat {
    confirmed_from(g, list, w, 0)
}

/// At most one confirmation per anchor.
pub proof fn lemma_confirmed_bound(
    g: Crossword,
    list: Seq<(usize, usize, Direction)>,
    w: Seq<u8>,
    i: int,
)
    requires
        0 <= i,
    ensures
        confirmed_from(g, list, w, i) <= list.len() - i || confirmed_from(g, list, w, i) == 0,
        confirmed_from(g, list, w, i) <= list.len(),
    decreases list.len() - i,
{
    if i < list.len() {
        lemma_confirmed_bound(g, list, w, i + 1);
    }
}

/// The bounded-length hash index. For a configured maximum length it stores
/// the occurrence count of every directional substring up to that length
/// (keyed by its canonical form, mirror images folded together), and, for
/// every full-length run, the run's anchors for re-verification of longer
/// queries.
pub struct CrosswordHashMap<'a> {
    pub word_len: usize,
    pub crossword: &'a Crossword,
    pub complete_words: CountMap,
    pub incomplete_words: PosMap,
}

/// Whether registering the prefixes of `w` touches key `q`, counting only
/// prefixes of length at most `i`: exactly the canonical forms of the
/// non-empty prefixes are touched, each once (prefixes of distinct lengths
/// have distinct canonical forms).
pub open spec fn prefix_delta_upto(w: Seq<u8>, q: Seq<u8>, i: int) -> nat {
    if 1 <= q.len() <= i && q.len() <= w.len() && canonical_spec(w.take(q.len() as int)) == q {
        1
    } else {
        0
    }
}

/// Whether registering the prefixes of `w` touches key `q`.
pub open spec fn prefix_delta(w: Seq<u8>, q: Seq<u8>) -> nat {
    prefix_delta_upto(w, q, w.len() as int)
}

/// Registers every non-empty prefix of `word` in `target`, each under its
/// canonical key: every such key's count grows by exactly one, and no other
/// key changes.
fn add_all_substrings(target: &mut CountMap, word: &[u8])
    requires
        assoc_unique(old(target).entries@),
        keys_nonempty(old(target).entries@),
        counts_vals_bound(old(target).entries@, usize::MAX - 2),
    ensures
        assoc_unique(final(target).entries@),
        keys_nonempty(final(target).entries@),
        forall|q: Seq<u8>|
            #[trigger] assoc_get(final(target).entries@, q) == match assoc_get(
                old(target).entries@,
                q,
            ) {
                Some(v) => Some((v + prefix_delta(word@, q)) as usize),
                None => if prefix_delta(word@, q) == 1 {
                    Some(1usize)
                } else {
                    None
                },
            },
        forall|b: int|
            #[trigger] counts_vals_bound(old(target).entries@, b) && b >= 0 ==> counts_vals_bound(
                final(target).entries@,
                b + 1,
            ),
{
    let ghost m0 = target.entries@;
    let mut current: Vec<u8> = Vec::new();
    let mut i: usize = 0;
    while i < word.len()
        invariant
            assoc_unique(target.entries@),
            keys_nonempty(target.entries@),
            counts_vals_bound(m0, usize::MAX - 2),
            i <= word@.len(),
            current@ == word@.take(i as int),
            forall|q: Seq<u8>|
                #[trigger] assoc_get(target.entries@, q) == match assoc_get(m0, q) {
                    Some(v) => Some((v + prefix_delta_upto(word@, q, i as int)) as usize),
                    None => if prefix_delta_upto(word@, q, i as int) == 1 {
                        Some(1usize)
                    } else {
                        None
                    },
                },
        decreases word@.len() - i,
    {
        let ghost pre = target.entries@;
        current.push(word[i]);
        proof {
            assert(word@.take(i + 1) =~= word@.take(i as int).push(word@[i as int]));
        }
        let canonical = canonical_order(current.as_slice());
        proof {
            assert(canonical@ == canonical_spec(word@.take(i + 1)));
            assert(canonical@.len() == i + 1);
            assert(prefix_delta_upto(word@, canonical@, i as int) == 0);
            assert(assoc_get(pre, canonical@) == match assoc_get(m0, canonical@) {
                Some(v) => Some(v),
                None => None,
            });
            if assoc_get(m0, canonical@) is Some {
                lemma_assoc_get_match(m0, canonical@, 0);
                let v = assoc_get(m0, canonical@)->Some_0;
                let i0 = choose|i0: int|
                    0 <= i0 < m0.len() && #[trigger] m0[i0].0@ == canonical@ && m0[i0].1 == v;
                assert(m0[i0].1 <= usize::MAX - 2);
            }
        }
        target.bump(canonical.as_slice());
        proof {
            assert forall|q: Seq<u8>| true implies #[trigger] assoc_get(target.entries@, q)
                == match assoc_get(m0, q) {
                Some(v) => Some((v + prefix_delta_upto(word@, q, i + 1)) as usize),
                None => if prefix_delta_upto(word@, q, i + 1) == 1 {
                    Some(1usize)
                } else {
                    None
                },
            } by {
                if q == canonical@ {
                    assert(prefix_delta_upto(word@, q, i + 1) == 1);
                } else {
                    assert(assoc_get(target.entries@, q) == assoc_get(pre, q));
                    if prefix_delta_upto(word@, q, i + 1) != prefix_delta_upto(
                        word@,
                        q,
                        i as int,
                    ) {
                        assert(q.len() == i + 1);
                        assert(canonical_spec(word@.take(q.len() as int)) == q);
                        assert(q == canonical@);
                    }
                }
            }
        }
        i += 1;
    }
    proof {
        assert(word@.take(word@.len() as int) =~= word@);
        assert forall|b: int|
            #[trigger] counts_vals_bound(m0, b) && b >= 0 implies counts_vals_bound(
            target.entries@,
            b + 1,
        ) by {
            assert forall|e: int|
                0 <= e < target.entries@.len() implies (#[trigger] target.entries@[e]).1 <= b
                + 1 by {
                lemma_assoc_self_from(target.entries@, e, 0);
                let k = target.entries@[e].0@;
                assert(assoc_get(target.entries@, k) == Some(target.entries@[e].1));
                if assoc_get(m0, k) is Some {
                    lemma_assoc_get_match(m0, k, 0);
                    let v0 = assoc_get(m0, k)->Some_0;
                    let i0 = choose|i0: int|
                        0 <= i0 < m0.len() && #[trigger] m0[i0].0@ == k && m0[i0].1 == v0;
                    assert(m0[i0].1 <= b);
                }
            }
        }
    }
}

/// The largest run length in `[1, l]` available at the anchor, or 0.
pub open spec fn fallback_len(g: Crossword, r: int, c: int, dir: Direction, l: int) -> int
    decreases l,
{
    if l < 1 {
        0
    } else if g.in_bounds_run(r, c, dir, l) {
        l
    } else {
        fallback_len(g, r, c, dir, l - 1)
    }
}

/// With no run available strictly above `to`, the fallback search from
/// `from` lands where the search from `to` lands.
pub proof fn lemma_fallback_none(g: Crossword, r: int, c: int, dir: Direction, from: int, to: int)
    requires
        0 <= to <= from,
        forall|l: int| to < l <= from ==> !g.in_bounds_run(r, c, dir, l),
    ensures
        fallback_len(g, r, c, dir, from) == fallback_len(g, r, c, dir, to),
    decreases from - to,
{
    if to < from {
        lemma_fallback_none(g, r, c, dir, from - 1, to);
    }
}

/// The length of the run whose prefixes the build registers at this anchor:
/// the full `word_len` run when available (except a single character seen
/// from a direction other than the canonical rightward one, which would be
/// counted four times), else the longest shorter run, else nothing.
pub open spec fn reg_len(g: Crossword, word_len: int, r: int, c: int, dir: Direction) -> int {
    if g.in_bounds_run(r, c, dir, word_len) {
        if word_len > 1 || dir is Right {
            word_len
        } else {
            0
        }
    } else {
        fallback_len(g, r, c, dir, word_len - 1)
    }
}

/// What one anchor adds to the count stored under key `q`.
pub open spec fn dir_cc(
    g: Crossword,
    word_len: int,
    r: int,
    c: int,
    dir: Direction,
    q: Seq<u8>,
) -> nat {
    let len = reg_len(g, word_len, r, c, dir);
    if 1 <= q.len() <= len && canonical_spec(g.run_seq(r, c, dir, q.len() as int)) == q {
        1
    } else {
        0
    }
}

/// What one anchor appends to the anchor list stored under key `q`.
pub open spec fn dir_anchor(
    g: Crossword,
    word_len: int,
    r: int,
    c: int,
    dir: Direction,
    q: Seq<u8>,
) -> Seq<(usize, usize, Direction)> {
    if g.in_bounds_run(r, c, dir, word_len) && g.run_seq(r, c, dir, word_len) == q {
        seq![(r as usize, c as usize, dir)]
    } else {
        Seq::empty()
    }
}

/// A prefix of a run is the shorter run at the same anchor.
pub proof fn lemma_run_take(g: Crossword, r: int, c: int, dir: Direction, len: int, l: int)
    requires
        0 <= l <= len,
    ensures
        g.run_seq(r, c, dir, len).take(l) == g.run_seq(r, c, dir, l),
{
    assert(g.run_seq(r, c, dir, len).take(l) =~= g.run_seq(r, c, dir, l));
}

/// Count contributed to key `q` by the four directions of one cell.
pub open spec fn cell_cc(g: Crossword, wl: int, r: int, c: int, q: Seq<u8>) -> nat {
    dir_cc(g, wl, r, c, Direction::Right, q) + dir_cc(g, wl, r, c, Direction::Down, q) + dir_cc(
        g,
        wl,
        r,
        c,
        Direction::Diagonal,
        q,
    ) + dir_cc(g, wl, r, c, Direction::AntiDiagonal, q)
}

/// Count contributed to key `q` by row `r`, cells `c..`.
pub open spec fn row_cc(g: Crossword, wl: int, r: int, c: int, q: Seq<u8>) -> nat
    decreases g.spec_cols() - c,
{
    if c < 0 || c >= g.spec_cols() {
        0
    } else {
        cell_cc(g, wl, r, c, q) + row_cc(g, wl, r, c + 1, q)
    }
}

/// Count contributed to key `q` by rows `r..`.
pub open spec fn grid_cc(g: Crossword, wl: int, r: int, q: Seq<u8>) -> nat
    decreases g.rows - r,
{
    if r < 0 || r >= g.rows {
        0
    } else {
        row_cc(g, wl, r, 0, q) + grid_cc(g, wl, r + 1, q)
    }
}

/// The count the build stores under key `q`: one per anchor whose registered
/// run has a prefix with canonical form `q`.
pub open spec fn complete_count(g: Crossword, wl: int, q: Seq<u8>) -> nat {
    grid_cc(g, wl, 0, q)
}

/// Anchors contributed to key `q` by the four directions of one cell, in
/// build order.
pub open spec fn cell_anchors(g: Crossword, wl: int, r: int, c: int, q: Seq<u8>) -> Seq<
    (usize, usize, Direction),
> {
    dir_anchor(g, wl, r, c, Direction::Right, q) + dir_anchor(g, wl, r, c, Direction::Down, q)
        + dir_anchor(g, wl, r, c, Direction::Diagonal, q) + dir_anchor(
        g,
        wl,
        r,
        c,
        Direction::AntiDiagonal,
        q,
    )
}

/// Anchors contributed to key `q` by row `r`, cells `c..`, in build order.
pub open spec fn row_anchors(g: Crossword, wl: int, r: int, c: int, q: Seq<u8>) -> Seq<
    (usize, usize, Direction),
>
    decreases g.spec_cols() - c,
{
    if c < 0 || c >= g.spec_cols() {
        Seq::empty()
    } else {
        cell_anchors(g, wl, r, c, q) + row_anchors(g, wl, r, c + 1, q)
    }
}

/// Anchors contributed to key `q` by rows `r..`, in build order.
pub open spec fn grid_anchors(g: Crossword, wl: int, r: int, q: Seq<u8>) -> Seq<
    (usize, usize, Direction),
>
    decreases g.rows - r,
{
    if r < 0 || r >= g.rows {
        Seq::empty()
    } else {
        row_anchors(g, wl, r, 0, q) + grid_anchors(g, wl, r + 1, q)
    }
}

/// The anchor list the build stores under key `q`, in build order.
pub open spec fn anchors_spec(g: Crossword, wl: int, q: Seq<u8>) -> Seq<(usize, usize, Direction)> {
    grid_anchors(g, wl, 0, q)
}

/// Recasts the per-anchor map change as plain count arithmetic.
proof fn lemma_match_to_val(
    old_e: Seq<(Vec<u8>, usize)>,
    new_e: Seq<(Vec<u8>, usize)>,
    g: Crossword,
    wl: int,
    r: int,
    c: int,
    dir: Direction,
)
    requires
        counts_vals_bound(old_e, usize::MAX - 2),
        forall|q: Seq<u8>|
            #[trigger] assoc_get(new_e, q) == match assoc_get(old_e, q) {
                Some(v) => Some((v + dir_cc(g, wl, r, c, dir, q)) as usize),
                None => if dir_cc(g, wl, r, c, dir, q) == 1 {
                    Some(1usize)
                } else {
                    None
                },
            },
    ensures
        forall|q: Seq<u8>|
            #[trigger] count_val(new_e, q) == count_val(old_e, q) + dir_cc(g, wl, r, c, dir, q),
{
    assert forall|q: Seq<u8>|
        #[trigger] count_val(new_e, q) == count_val(old_e, q) + dir_cc(g, wl, r, c, dir, q) by {
        if assoc_get(old_e, q) is Some {
            lemma_assoc_get_match(old_e, q, 0);
            let v = assoc_get(old_e, q)->Some_0;
            let i0 = choose|i0: int|
                0 <= i0 < old_e.len() && #[trigger] old_e[i0].0@ == q && old_e[i0].1 == v;
            assert(old_e[i0].1 <= usize::MAX - 2);
        }
    }
}

/// Handles one `(cell, direction)` pair of the build: registers the full
/// `word_len` run and its anchor when available, else the prefixes of the
/// longest shorter run. Both maps change exactly by this anchor's
/// contribution.
fn index_one(
    g: &Crossword,
    word_len: usize,
    row: usize,
    col: usize,
    dir: Direction,
    complete: &mut CountMap,
    incomplete: &mut PosMap,
)
    requires
        g.wf(),
        word_len >= 1,
        assoc_unique(old(complete).entries@),
        keys_nonempty(old(complete).entries@),
        counts_vals_bound(old(complete).entries@, usize::MAX - 2),
        assoc_unique(old(incomplete).entries@),
        keys_nonempty(old(incomplete).entries@),
    ensures
        assoc_unique(final(complete).entries@),
        keys_nonempty(final(complete).entries@),
        assoc_unique(final(incomplete).entries@),
        keys_nonempty(final(incomplete).entries@),
        forall|q: Seq<u8>|
            #[trigger] assoc_get(final(complete).entries@, q) == match assoc_get(
                old(complete).entries@,
                q,
            ) {
                Some(v) => Some(
                    (v + dir_cc(*g, word_len as int, row as int, col as int, dir, q)) as usize,
                ),
                None => if dir_cc(*g, word_len as int, row as int, col as int, dir, q) == 1 {
                    Some(1usize)
                } else {
                    None
                },
            },
        forall|q: Seq<u8>|
            #[trigger] anchors_of(final(incomplete).entries@, q) == anchors_of(
                old(incomplete).entries@,
                q,
            ) + dir_anchor(*g, word_len as int, row as int, col as int, dir, q),
        forall|b: int|
            #[trigger] counts_vals_bound(old(complete).entries@, b) && b >= 0
                ==> counts_vals_bound(final(complete).entries@, b + 1),
        forall|b: int|
            #[trigger] pos_lens_bound(old(incomplete).entries@, b) && b >= 0 ==> pos_lens_bound(
                final(incomplete).entries@,
                b + 1,
            ),
{
    let ghost wl = word_len as int;
    let ghost ri = row as int;
    let ghost ci = col as int;
    match g.get_word(row, col, dir, word_len) {
        Some(word) => {
            let ghost c0 = complete.entries@;
            let is_right = matches!(dir, Direction::Right);
            if word_len > 1 || is_right {
                add_all_substrings(complete, word.as_slice());
                proof {
                    assert forall|q: Seq<u8>| true implies #[trigger] assoc_get(
                        complete.entries@,
                        q,
                    ) == match assoc_get(c0, q) {
                        Some(v) => Some((v + dir_cc(*g, wl, ri, ci, dir, q)) as usize),
                        None => if dir_cc(*g, wl, ri, ci, dir, q) == 1 {
                            Some(1usize)
                        } else {
                            None
                        },
                    } by {
                        if 0 <= q.len() <= wl {
                            lemma_run_take(*g, ri, ci, dir, wl, q.len() as int);
                        }
                        assert(prefix_delta(word@, q) == dir_cc(*g, wl, ri, ci, dir, q));
                    }
                }
            } else {
                proof {
                    assert(reg_len(*g, wl, ri, ci, dir) == 0);
                    assert forall|q: Seq<u8>| true implies #[trigger] assoc_get(
                        complete.entries@,
                        q,
                    ) == match assoc_get(c0, q) {
                        Some(v) => Some((v + dir_cc(*g, wl, ri, ci, dir, q)) as usize),
                        None => if dir_cc(*g, wl, ri, ci, dir, q) == 1 {
                            Some(1usize)
                        } else {
                            None
                        },
                    } by {
                        assert(dir_cc(*g, wl, ri, ci, dir, q) == 0);
                    }
                }
            }
            let ghost p0 = incomplete.entries@;
            incomplete.push_anchor(word.as_slice(), (row, col, dir));
            proof {
                assert forall|q: Seq<u8>| true implies #[trigger] anchors_of(
                    incomplete.entries@,
                    q,
                ) == anchors_of(p0, q) + dir_anchor(*g, wl, ri, ci, dir, q) by {
                    if q == word@ {
                        assert(anchors_of(incomplete.entries@, q) =~= anchors_of(p0, q)
                            + dir_anchor(*g, wl, ri, ci, dir, q));
                    } else {
                        assert(assoc_get(incomplete.entries@, q) == assoc_get(p0, q));
                        assert(dir_anchor(*g, wl, ri, ci, dir, q) =~= Seq::<(
                            usize,
                            usize,
                            Direction,
                        )>::empty());
                        assert(anchors_of(incomplete.entries@, q) =~= anchors_of(p0, q)
                            + dir_anchor(*g, wl, ri, ci, dir, q));
                    }
                }
            }
        },
        None => {
            proof {
                assert forall|q: Seq<u8>| true implies #[trigger] anchors_of(
                    incomplete.entries@,
                    q,
                ) == anchors_of(incomplete.entries@, q) + dir_anchor(*g, wl, ri, ci, dir, q) by {
                    assert(dir_anchor(*g, wl, ri, ci, dir, q) =~= Seq::<(
                        usize,
                        usize,
                        Direction,
                    )>::empty());
                    assert(anchors_of(incomplete.entries@, q) =~= anchors_of(
                        incomplete.entries@,
                        q,
                    ) + dir_anchor(*g, wl, ri, ci, dir, q));
                }
            }
            let mut len = word_len - 1;
            while len >= 1
                invariant
                    g.wf(),
                    1 <= word_len,
                    wl == word_len as int,
                    ri == row as int,
                    ci == col as int,
                    len <= word_len - 1,
                    complete.entries@ == old(complete).entries@,
                    incomplete.entries@ == old(incomplete).entries@,
                    assoc_unique(complete.entries@),
                    keys_nonempty(complete.entries@),
                    counts_vals_bound(complete.entries@, usize::MAX - 2),
                    assoc_unique(incomplete.entries@),
                    keys_nonempty(incomplete.entries@),
                    !g.in_bounds_run(ri, ci, dir, wl),
                    forall|l: int| len < l < wl ==> !g.in_bounds_run(ri, ci, dir, l),
                decreases len,
            {
                match g.get_word(row, col, dir, len) {
                    Some(found) => {
                        let ghost c0 = complete.entries@;
                        proof {
                            lemma_fallback_none(*g, ri, ci, dir, wl - 1, len as int);
                            assert(fallback_len(*g, ri, ci, dir, len as int) == len);
                            assert(reg_len(*g, wl, ri, ci, dir) == len);
                        }
                        add_all_substrings(complete, found.as_slice());
                        proof {
                            assert forall|q: Seq<u8>| true implies #[trigger] assoc_get(
                                complete.entries@,
                                q,
                            ) == match assoc_get(c0, q) {
                                Some(v) => Some((v + dir_cc(*g, wl, ri, ci, dir, q)) as usize),
                                None => if dir_cc(*g, wl, ri, ci, dir, q) == 1 {
                                    Some(1usize)
                                } else {
                                    None
                                },
                            } by {
                                if 0 <= q.len() <= len {
                                    lemma_run_take(*g, ri, ci, dir, len as int, q.len() as int);
                                }
                                assert(prefix_delta(found@, q) == dir_cc(*g, wl, ri, ci, dir, q));
                            }
                        }
                        return ;
                    },
                    None => {},
                }
                len -= 1;
            }
            proof {
                lemma_fallback_none(*g, ri, ci, dir, wl - 1, 0);
                assert(reg_len(*g, wl, ri, ci, dir) == 0);
                assert forall|q: Seq<u8>| true implies #[trigger] assoc_get(
                    complete.entries@,
                    q,
                ) == match assoc_get(old(complete).entries@, q) {
                    Some(v) => Some((v + dir_cc(*g, wl, ri, ci, dir, q)) as usize),
                    None => if dir_cc(*g, wl, ri, ci, dir, q) == 1 {
                        Some(1usize)
                    } else {
                        None
                    },
                } by {
                    assert(dir_cc(*g, wl, ri, ci, dir, q) == 0);
                }
            }
        },
    }
}

impl<'a> CrosswordHashMap<'a> {
    /// What the index demands of itself after construction.
    pub open spec fn wf(self) -> bool {
        &&& self.word_len >= 1
        &&& self.crossword.wf()
        &&& self.crossword.fits()
        &&& assoc_unique(self.complete_words.entries@)
        &&& keys_nonempty(self.complete_words.entries@)
        &&& assoc_unique(self.incomplete_words.entries@)
        &&& keys_nonempty(self.incomplete_words.entries@)
        &&& pos_lens_bound(self.incomplete_words.entries@, usize::MAX as int / 2)
    }

    /// The count this index answers for `w`: a direct canonical lookup for
    /// short words; for long words, the anchors of the word's (and, unless it
    /// is a palindrome, the reversed word's) leading bytes, re-verified
    /// against the grid.
    pub open spec fn count_spec_of(self, w: Seq<u8>) -> nat {
        if w.len() <= self.word_len {
            count_val(self.complete_words.entries@, canonical_spec(w))
        } else {
            confirmed(
                *self.crossword,
                anchors_of(self.incomplete_words.entries@, w.take(self.word_len as int)),
                w,
            ) + if w == w.reverse() {
                0
            } else {
                confirmed(
                    *self.crossword,
                    anchors_of(
                        self.incomplete_words.entries@,
                        w.reverse().take(self.word_len as int),
                    ),
                    w.reverse(),
                )
            }
        }
    }

    /// Builds the index: for every cell and direction, the full `word_len`
    /// run is registered with all its prefixes and anchored for
    /// re-verification; near a boundary the prefixes of the longest shorter
    /// run are registered instead.
    #[verifier::rlimit(100)]
    pub fn new(crossword: &'a Crossword, word_len: usize) -> (r: Self)
        requires
            crossword.wf(),
            crossword.fits(),
            word_len >= 1,
        ensures
            r.wf(),
            r.word_len == word_len,
            r.crossword == crossword,
            forall|q: Seq<u8>|
                #[trigger] count_val(r.complete_words.entries@, q) == complete_count(
                    *crossword,
                    word_len as int,
                    q,
                ),
            forall|q: Seq<u8>|
                #[trigger] anchors_of(r.incomplete_words.entries@, q) == anchors_spec(
                    *crossword,
                    word_len as int,
                    q,
                ),
    {
        let g = crossword;
        let ghost wl = word_len as int;
        let rows = g.rows();
        let cols = g.cols();
        let mut complete_words = CountMap::new();
        let mut incomplete_words = PosMap::new();
        let ghost mut adds: int = 0;
        proof {
            crate::lemma_cols_le_len(*g);
            vstd::arithmetic::div_mod::lemma_fundamental_div_mod(
                g.data@.len() as int,
                g.rows as int,
            );
            assert forall|q: Seq<u8>| #[trigger] count_val(complete_words.entries@, q)
                + grid_cc(*g, wl, 0, q) == complete_count(*g, wl, q) by {
                assert(assoc_get(complete_words.entries@, q) is None);
            }
            assert forall|q: Seq<u8>| #[trigger] anchors_of(incomplete_words.entries@, q)
                + grid_anchors(*g, wl, 0, q) == anchors_spec(*g, wl, q) by {
                assert(assoc_get(incomplete_words.entries@, q) is None);
                assert(anchors_of(incomplete_words.entries@, q) + grid_anchors(*g, wl, 0, q)
                    =~= grid_anchors(*g, wl, 0, q));
            }
        }
        let mut row: usize = 0;
        while row < rows
            invariant
                g.wf(),
                g.fits(),
                word_len >= 1,
                wl == word_len as int,
                rows == g.rows,
                cols as int == g.spec_cols(),
                row <= rows,
                assoc_unique(complete_words.entries@),
                keys_nonempty(complete_words.entries@),
                assoc_unique(incomplete_words.entries@),
                keys_nonempty(incomplete_words.entries@),
                counts_vals_bound(complete_words.entries@, adds),
                pos_lens_bound(incomplete_words.entries@, adds),
                0 <= adds,
                adds <= 4 * ((row as int) * (cols as int)),
                g.data@.len() == (g.rows as int) * g.spec_cols(),
                forall|q: Seq<u8>|
                    #[trigger] count_val(complete_words.entries@, q) + grid_cc(
                        *g,
                        wl,
                        row as int,
                        q,
                    ) == complete_count(*g, wl, q),
                forall|q: Seq<u8>|
                    #[trigger] anchors_of(incomplete_words.entries@, q) + grid_anchors(
                        *g,
                        wl,
                        row as int,
                        q,
                    ) == anchors_spec(*g, wl, q),
            decreases rows - row,
        {
            let ghost ri = row as int;
            proof {
                assert forall|q: Seq<u8>| #[trigger] count_val(complete_words.entries@, q)
                    + row_cc(*g, wl, ri, 0, q) + grid_cc(*g, wl, ri + 1, q) == complete_count(
                    *g,
                    wl,
                    q,
                ) by {
                    assert(grid_cc(*g, wl, ri, q) == row_cc(*g, wl, ri, 0, q) + grid_cc(
                        *g,
                        wl,
                        ri + 1,
                        q,
                    ));
                }
                assert forall|q: Seq<u8>| #[trigger] anchors_of(incomplete_words.entries@, q)
                    + row_anchors(*g, wl, ri, 0, q) + grid_anchors(*g, wl, ri + 1, q)
                    == anchors_spec(*g, wl, q) by {
                    assert(grid_anchors(*g, wl, ri, q) == row_anchors(*g, wl, ri, 0, q)
                        + grid_anchors(*g, wl, ri + 1, q));
                    assert(anchors_of(incomplete_words.entries@, q) + (row_anchors(
                        *g,
                        wl,
                        ri,
                        0,
                        q,
                    ) + grid_anchors(*g, wl, ri + 1, q)) =~= anchors_of(
                        incomplete_words.entries@,
                        q,
                    ) + row_anchors(*g, wl, ri, 0, q) + grid_anchors(*g, wl, ri + 1, q));
                }
            }
            let mut col: usize = 0;
            while col < cols
                invariant
                    g.wf(),
                    g.fits(),
                    word_len >= 1,
                    wl == word_len as int,
                    ri == row as int,
                    rows == g.rows,
                    cols as int == g.spec_cols(),
                    row < rows,
                    col <= cols,
                    assoc_unique(complete_words.entries@),
                    keys_nonempty(complete_words.entries@),
                    assoc_unique(incomplete_words.entries@),
                    keys_nonempty(incomplete_words.entries@),
                    counts_vals_bound(complete_words.entries@, adds),
                    pos_lens_bound(incomplete_words.entries@, adds),
                    0 <= adds,
                    adds <= 4 * ((row as int) * (cols as int) + col as int),
                    g.data@.len() == (g.rows as int) * g.spec_cols(),
                    forall|q: Seq<u8>|
                        #[trigger] count_val(complete_words.entries@, q) + row_cc(
                            *g,
                            wl,
                            ri,
                            col as int,
                            q,
                        ) + grid_cc(*g, wl, ri + 1, q) == complete_count(*g, wl, q),
                    forall|q: Seq<u8>|
                        #[trigger] anchors_of(incomplete_words.entries@, q) + row_anchors(
                            *g,
                            wl,
                            ri,
                            col as int,
                            q,
                        ) + grid_anchors(*g, wl, ri + 1, q) == anchors_spec(*g, wl, q),
                decreases cols - col,
            {
                let ghost ci = col as int;
                proof {
                    lemma_adds_headroom(*g, row as int, col as int, adds);
                }
                let ghost c0 = complete_words.entries@;
                let ghost p0 = incomplete_words.entries@;
                index_one(g, word_len, row, col, Direction::Right, &mut complete_words,
                    &mut incomplete_words);
                proof {
                    assert(counts_vals_bound(c0, adds));
                    assert(pos_lens_bound(p0, adds));
                    assert(counts_vals_bound(complete_words.entries@, adds + 1));
                    assert(pos_lens_bound(incomplete_words.entries@, adds + 1));
                    assert(counts_vals_bound(complete_words.entries@, usize::MAX - 2));
                    lemma_match_to_val(
                        c0,
                        complete_words.entries@,
                        *g,
                        wl,
                        ri,
                        ci,
                        Direction::Right,
                    );
                }
                let ghost c1 = complete_words.entries@;
                let ghost p1 = incomplete_words.entries@;
                index_one(g, word_len, row, col, Direction::Down, &mut complete_words,
                    &mut incomplete_words);
                proof {
                    assert(counts_vals_bound(c1, adds + 1));
                    assert(pos_lens_bound(p1, adds + 1));
                    assert(counts_vals_bound(complete_words.entries@, adds + 2));
                    assert(pos_lens_bound(incomplete_words.entries@, adds + 2));
                    assert(counts_vals_bound(complete_words.entries@, usize::MAX - 2));
                    lemma_match_to_val(
                        c1,
                        complete_words.entries@,
                        *g,
                        wl,
                        ri,
                        ci,
                        Direction::Down,
                    );
                }
                let ghost c2 = complete_words.entries@;
                let ghost p2 = incomplete_words.entries@;
                index_one(g, word_len, row, col, Direction::Diagonal, &mut complete_words,
                    &mut incomplete_words);
                proof {
                    assert(counts_vals_bound(c2, adds + 2));
                    assert(pos_lens_bound(p2, adds + 2));
                    assert(counts_vals_bound(complete_words.entries@, adds + 3));
                    assert(pos_lens_bound(incomplete_words.entries@, adds + 3));
                    assert(counts_vals_bound(complete_words.entries@, usize::MAX - 2));
                    lemma_match_to_val(
                        c2,
                        complete_words.entries@,
                        *g,
                        wl,
                        ri,
                        ci,
                        Direction::Diagonal,
                    );
                }
                let ghost c3 = complete_words.entries@;
                let ghost p3 = incomplete_words.entries@;
                index_one(g, word_len, row, col, Direction::AntiDiagonal, &mut complete_words,
                    &mut incomplete_words);
                proof {
                    assert(counts_vals_bound(c3, adds + 3));
                    assert(pos_lens_bound(p3, adds + 3));
                    assert(counts_vals_bound(complete_words.entries@, adds + 4));
                    assert(pos_lens_bound(incomplete_words.entries@, adds + 4));
                    lemma_match_to_val(
                        c3,
                        complete_words.entries@,
                        *g,
                        wl,
                        ri,
                        ci,
                        Direction::AntiDiagonal,
                    );
                    assert forall|q: Seq<u8>| #[trigger] count_val(complete_words.entries@, q)
                        + row_cc(*g, wl, ri, ci + 1, q) + grid_cc(*g, wl, ri + 1, q)
                        == complete_count(*g, wl, q) by {
                        assert(count_val(complete_words.entries@, q) == count_val(c0, q)
                            + cell_cc(*g, wl, ri, ci, q));
                        assert(row_cc(*g, wl, ri, ci, q) == cell_cc(*g, wl, ri, ci, q) + row_cc(
                            *g,
                            wl,
                            ri,
                            ci + 1,
                            q,
                        ));
                    }
                    assert forall|q: Seq<u8>| #[trigger] anchors_of(incomplete_words.entries@, q)
                        + row_anchors(*g, wl, ri, ci + 1, q) + grid_anchors(*g, wl, ri + 1, q)
                        == anchors_spec(*g, wl, q) by {
                        assert(anchors_of(incomplete_words.entries@, q) =~= anchors_of(p0, q)
                            + cell_anchors(*g, wl, ri, ci, q));
                        assert(row_anchors(*g, wl, ri, ci, q) == cell_anchors(*g, wl, ri, ci, q)
                            + row_anchors(*g, wl, ri, ci + 1, q));
                        assert(anchors_of(p0, q) + row_anchors(*g, wl, ri, ci, q) + grid_anchors(
                            *g,
                            wl,
                            ri + 1,
                            q,
                        ) =~= anchors_of(p0, q) + cell_anchors(*g, wl, ri, ci, q) + (row_anchors(
                            *g,
                            wl,
                            ri,
                            ci + 1,
                            q,
                        ) + grid_anchors(*g, wl, ri + 1, q)));
                        assert(anchors_of(incomplete_words.entries@, q) + row_anchors(
                            *g,
                            wl,
                            ri,
                            ci + 1,
                            q,
                        ) + grid_anchors(*g, wl, ri + 1, q) =~= anchors_of(p0, q) + cell_anchors(
                            *g,
                            wl,
                            ri,
                            ci,
                            q,
                        ) + (row_anchors(*g, wl, ri, ci + 1, q) + grid_anchors(
                            *g,
                            wl,
                            ri + 1,
                            q,
                        )));
                    }
                    adds = adds + 4;
                    assert(4 * ((row as int) * (cols as int) + col as int + 1) == 4 * ((
                    row as int) * (cols as int) + col as int) + 4) by (nonlinear_arith);
                }
                col += 1;
            }
            proof {
                assert(4 * ((row as int + 1) * (cols as int)) == 4 * ((row as int) * (
                cols as int) + cols as int)) by (nonlinear_arith);
                assert forall|q: Seq<u8>| #[trigger] count_val(complete_words.entries@, q)
                    + grid_cc(*g, wl, ri + 1, q) == complete_count(*g, wl, q) by {
                    assert(row_cc(*g, wl, ri, cols as int, q) == 0);
                }
                assert forall|q: Seq<u8>| #[trigger] anchors_of(incomplete_words.entries@, q)
                    + grid_anchors(*g, wl, ri + 1, q) == anchors_spec(*g, wl, q) by {
                    assert(row_anchors(*g, wl, ri, cols as int, q) =~= Seq::<(
                        usize,
                        usize,
                        Direction,
                    )>::empty());
                    assert(anchors_of(incomplete_words.entries@, q) + row_anchors(
                        *g,
                        wl,
                        ri,
                        cols as int,
                        q,
                    ) + grid_anchors(*g, wl, ri + 1, q) =~= anchors_of(
                        incomplete_words.entries@,
                        q,
                    ) + grid_anchors(*g, wl, ri + 1, q));
                }
            }
            row += 1;
        }
        proof {
            assert(4 * ((rows as int) * (cols as int)) <= usize::MAX as int / 2)
                by (nonlinear_arith)
                requires
                    g.data@.len() == (rows as int) * (cols as int),
                    g.data@.len() * 32 <= usize::MAX,
            ;
            assert forall|q: Seq<u8>| #[trigger] count_val(complete_words.entries@, q)
                == complete_count(*g, wl, q) by {
                assert(grid_cc(*g, wl, rows as int, q) == 0);
            }
            assert forall|q: Seq<u8>| #[trigger] anchors_of(incomplete_words.entries@, q)
                == anchors_spec(*g, wl, q) by {
                assert(grid_anchors(*g, wl, rows as int, q) =~= Seq::<(
                    usize,
                    usize,
                    Direction,
                )>::empty());
                assert(anchors_of(incomplete_words.entries@, q) + grid_anchors(
                    *g,
                    wl,
                    rows as int,
                    q,
                ) =~= anchors_of(incomplete_words.entries@, q));
            }
        }
        CrosswordHashMap { word_len, crossword, complete_words, incomplete_words }
    }
}

/// A positive fallback length names an in-bounds run no longer than the
/// limit.
pub proof fn lemma_fallback_inbounds(g: Crossword, r: int, c: int, dir: Direction, limit: int)
    ensures
        0 <= fallback_len(g, r, c, dir, limit),
        fallback_len(g, r, c, dir, limit) <= if limit >= 0 {
            limit
        } else {
            0
        },
        fallback_len(g, r, c, dir, limit) != 0 ==> g.in_bounds_run(
            r,
            c,
            dir,
            fallback_len(g, r, c, dir, limit),
        ),
    decreases limit,
{
    if limit >= 1 && !g.in_bounds_run(r, c, dir, limit) {
        lemma_fallback_inbounds(g, r, c, dir, limit - 1);
    }
}

/// The fallback search finds at least any in-bounds length within the limit.
pub proof fn lemma_fallback_ge(g: Crossword, r: int, c: int, dir: Direction, limit: int, l: int)
    requires
        1 <= l <= limit,
        g.in_bounds_run(r, c, dir, l),
    ensures
        l <= fallback_len(g, r, c, dir, limit),
    decreases limit,
{
    if limit > l && !g.in_bounds_run(r, c, dir, limit) {
        lemma_fallback_ge(g, r, c, dir, limit - 1, l);
    }
}

/// For configured lengths of at least 2, one anchor contributes to the
/// canonical key of `w` exactly when the oracle counts a match of `w` there.
proof fn lemma_dir_cc_matches(g: Crossword, wl: int, r: int, c: int, dir: Direction, w: Seq<u8>)
    requires
        g.wf(),
        1 <= w.len() <= wl,
        wl >= 2,
    ensures
        dir_cc(g, wl, r, c, dir, canonical_spec(w)) == (if crate::run_matches(g, w, r, c, dir) {
            1nat
        } else {
            0nat
        }),
{
    let q = canonical_spec(w);
    let lw = w.len() as int;
    crate::utils::lemma_canonical_pair(w);
    let len = reg_len(g, wl, r, c, dir);
    if dir_cc(g, wl, r, c, dir, q) == 1 {
        if g.in_bounds_run(r, c, dir, wl) {
            crate::lemma_in_bounds_prefix(g, r, c, dir, wl, lw);
        } else {
            lemma_fallback_inbounds(g, r, c, dir, wl - 1);
            crate::lemma_in_bounds_prefix(g, r, c, dir, len, lw);
        }
        let run = g.run_seq(r, c, dir, lw);
        crate::utils::lemma_canonical_eq(run, w);
        assert(crate::run_matches(g, w, r, c, dir));
    }
    if crate::run_matches(g, w, r, c, dir) {
        let run = g.run_seq(r, c, dir, lw);
        crate::utils::lemma_canonical_eq(run, w);
        assert(canonical_spec(run) == q);
        if g.in_bounds_run(r, c, dir, wl) {
            assert(len == wl);
        } else {
            assert(lw != wl);
            lemma_fallback_ge(g, r, c, dir, wl - 1, lw);
        }
        assert(1 <= q.len() <= len);
        assert(dir_cc(g, wl, r, c, dir, q) == 1);
    }
}

proof fn lemma_row_cc_matches(g: Crossword, wl: int, w: Seq<u8>, r: int, c: int)
    requires
        g.wf(),
        1 <= w.len() <= wl,
        wl >= 2,
    ensures
        row_cc(g, wl, r, c, canonical_spec(w)) == crate::row_match_count(g, w, r, c),
    decreases g.spec_cols() - c,
{
    if 0 <= c < g.spec_cols() {
        lemma_dir_cc_matches(g, wl, r, c, Direction::Right, w);
        lemma_dir_cc_matches(g, wl, r, c, Direction::Down, w);
        lemma_dir_cc_matches(g, wl, r, c, Direction::Diagonal, w);
        lemma_dir_cc_matches(g, wl, r, c, Direction::AntiDiagonal, w);
        lemma_row_cc_matches(g, wl, w, r, c + 1);
    }
}

proof fn lemma_grid_cc_matches(g: Crossword, wl: int, w: Seq<u8>, r: int)
    requires
        g.wf(),
        1 <= w.len() <= wl,
        wl >= 2,
    ensures
        grid_cc(g, wl, r, canonical_spec(w)) == crate::grid_match_count(g, w, r),
    decreases g.rows - r,
{
    if 0 <= r < g.rows {
        lemma_row_cc_matches(g, wl, w, r, 0);
        lemma_grid_cc_matches(g, wl, w, r + 1);
    }
}

/// For configured lengths of at least 2, the count stored under the
/// canonical key of a short word is exactly the oracle's count.
pub proof fn lemma_complete_count_matches(g: Crossword, wl: int, w: Seq<u8>)
    requires
        g.wf(),
        1 <= w.len() <= wl,
        wl >= 2,
    ensures
        complete_count(g, wl, canonical_spec(w)) == crate::naive_count(g, w),
{
    lemma_grid_cc_matches(g, wl, w, 0);
}

proof fn lemma_confirmed_shift(
    g: Crossword,
    l1: Seq<(usize, usize, Direction)>,
    l2: Seq<(usize, usize, Direction)>,
    w: Seq<u8>,
    j: int,
)
    requires
        0 <= j <= l2.len(),
    ensures
        confirmed_from(g, l1 + l2, w, l1.len() + j) == confirmed_from(g, l2, w, j),
    decreases l2.len() - j,
{
    if j < l2.len() {
        assert((l1 + l2)[l1.len() + j] == l2[j]);
        lemma_confirmed_shift(g, l1, l2, w, j + 1);
    }
}

/// Confirmation counts add over concatenated anchor lists.
pub proof fn lemma_confirmed_concat_from(
    g: Crossword,
    l1: Seq<(usize, usize, Direction)>,
    l2: Seq<(usize, usize, Direction)>,
    w: Seq<u8>,
    i: int,
)
    requires
        0 <= i <= l1.len(),
    ensures
        confirmed_from(g, l1 + l2, w, i) == confirmed_from(g, l1, w, i) + confirmed(g, l2, w),
    decreases l1.len() - i,
{
    if i < l1.len() {
        assert((l1 + l2)[i] == l1[i]);
        lemma_confirmed_concat_from(g, l1, l2, w, i + 1);
    } else {
        lemma_confirmed_shift(g, l1, l2, w, 0);
    }
}

/// One anchor's stored entry is confirmed for `w` exactly when `w` reads
/// forward at that anchor.
proof fn lemma_confirmed_dir_anchor(
    g: Crossword,
    wl: int,
    r: int,
    c: int,
    dir: Direction,
    w: Seq<u8>,
)
    requires
        g.wf(),
        wl >= 1,
        w.len() > wl,
        0 <= r,
        0 <= c,
    ensures
        confirmed(g, dir_anchor(g, wl, r, c, dir, w.take(wl)), w) == (if crate::forward_match(
            g,
            w,
            r,
            c,
            dir,
        ) {
            1nat
        } else {
            0nat
        }),
{
    let k = w.take(wl);
    if crate::forward_match(g, w, r, c, dir) {
        crate::lemma_in_bounds_prefix(g, r, c, dir, w.len() as int, wl);
        lemma_run_take(g, r, c, dir, w.len() as int, wl);
    }
    if g.in_bounds_run(r, c, dir, wl) && g.run_seq(r, c, dir, wl) == k {
        crate::lemma_cols_le_len(g);
        assert(0 <= r < g.rows);
        assert(0 <= c < g.spec_cols());
        let a = (r as usize, c as usize, dir);
        let l = dir_anchor(g, wl, r, c, dir, k);
        assert(l == seq![a]);
        assert(confirmed(g, l, w) == (if anchor_matches(g, a, w) {
            1nat
        } else {
            0nat
        }) + confirmed_from(g, l, w, 1));
        assert(confirmed_from(g, l, w, 1) == 0);
        assert(a.0 as int == r && a.1 as int == c);
        assert(anchor_matches(g, a, w) == crate::forward_match(g, w, r, c, dir));
    } else {
        assert(dir_anchor(g, wl, r, c, dir, k) =~= Seq::<(usize, usize, Direction)>::empty());
        assert(confirmed(g, Seq::empty(), w) == 0);
        if crate::forward_match(g, w, r, c, dir) {
            crate::lemma_in_bounds_prefix(g, r, c, dir, w.len() as int, wl);
            lemma_run_take(g, r, c, dir, w.len() as int, wl);
            assert(false);
        }
    }
}

proof fn lemma_confirmed_cell(g: Crossword, wl: int, w: Seq<u8>, r: int, c: int)
    requires
        g.wf(),
        wl >= 1,
        w.len() > wl,
        0 <= r,
        0 <= c,
    ensures
        confirmed(g, cell_anchors(g, wl, r, c, w.take(wl)), w) == crate::cell_forward_count(
            g,
            w,
            r,
            c,
        ),
{
    let k = w.take(wl);
    let d1 = dir_anchor(g, wl, r, c, Direction::Right, k);
    let d2 = dir_anchor(g, wl, r, c, Direction::Down, k);
    let d3 = dir_anchor(g, wl, r, c, Direction::Diagonal, k);
    let d4 = dir_anchor(g, wl, r, c, Direction::AntiDiagonal, k);
    lemma_confirmed_dir_anchor(g, wl, r, c, Direction::Right, w);
    lemma_confirmed_dir_anchor(g, wl, r, c, Direction::Down, w);
    lemma_confirmed_dir_anchor(g, wl, r, c, Direction::Diagonal, w);
    lemma_confirmed_dir_anchor(g, wl, r, c, Direction::AntiDiagonal, w);
    lemma_confirmed_concat_from(g, d1 + d2 + d3, d4, w, 0);
    lemma_confirmed_concat_from(g, d1 + d2, d3, w, 0);
    lemma_confirmed_concat_from(g, d1, d2, w, 0);
}

proof fn lemma_confirmed_row(g: Crossword, wl: int, w: Seq<u8>, r: int, c: int)
    requires
        g.wf(),
        wl >= 1,
        w.len() > wl,
        0 <= r,
    ensures
        confirmed(g, row_anchors(g, wl, r, c, w.take(wl)), w) == crate::row_forward_count(
            g,
            w,
            r,
            c,
        ),
    decreases g.spec_cols() - c,
{
    let k = w.take(wl);
    if 0 <= c < g.spec_cols() {
        lemma_confirmed_cell(g, wl, w, r, c);
        lemma_confirmed_row(g, wl, w, r, c + 1);
        lemma_confirmed_concat_from(g, cell_anchors(g, wl, r, c, k), row_anchors(
            g,
            wl,
            r,
            c + 1,
            k,
        ), w, 0);
    } else {
        assert(confirmed(g, Seq::empty(), w) == 0);
    }
}

proof fn lemma_confirmed_grid(g: Crossword, wl: int, w: Seq<u8>, r: int)
    requires
        g.wf(),
        wl >= 1,
        w.len() > wl,
    ensures
        confirmed(g, grid_anchors(g, wl, r, w.take(wl)), w) == crate::grid_forward_count(g, w, r),
    decreases g.rows - r,
{
    let k = w.take(wl);
    if 0 <= r < g.rows {
        lemma_confirmed_row(g, wl, w, r, 0);
        lemma_confirmed_grid(g, wl, w, r + 1);
        lemma_confirmed_concat_from(g, row_anchors(g, wl, r, 0, k), grid_anchors(
            g,
            wl,
            r + 1,
            k,
        ), w, 0);
    } else {
        assert(confirmed(g, Seq::empty(), w) == 0);
    }
}

/// Re-verifying the stored anchors of a long word's leading bytes counts
/// exactly the word's forward occurrences in the grid.
pub proof fn lemma_anchors_confirmed(g: Crossword, wl: int, w: Seq<u8>)
    requires
        g.wf(),
        wl >= 1,
        w.len() > wl,
    ensures
        confirmed(g, anchors_spec(g, wl, w.take(wl)), w) == crate::forward_count(g, w),
{
    lemma_confirmed_grid(g, wl, w, 0);
}

proof fn lemma_row_cc_nil(g: Crossword, wl: int, r: int, c: int, q: Seq<u8>)
    requires
        q.len() == 0,
    ensures
        row_cc(g, wl, r, c, q) == 0,
    decreases g.spec_cols() - c,
{
    if 0 <= c < g.spec_cols() {
        lemma_row_cc_nil(g, wl, r, c + 1, q);
    }
}

proof fn lemma_grid_cc_nil(g: Crossword, wl: int, r: int, q: Seq<u8>)
    requires
        q.len() == 0,
    ensures
        grid_cc(g, wl, r, q) == 0,
    decreases g.rows - r,
{
    if 0 <= r < g.rows {
        lemma_row_cc_nil(g, wl, r, 0, q);
        lemma_grid_cc_nil(g, wl, r + 1, q);
    }
}

/// The hash index answers every query exactly as the brute-force oracle,
/// whatever configured length it was built with — except a one-byte query
/// against a configured length of 1, where the single character is indexed
/// once per cell rather than once per direction.
pub proof fn lemma_hash_matches_oracle<'a>(h: CrosswordHashMap<'a>, g: Crossword, w: Seq<u8>)
    requires
        *h.crossword == g,
        g.wf(),
        h.word_len >= 1,
        !(w.len() == 1 && h.word_len == 1),
        forall|q: Seq<u8>|
            #[trigger] count_val(h.complete_words.entries@, q) == complete_count(
                g,
                h.word_len as int,
                q,
            ),
        forall|q: Seq<u8>|
            #[trigger] anchors_of(h.incomplete_words.entries@, q) == anchors_spec(
                g,
                h.word_len as int,
                q,
            ),
    ensures
        h.count_spec_of(w) == crate::naive_count(g, w),
{
    let wl = h.word_len as int;
    if w.len() == 0 {
        crate::utils::lemma_canonical_pair(w);
        assert(count_val(h.complete_words.entries@, canonical_spec(w)) == complete_count(
            g,
            wl,
            canonical_spec(w),
        ));
        lemma_grid_cc_nil(g, wl, 0, canonical_spec(w));
    } else if w.len() <= h.word_len {
        assert(count_val(h.complete_words.entries@, canonical_spec(w)) == complete_count(
            g,
            wl,
            canonical_spec(w),
        ));
        lemma_complete_count_matches(g, wl, w);
    } else {
        let rev = w.reverse();
        assert(anchors_of(h.incomplete_words.entries@, w.take(wl)) == anchors_spec(
            g,
            wl,
            w.take(wl),
        ));
        assert(anchors_of(h.incomplete_words.entries@, rev.take(wl)) == anchors_spec(
            g,
            wl,
            rev.take(wl),
        ));
        lemma_anchors_confirmed(g, wl, w);
        lemma_anchors_confirmed(g, wl, rev);
        crate::lemma_naive_forward_split(g, w);
    }
}

/// Building the hash index twice over one grid with one configured length
/// gives the same answer to every query: both maps are pinned to functions
/// of the grid and the length alone, and a query is a function of the maps
/// and the grid alone.
pub proof fn lemma_hash_build_invariant<'a, 'b>(
    g: Crossword,
    a: CrosswordHashMap<'a>,
    b: CrosswordHashMap<'b>,
    w: Seq<u8>,
)
    requires
        a.word_len == b.word_len,
        *a.crossword == g,
        *b.crossword == g,
        forall|q: Seq<u8>|
            #[trigger] count_val(a.complete_words.entries@, q) == complete_count(
                g,
                a.word_len as int,
                q,
            ),
        forall|q: Seq<u8>|
            #[trigger] count_val(b.complete_words.entries@, q) == complete_count(
                g,
                b.word_len as int,
                q,
            ),
        forall|q: Seq<u8>|
            #[trigger] anchors_of(a.incomplete_words.entries@, q) == anchors_spec(
                g,
                a.word_len as int,
                q,
            ),
        forall|q: Seq<u8>|
            #[trigger] anchors_of(b.incomplete_words.entries@, q) == anchors_spec(
                g,
                b.word_len as int,
                q,
            ),
    ensures
        a.count_spec_of(w) == b.count_spec_of(w),
{
    let wl = a.word_len as int;
    if w.len() <= a.word_len {
        assert(count_val(a.complete_words.entries@, canonical_spec(w)) == complete_count(
            g,
            wl,
            canonical_spec(w),
        ));
        assert(count_val(b.complete_words.entries@, canonical_spec(w)) == complete_count(
            g,
            wl,
            canonical_spec(w),
        ));
    } else {
        assert(anchors_of(a.incomplete_words.entries@, w.take(wl)) == anchors_spec(
            g,
            wl,
            w.take(wl),
        ));
        assert(anchors_of(b.incomplete_words.entries@, w.take(wl)) == anchors_spec(
            g,
            wl,
            w.take(wl),
        ));
        assert(anchors_of(a.incomplete_words.entries@, w.reverse().take(wl)) == anchors_spec(
            g,
            wl,
            w.reverse().take(wl),
        ));
        assert(anchors_of(b.incomplete_words.entries@, w.reverse().take(wl)) == anchors_spec(
            g,
            wl,
            w.reverse().take(wl),
        ));
    }
}

/// The headroom `adds + 4 <= usize::MAX - 2` needed before each cell's
/// registrations, from the grid's size bound.
proof fn lemma_adds_headroom(g: Crossword, row: int, col: int, adds: int)
    requires
        g.wf(),
        g.fits(),
        0 <= adds,
        0 <= row < g.rows,
        0 <= col < g.spec_cols(),
        adds <= 4 * (row * g.spec_cols() + col),
        g.data@.len() == (g.rows as int) * g.spec_cols(),
    ensures
        adds + 4 <= usize::MAX - 2,
{
    crate::lemma_grid_index(g, row, col);
    assert(4 * (row * g.spec_cols() + col) + 4 <= 4 * g.data@.len()) by (nonlinear_arith)
        requires
            0 <= row * g.spec_cols() + col < g.data@.len(),
    ;
}

/// Counts the anchors of `list` whose re-fetched run reads as `w`.
fn count_confirmed(
    g: &Crossword,
    list: &Vec<(usize, usize, Direction)>,
    word: &[u8],
) -> (r: usize)
    requires
        g.wf(),
        word@.len() >= 1,
    ensures
        r == confirmed(*g, list@, word@),
        r <= list@.len(),
{
    proof {
        lemma_confirmed_bound(*g, list@, word@, 0);
    }
    let mut count: usize = 0;
    let mut i: usize = 0;
    while i < list.len()
        invariant
            g.wf(),
            word@.len() >= 1,
            i <= list@.len(),
            count <= i,
            count + confirmed_from(*g, list@, word@, i as int) == confirmed(*g, list@, word@),
        decreases list@.len() - i,
    {
        let (arow, acol, adir) = list[i];
        match g.get_word(arow, acol, adir, word.len()) {
            Some(found) => {
                if bytes_eq(found.as_slice(), word) {
                    count += 1;
                }
            },
            None => {},
        }
        i += 1;
    }
    count
}

impl Solver for CrosswordHashMap<'_> {
    open spec fn solver_wf(&self) -> bool {
        self.wf()
    }

    open spec fn count_spec(&self, word: Seq<u8>) -> nat {
        self.count_spec_of(word)
    }

    fn count_occurrences(&self, word: &[u8]) -> (r: usize) {
        if word.len() <= self.word_len {
            let key = canonical_order(word);
            return match self.complete_words.get(key.as_slice()) {
                Some(c) => c,
                None => 0,
            };
        }
        let wlen = self.word_len;
        let mut prefix: Vec<u8> = Vec::new();
        let mut i: usize = 0;
        while i < wlen
            invariant
                i <= wlen,
                wlen < word@.len(),
                prefix@ == word@.take(i as int),
            decreases wlen - i,
        {
            proof {
                assert(word@.take(i + 1) =~= word@.take(i as int).push(word@[i as int]));
            }
            prefix.push(word[i]);
            i += 1;
        }
        let mut count: usize = 0;
        match self.incomplete_words.get_index(prefix.as_slice()) {
            Some(e) => {
                count = count_confirmed(self.crossword, &self.incomplete_words.entries[e].1, word);
                proof {
                    assert(self.incomplete_words.entries@[e as int].1@ == anchors_of(
                        self.incomplete_words.entries@,
                        word@.take(self.word_len as int),
                    ));
                }
            },
            None => {
                proof {
                    assert(anchors_of(
                        self.incomplete_words.entries@,
                        word@.take(self.word_len as int),
                    ) =~= Seq::<(usize, usize, Direction)>::empty());
                }
            },
        }
        if !is_palindrome(word) {
            let rev = reverse_bytes(word);
            let mut revprefix: Vec<u8> = Vec::new();
            let mut j: usize = 0;
            while j < wlen
                invariant
                    j <= wlen,
                    wlen < rev@.len(),
                    rev@ == word@.reverse(),
                    revprefix@ == rev@.take(j as int),
                decreases wlen - j,
            {
                proof {
                    assert(rev@.take(j + 1) =~= rev@.take(j as int).push(rev@[j as int]));
                }
                revprefix.push(rev[j]);
                j += 1;
            }
            match self.incomplete_words.get_index(revprefix.as_slice()) {
                Some(e) => {
                    let c2 = count_confirmed(
                        self.crossword,
                        &self.incomplete_words.entries[e].1,
                        rev.as_slice(),
                    );
                    proof {
                        assert(self.incomplete_words.entries@[e as int].1@ == anchors_of(
                            self.incomplete_words.entries@,
                            word@.reverse().take(self.word_len as int),
                        ));
                        assert(self.incomplete_words.entries@[e as int].1@.len() <= usize::MAX
                            as int / 2);
                    }
                    count = count + c2;
                },
                None => {
                    proof {
                        assert(anchors_of(
                            self.incomplete_words.entries@,
                            word@.reverse().take(self.word_len as int),
                        ) =~= Seq::<(usize, usize, Direction)>::empty());
                    }
                },
            }
        }
        count
    }
}

} // verus!
