//! The keyword-indexed associative container.
//!
//! A [`KeywordMap`] stores values in a dense, position-addressed store and
//! keeps two indexes over it: an exact-key index mapping each full key to its
//! position, and an inverted keyword index holding one `(token, position)`
//! entry per token produced by tokenizing each key at insertion time.
//! Removal compacts the store, so every position above the removed one is
//! pulled down by one in both indexes.

use crate::tokenizer::ascii_keywords_of;
use crate::tokenizer::tokens_of;
use vstd::prelude::*;
use vstd::string::StrSliceExecFns;

verus! {

/// The result of a partial-keyword search: either the queried string was
/// itself a stored key (`Exact`), or it was merely a byte prefix of a token
/// inside some stored key (`Prefix`).
#[derive(Clone, Debug, PartialEq, Eq, Hash)]
pub enum Match<V> {
    Exact(V),
    Prefix(V),
}

/// The value carried by a match, whichever kind it is.
pub open spec fn match_value<V>(m: Match<V>) -> V {
    match m {
        Match::Exact(v) => v,
        Match::Prefix(v) => v,
    }
}

/// Whether a match is an exact one.
pub open spec fn is_exact<V>(m: Match<V>) -> bool {
    m is Exact
}

impl<V> Match<V> {
    /// Extracts the inner value from the `Match`.
    pub fn into_inner(self) -> (r: V)
        ensures
            r == match_value(self),
    {
        match self {
            Match::Exact(v) => v,
            Match::Prefix(v) => v,
        }
    }
}

impl<V: vstd::std_specs::cmp::PartialOrdSpec> PartialOrd for Match<V> {
    /// Two matches of the same kind compare by their values; an `Exact`
    /// match always orders before a `Prefix` match.
    fn partial_cmp(&self, other: &Self) -> (r: Option<core::cmp::Ordering>) {
        match (self, other) {
            (Match::Exact(a), Match::Exact(b)) => a.partial_cmp(b),
            (Match::Prefix(a), Match::Prefix(b)) => a.partial_cmp(b),
            (Match::Exact(_), Match::Prefix(_)) => Some(core::cmp::Ordering::Less),
            (Match::Prefix(_), Match::Exact(_)) => Some(core::cmp::Ordering::Greater),
        }
    }
}

impl<V: vstd::std_specs::cmp::PartialOrdSpec> vstd::std_specs::cmp::PartialOrdSpecImpl for Match<V> {
    open spec fn obeys_partial_cmp_spec() -> bool {
        V::obeys_partial_cmp_spec()
    }

    open spec fn partial_cmp_spec(&self, other: &Self) -> Option<core::cmp::Ordering> {
        match (self, other) {
            (Match::Exact(a), Match::Exact(b)) => a.partial_cmp_spec(b),
            (Match::Prefix(a), Match::Prefix(b)) => a.partial_cmp_spec(b),
            (Match::Exact(_), Match::Prefix(_)) => Some(core::cmp::Ordering::Less),
            (Match::Prefix(_), Match::Exact(_)) => Some(core::cmp::Ordering::Greater),
        }
    }
}

impl<V> Default for KeywordMap<V> {
    /// An empty container, the same as [`KeywordMap::new`].
    fn default() -> (r: Self)
        ensures
            r.wf(),
            r.data_view() == Seq::<V>::empty(),
            r.keys_view() == Seq::<(Seq<char>, int)>::empty(),
            r.kw_view() == Seq::<(Seq<char>, int)>::empty(),
            r.kw_grouped(),
            forall|k: Seq<char>| !r.spec_contains(k),
    {
        Self::new()
    }
}

/// The mathematical view of a list of index entries: each entry is the text
/// of its key or token together with the position it points at.
pub open spec fn entry_views(es: Seq<(String, usize)>) -> Seq<(Seq<char>, int)> {
    es.map_values(|e: (String, usize)| (e.0@, e.1 as int))
}

/// Whether some entry carries the key text `k`.
pub open spec fn has_key(es: Seq<(Seq<char>, int)>, k: Seq<char>) -> bool {
    exists|i: int| 0 <= i < es.len() && es[i].0 == k
}

/// The index of the entry carrying the key text `k` (meaningful only when
/// `has_key` holds and keys are distinct).
pub open spec fn slot_of(es: Seq<(Seq<char>, int)>, k: Seq<char>) -> int {
    choose|i: int| 0 <= i < es.len() && es[i].0 == k
}

/// The position recorded for the key text `k`.
pub open spec fn pos_of(es: Seq<(Seq<char>, int)>, k: Seq<char>) -> int {
    es[slot_of(es, k)].1
}

/// No two entries carry the same key text.
pub open spec fn distinct_keys(es: Seq<(Seq<char>, int)>) -> bool {
    forall|i: int, j: int| 0 <= i < j < es.len() ==> es[i].0 != es[j].0
}

/// No two entries point at the same position.
pub open spec fn distinct_positions(es: Seq<(Seq<char>, int)>) -> bool {
    forall|i: int, j: int| 0 <= i < j < es.len() ==> es[i].1 != es[j].1
}

/// Every entry points inside a store of length `n`.
pub open spec fn positions_bounded(es: Seq<(Seq<char>, int)>, n: int) -> bool {
    forall|i: int| #![trigger es[i]] 0 <= i < es.len() ==> 0 <= es[i].1 < n
}

/// `es` with every position above `p` pulled down by one.
pub open spec fn shifted_down(es: Seq<(Seq<char>, int)>, p: int) -> Seq<(Seq<char>, int)> {
    es.map_values(|e: (Seq<char>, int)| if e.1 > p { (e.0, e.1 - 1) } else { e })
}

/// `es` with every entry pointing at `p` dropped and every position above
/// `p` pulled down by one.
pub open spec fn purged(es: Seq<(Seq<char>, int)>, p: int) -> Seq<(Seq<char>, int)>
    decreases es.len(),
{
    if es.len() == 0 {
        Seq::empty()
    } else {
        let e = es.last();
        let rest = purged(es.drop_last(), p);
        if e.1 == p {
            rest
        } else if e.1 > p {
            rest.push((e.0, e.1 - 1))
        } else {
            rest.push(e)
        }
    }
}

/// One keyword-index entry per element of `ts`, each pointing at position
/// `q`: the group of entries a single key contributes.
pub open spec fn group_entries(ts: Seq<Seq<char>>, q: int) -> Seq<(Seq<char>, int)> {
    ts.map_values(|t: Seq<char>| (t, q))
}

/// One keyword-index entry per token of the key text `k`, each pointing at
/// position `p`.
pub open spec fn token_entries(k: Seq<char>, p: int) -> Seq<(Seq<char>, int)> {
    group_entries(tokens_of(k), p)
}

/// The keyword index that an exact-key index prescribes: one group of token
/// entries per key, in slot order.
pub open spec fn kw_groups(keys: Seq<(Seq<char>, int)>) -> Seq<(Seq<char>, int)>
    decreases keys.len(),
{
    if keys.len() == 0 {
        Seq::empty()
    } else {
        kw_groups(keys.drop_last()) + token_entries(keys.last().0, keys.last().1)
    }
}

/// Compaction distributes over concatenation of index entries.
pub proof fn lemma_purged_add(a: Seq<(Seq<char>, int)>, b: Seq<(Seq<char>, int)>, p: int)
    ensures
        purged(a + b, p) == purged(a, p) + purged(b, p),
    decreases b.len(),
{
    if b.len() == 0 {
        assert(a + b =~= a);
        assert(purged(b, p) == Seq::<(Seq<char>, int)>::empty());
        assert(purged(a, p) + purged(b, p) =~= purged(a, p));
    } else {
        lemma_purged_add(a, b.drop_last(), p);
        assert((a + b).len() > 0);
        assert((a + b).drop_last() =~= a + b.drop_last());
        assert((a + b).last() == b.last());
        let e = b.last();
        if e.1 == p {
        } else if e.1 > p {
            assert(purged(a, p) + purged(b.drop_last(), p).push((e.0, e.1 - 1)) =~= (purged(a, p)
                + purged(b.drop_last(), p)).push((e.0, e.1 - 1)));
        } else {
            assert(purged(a, p) + purged(b.drop_last(), p).push(e) =~= (purged(a, p) + purged(
                b.drop_last(),
                p,
            )).push(e));
        }
    }
}

/// Compacting a single key's group either drops it whole (its position was
/// removed) or moves it whole to the key's shifted position.
pub proof fn lemma_purged_group(ts: Seq<Seq<char>>, q: int, p: int)
    ensures
        q == p ==> purged(group_entries(ts, q), p) == Seq::<(Seq<char>, int)>::empty(),
        q != p ==> purged(group_entries(ts, q), p) == group_entries(
            ts,
            if q > p {
                q - 1
            } else {
                q
            },
        ),
    decreases ts.len(),
{
    let g = group_entries(ts, q);
    if ts.len() == 0 {
        assert(g =~= Seq::<(Seq<char>, int)>::empty());
        if q != p {
            let q2 = if q > p {
                q - 1
            } else {
                q
            };
            assert(group_entries(ts, q2) =~= Seq::<(Seq<char>, int)>::empty());
        }
    } else {
        lemma_purged_group(ts.drop_last(), q, p);
        assert(g.len() == ts.len());
        assert(g.drop_last() =~= group_entries(ts.drop_last(), q));
        assert(g.last() == (ts.last(), q));
        if q != p {
            let q2 = if q > p {
                q - 1
            } else {
                q
            };
            assert(group_entries(ts, q2) =~= group_entries(ts.drop_last(), q2).push(
                (ts.last(), q2),
            ));
        }
    }
}

/// Compacting at `p` leaves entries untouched when every position lies
/// below `p`.
pub proof fn lemma_purged_low(es: Seq<(Seq<char>, int)>, p: int)
    requires
        positions_bounded(es, p),
    ensures
        purged(es, p) == es,
    decreases es.len(),
{
    if es.len() > 0 {
        assert(positions_bounded(es.drop_last(), p));
        lemma_purged_low(es.drop_last(), p);
        assert(0 <= es[es.len() - 1].1 && es[es.len() - 1].1 < p);
        assert(es.drop_last().push(es.last()) =~= es);
    }
}

/// In a dense exact-key index (slot `i` points at position `i`), the
/// prescribed keyword index points only inside the store.
pub proof fn lemma_kw_groups_bounded(keys: Seq<(Seq<char>, int)>)
    requires
        forall|i: int| #![trigger keys[i]] 0 <= i < keys.len() ==> keys[i].1 == i,
    ensures
        positions_bounded(kw_groups(keys), keys.len() as int),
    decreases keys.len(),
{
    if keys.len() > 0 {
        let front = keys.drop_last();
        assert(forall|i: int| #![trigger front[i]] 0 <= i < front.len() ==> front[i].1 == i);
        lemma_kw_groups_bounded(front);
        let n = keys.len() as int;
        let g = token_entries(keys.last().0, n - 1);
        assert(keys[n - 1].1 == n - 1);
        assert forall|i: int| 0 <= i < kw_groups(keys).len() implies 0 <= #[trigger] kw_groups(
            keys,
        )[i].1 && kw_groups(keys)[i].1 < n by {
            if i < kw_groups(front).len() {
                assert(kw_groups(keys)[i] == kw_groups(front)[i]);
            } else {
                assert(kw_groups(keys)[i] == g[i - kw_groups(front).len()]);
            }
        }
    }
}

/// Removing the key at position `p` from a dense exact-key index and
/// compacting the keyword index leaves exactly the groups of the remaining
/// keys, at their shifted positions.
pub proof fn lemma_kw_groups_removal(keys: Seq<(Seq<char>, int)>, p: int)
    requires
        forall|i: int| #![trigger keys[i]] 0 <= i < keys.len() ==> keys[i].1 == i,
        0 <= p < keys.len(),
    ensures
        purged(kw_groups(keys), p) == kw_groups(shifted_down(keys.remove(p), p)),
    decreases keys.len(),
{
    let n = keys.len() as int;
    let front = keys.drop_last();
    let lastk = keys.last();
    assert(lastk.1 == n - 1);
    assert(forall|i: int| #![trigger front[i]] 0 <= i < front.len() ==> front[i].1 == i);
    lemma_purged_add(kw_groups(front), token_entries(lastk.0, n - 1), p);
    keys.remove_ensures(p);
    if p == n - 1 {
        lemma_purged_group(tokens_of(lastk.0), n - 1, p);
        lemma_kw_groups_bounded(front);
        lemma_purged_low(kw_groups(front), p);
        assert(purged(kw_groups(keys), p) =~= kw_groups(front));
        assert(keys.remove(p) =~= front);
        assert(shifted_down(front, p) =~= front);
    } else {
        lemma_kw_groups_removal(front, p);
        lemma_purged_group(tokens_of(lastk.0), n - 1, p);
        let keyss = shifted_down(keys.remove(p), p);
        assert(keyss.len() == n - 1);
        assert(keys.remove(p)[n - 2] == keys[n - 1]);
        assert(keyss.last() == (lastk.0, n - 2));
        assert(keyss.drop_last() =~= shifted_down(front.remove(p), p)) by {
            front.remove_ensures(p);
            assert forall|x: int| 0 <= x < n - 2 implies #[trigger] keyss.drop_last()[x]
                == shifted_down(front.remove(p), p)[x] by {
                if x < p {
                    assert(keys.remove(p)[x] == keys[x]);
                    assert(front.remove(p)[x] == front[x]);
                    assert(front[x] == keys[x]);
                } else {
                    assert(keys.remove(p)[x] == keys[x + 1]);
                    assert(front.remove(p)[x] == front[x + 1]);
                    assert(front[x + 1] == keys[x + 1]);
                }
            }
        }
        assert(kw_groups(keyss) == kw_groups(keyss.drop_last()) + token_entries(
            keyss.last().0,
            keyss.last().1,
        ));
        assert(purged(kw_groups(keys), p) =~= kw_groups(keyss));
    }
}

/// The positions of the keyword-index entries whose token starts with `q`,
/// in index order, leaving out any entry pointing at the position `skip`.
pub open spec fn prefix_hits(
    kws: Seq<(Seq<char>, int)>,
    q: Seq<char>,
    skip: Option<int>,
) -> Seq<int>
    decreases kws.len(),
{
    if kws.len() == 0 {
        Seq::empty()
    } else {
        let rest = prefix_hits(kws.drop_last(), q, skip);
        let e = kws.last();
        if q.is_prefix_of(e.0) && skip != Some(e.1) {
            rest.push(e.1)
        } else {
            rest
        }
    }
}

/// The prefix hits of `q`, tagged as non-exact results.
pub open spec fn prefix_entries(
    kws: Seq<(Seq<char>, int)>,
    q: Seq<char>,
    skip: Option<int>,
) -> Seq<(bool, int)> {
    prefix_hits(kws, q, skip).map_values(|p: int| (false, p))
}

/// Every prefix hit is the position of some index entry, so it is bounded
/// whenever the index is, and it never equals the skipped position.
pub proof fn lemma_prefix_hits_sound(
    kws: Seq<(Seq<char>, int)>,
    q: Seq<char>,
    skip: Option<int>,
    n: int,
)
    requires
        positions_bounded(kws, n),
    ensures
        forall|i: int| #![trigger prefix_hits(kws, q, skip)[i]]
            0 <= i < prefix_hits(kws, q, skip).len() ==> {
                &&& 0 <= prefix_hits(kws, q, skip)[i] < n
                &&& skip != Some(prefix_hits(kws, q, skip)[i])
            },
    decreases kws.len(),
{
    if kws.len() > 0 {
        assert(positions_bounded(kws.drop_last(), n));
        lemma_prefix_hits_sound(kws.drop_last(), q, skip, n);
        let h = prefix_hits(kws, q, skip);
        let rest = prefix_hits(kws.drop_last(), q, skip);
        let e = kws.last();
        assert(0 <= kws[kws.len() - 1].1 < n);
        if q.is_prefix_of(e.0) && skip != Some(e.1) {
            assert(h == rest.push(e.1));
            assert forall|i: int| 0 <= i < h.len() implies 0 <= #[trigger] h[i] < n && skip
                != Some(h[i]) by {
                if i < rest.len() {
                    assert(h[i] == rest[i]);
                } else {
                    assert(h[i] == e.1);
                }
            }
        } else {
            assert(h == rest);
        }
    }
}

/// Unfolds one step of [`prefix_hits`] over a growing prefix of the index.
pub proof fn lemma_prefix_hits_step(
    kws: Seq<(Seq<char>, int)>,
    q: Seq<char>,
    skip: Option<int>,
    j: int,
)
    requires
        0 <= j < kws.len(),
    ensures
        prefix_hits(kws.take(j + 1), q, skip) == (if q.is_prefix_of(kws[j].0) && skip != Some(
            kws[j].1,
        ) {
            prefix_hits(kws.take(j), q, skip).push(kws[j].1)
        } else {
            prefix_hits(kws.take(j), q, skip)
        }),
{
    assert(kws.take(j + 1).drop_last() =~= kws.take(j));
    assert(kws.take(j + 1).last() == kws[j]);
    assert(kws.take(j + 1).len() == j + 1);
}

/// Taking the entry views commutes with removing an entry.
pub proof fn lemma_entry_views_remove(es: Seq<(String, usize)>, i: int)
    requires
        0 <= i < es.len(),
    ensures
        entry_views(es.remove(i)) == entry_views(es).remove(i),
{
    es.remove_ensures(i);
    entry_views(es).remove_ensures(i);
    assert(entry_views(es.remove(i)) =~= entry_views(es).remove(i));
}

/// Positions stay in bounds when a store of length `n` is compacted at `p`.
pub proof fn lemma_purged_bounded(es: Seq<(Seq<char>, int)>, p: int, n: int)
    requires
        positions_bounded(es, n),
        0 <= p < n,
    ensures
        positions_bounded(purged(es, p), n - 1),
    decreases es.len(),
{
    if es.len() > 0 {
        assert(positions_bounded(es.drop_last(), n));
        lemma_purged_bounded(es.drop_last(), p, n);
    }
}

/// If entry `i` carries key text `k` and keys are distinct, then `i` is the
/// slot the model functions pick.
pub proof fn lemma_slot_unique(es: Seq<(Seq<char>, int)>, k: Seq<char>, i: int)
    requires
        distinct_keys(es),
        0 <= i < es.len(),
        es[i].0 == k,
    ensures
        has_key(es, k),
        slot_of(es, k) == i,
        pos_of(es, k) == es[i].1,
{
    assert(has_key(es, k));
    let j = slot_of(es, k);
    assert(0 <= j < es.len() && es[j].0 == k);
    if i < j {
        assert(es[i].0 != es[j].0);
    }
    if j < i {
        assert(es[j].0 != es[i].0);
    }
}

/// Character-by-character string equality.
fn str_eq(a: &str, b: &str) -> (r: bool)
    ensures
        r == (a@ == b@),
{
    let n = a.unicode_len();
    let m = b.unicode_len();
    if n != m {
        return false;
    }
    let mut i: usize = 0;
    while i < n
        invariant
            n == a@.len(),
            n == b@.len(),
            i <= n,
            forall|k: int| 0 <= k < i ==> a@[k] == b@[k],
        decreases n - i,
    {
        let ca = a.get_char(i);
        let cb = b.get_char(i);
        if ca != cb {
            return false;
        }
        i += 1;
    }
    proof {
        assert(a@ =~= b@);
    }
    true
}

/// Character-by-character prefix test: does `t` start with `q`?
fn str_starts_with(t: &str, q: &str) -> (r: bool)
    ensures
        r == q@.is_prefix_of(t@),
{
    let tl = t.unicode_len();
    let ql = q.unicode_len();
    if ql > tl {
        return false;
    }
    let mut i: usize = 0;
    while i < ql
        invariant
            tl == t@.len(),
            ql == q@.len(),
            ql <= tl,
            i <= ql,
            forall|k: int| 0 <= k < i ==> t@[k] == q@[k],
        decreases ql - i,
    {
        let ct = t.get_char(i);
        let cq = q.get_char(i);
        if ct != cq {
            proof {
                assert(!q@.is_prefix_of(t@)) by {
                    if q@.is_prefix_of(t@) {
                        assert(q@[i as int] == t@.subrange(0, ql as int)[i as int]);
                    }
                }
            }
            return false;
        }
        i += 1;
    }
    proof {
        assert(q@ =~= t@.subrange(0, ql as int));
    }
    true
}

/// An associative container with exact-key lookup and prefix lookup over the
/// keyword tokens of its keys.
///
/// Re-inserting a key that is already present behaves as removing the old
/// entry first and then inserting the new one, so keys stay unique and the
/// value store never holds a superseded slot.
#[derive(Clone, Debug)]
pub struct KeywordMap<V> {
    data: Vec<V>,
    keys: Vec<(String, usize)>,
    keyword_index: Vec<(String, usize)>,
}

impl<V> KeywordMap<V> {
    /// The dense value store, by position.
    pub closed spec fn data_view(self) -> Seq<V> {
        self.data@
    }

    /// The exact-key index: key text and position, in insertion order.
    pub closed spec fn keys_view(self) -> Seq<(Seq<char>, int)> {
        entry_views(self.keys@)
    }

    /// The inverted keyword index: token text and position, in insertion
    /// order.
    pub closed spec fn kw_view(self) -> Seq<(Seq<char>, int)> {
        entry_views(self.keyword_index@)
    }

    /// Whether the full key `k` is present.
    pub open spec fn spec_contains(self, k: Seq<char>) -> bool {
        has_key(self.keys_view(), k)
    }

    /// The position the key `k` maps to.
    pub open spec fn spec_pos(self, k: Seq<char>) -> int {
        pos_of(self.keys_view(), k)
    }

    /// The value stored under the key `k`, if any.
    pub open spec fn spec_get(self, k: Seq<char>) -> Option<V> {
        if self.spec_contains(k) {
            Some(self.data_view()[self.spec_pos(k)])
        } else {
            None
        }
    }

    /// The value store as it stands once `k`'s slot, if any, is compacted
    /// away.
    pub open spec fn data_minus(self, k: Seq<char>) -> Seq<V> {
        if self.spec_contains(k) {
            self.data_view().remove(self.spec_pos(k))
        } else {
            self.data_view()
        }
    }

    /// The exact-key index as it stands once `k`, if present, is removed and
    /// the remaining positions are compacted.
    pub open spec fn keys_minus(self, k: Seq<char>) -> Seq<(Seq<char>, int)> {
        if self.spec_contains(k) {
            shifted_down(self.keys_view().remove(slot_of(self.keys_view(), k)), self.spec_pos(k))
        } else {
            self.keys_view()
        }
    }

    /// The keyword index as it stands once `k`'s slot, if any, is purged.
    pub open spec fn kw_minus(self, k: Seq<char>) -> Seq<(Seq<char>, int)> {
        if self.spec_contains(k) {
            purged(self.kw_view(), self.spec_pos(k))
        } else {
            self.kw_view()
        }
    }

    /// The search result for the query `q`, as `(is_exact, position)` pairs:
    /// the exact match first, if `q` is itself a stored key, followed by one
    /// hit per keyword-index entry whose token starts with `q`, in index
    /// order, never repeating the exact match's position.
    pub open spec fn spec_find(self, q: Seq<char>) -> Seq<(bool, int)> {
        if self.spec_contains(q) {
            seq![(true, self.spec_pos(q))] + prefix_entries(
                self.kw_view(),
                q,
                Some(self.spec_pos(q)),
            )
        } else {
            prefix_entries(self.kw_view(), q, None)
        }
    }

    /// Whether the keyword index holds exactly what the exact-key index
    /// prescribes: one entry per token of each present key, at that key's
    /// position, grouped per key in slot order.  This holds of every
    /// container reachable through the public operations.
    pub open spec fn kw_grouped(self) -> bool {
        self.kw_view() == kw_groups(self.keys_view())
    }

    /// Law: the index shapes that `remove` ensures preserve the per-key
    /// grouping of the keyword index: the removed key's group disappears
    /// whole, and every other group moves to its key's shifted position.
    pub proof fn lemma_remove_keeps_grouping(pre: Self, post: Self, key: Seq<char>)
        requires
            pre.wf(),
            pre.kw_grouped(),
            pre.spec_contains(key),
            post.keys_view() == shifted_down(
                pre.keys_view().remove(slot_of(pre.keys_view(), key)),
                pre.spec_pos(key),
            ),
            post.kw_view() == purged(pre.kw_view(), pre.spec_pos(key)),
        ensures
            post.kw_grouped(),
    {
        let k0 = pre.keys_view();
        let ki = slot_of(k0, key);
        assert(0 <= ki < k0.len() && k0[ki].0 == key);
        assert(k0[ki].1 == ki);
        assert(pre.spec_pos(key) == ki);
        lemma_kw_groups_removal(k0, ki);
    }

    /// Law: the index shapes that `insert` ensures preserve the per-key
    /// grouping: after any old entry for the key is gone, the key
    /// contributes exactly one entry per token of its text, at the new
    /// position, as the last group.
    pub proof fn lemma_insert_keeps_grouping(pre: Self, post: Self, key: Seq<char>)
        requires
            pre.wf(),
            pre.kw_grouped(),
            post.keys_view() == pre.keys_minus(key).push(
                (key, pre.data_minus(key).len() as int),
            ),
            post.kw_view() == pre.kw_minus(key) + token_entries(
                key,
                pre.data_minus(key).len() as int,
            ),
        ensures
            post.kw_grouped(),
    {
        let km = pre.keys_minus(key);
        let l = pre.data_minus(key).len() as int;
        if pre.spec_contains(key) {
            let k0 = pre.keys_view();
            let ki = slot_of(k0, key);
            assert(0 <= ki < k0.len() && k0[ki].0 == key);
            assert(k0[ki].1 == ki);
            assert(pre.spec_pos(key) == ki);
            lemma_kw_groups_removal(k0, ki);
        }
        assert(pre.kw_minus(key) == kw_groups(km));
        let kp = km.push((key, l));
        assert(kp.drop_last() =~= km);
        assert(kp.last() == (key, l));
        assert(kw_groups(kp) == kw_groups(km) + token_entries(key, l));
    }

    /// Well-formedness: the exact-key index has exactly one entry per stored
    /// value, keys are unique, their positions are distinct, and every
    /// position in either index lies inside the value store.  Because
    /// removal compacts positions and insertion appends, the exact-key index
    /// stays sorted by position: its entry at slot `i` points at position
    /// `i`.
    pub open spec fn wf(self) -> bool {
        &&& self.keys_view().len() == self.data_view().len()
        &&& distinct_keys(self.keys_view())
        &&& distinct_positions(self.keys_view())
        &&& positions_bounded(self.keys_view(), self.data_view().len() as int)
        &&& positions_bounded(self.kw_view(), self.data_view().len() as int)
        &&& forall|i: int| #![trigger self.keys_view()[i]]
            0 <= i < self.keys_view().len() ==> self.keys_view()[i].1 == i
    }

    /// Creates a new, empty `KeywordMap`.
    pub fn new() -> (r: Self)
        ensures
            r.wf(),
            r.data_view() == Seq::<V>::empty(),
            r.keys_view() == Seq::<(Seq<char>, int)>::empty(),
            r.kw_view() == Seq::<(Seq<char>, int)>::empty(),
            r.kw_grouped(),
            forall|k: Seq<char>| !r.spec_contains(k),
    {
        let r = KeywordMap { data: Vec::new(), keys: Vec::new(), keyword_index: Vec::new() };
        proof {
            assert(r.keys_view() =~= Seq::<(Seq<char>, int)>::empty());
            assert(r.kw_view() =~= Seq::<(Seq<char>, int)>::empty());
            assert(kw_groups(r.keys_view()) == Seq::<(Seq<char>, int)>::empty());
        }
        r
    }

    /// Dismantles the container into its `(key, value)` pairs, in position
    /// order, consuming it.
    pub fn into_entries(self) -> (r: Vec<(String, V)>)
        requires
            self.wf(),
        ensures
            r@.len() == self.data_view().len(),
            forall|p: int| #![trigger r@[p]]
                0 <= p < r@.len() ==> {
                    &&& r@[p].0@ == self.keys_view()[p].0
                    &&& r@[p].1 == self.data_view()[p]
                },
    {
        let ghost whole = self;
        let KeywordMap { data: mut data, keys: mut keys, keyword_index: _ } = self;
        let ghost d0 = data@;
        let ghost k0 = keys@;
        let mut r: Vec<(String, V)> = Vec::new();
        let n = data.len();
        let mut p: usize = 0;
        proof {
            assert(d0.skip(0) =~= d0);
            assert(k0.skip(0) =~= k0);
        }
        while p < n
            invariant
                n == d0.len(),
                k0.len() == n,
                p <= n,
                data@ == d0.skip(p as int),
                keys@ == k0.skip(p as int),
                r@.len() == p,
                forall|x: int| #![trigger r@[x]]
                    0 <= x < p ==> r@[x].0@ == k0[x].0@ && r@[x].1 == d0[x],
            decreases n - p,
        {
            let e = keys.remove(0);
            let v = data.remove(0);
            r.push((e.0, v));
            proof {
                assert(e == k0.skip(p as int)[0]);
                assert(v == d0.skip(p as int)[0]);
                assert(k0.skip(p as int)[0] == k0[p as int]);
                assert(d0.skip(p as int)[0] == d0[p as int]);
                assert(k0.skip(p as int).remove(0) =~= k0.skip(p as int + 1));
                assert(d0.skip(p as int).remove(0) =~= d0.skip(p as int + 1));
            }
            p += 1;
        }
        proof {
            assert(whole.data_view() == d0);
            assert forall|x: int| 0 <= x < n implies #[trigger] whole.keys_view()[x].0 == k0[x].0@
                by {}
        }
        r
    }

    /// The slot in the exact-key index holding `key`, if any.
    fn key_slot(&self, key: &str) -> (r: Option<usize>)
        ensures
            match r {
                Some(i) => i < self.keys_view().len() && self.keys_view()[i as int].0 == key@,
                None => !self.spec_contains(key@),
            },
    {
        let n = self.keys.len();
        let mut i: usize = 0;
        while i < n
            invariant
                n == self.keys@.len(),
                i <= n,
                forall|k: int| 0 <= k < i ==> self.keys_view()[k].0 != key@,
            decreases n - i,
        {
            let e = &self.keys[i];
            if str_eq(e.0.as_str(), key) {
                return Some(i);
            }
            i += 1;
        }
        None
    }

    /// Inserts a key-value pair.
    ///
    /// The key is tokenized and one keyword-index entry per token is
    /// appended, the value is appended to the value store, and the key is
    /// mapped to the value's position.  Inserting a key that is already
    /// present first removes the old entry, so it behaves as an overwrite.
    pub fn insert(&mut self, key: &str, value: V)
        requires
            old(self).wf(),
        ensures
            final(self).wf(),
            final(self).spec_get(key@) == Some(value),
            forall|k: Seq<char>|
                k != key@ ==> final(self).spec_get(k) == old(self).spec_get(k),
            final(self).data_view() == old(self).data_minus(key@).push(value),
            final(self).keys_view() == old(self).keys_minus(key@).push(
                (key@, old(self).data_minus(key@).len() as int),
            ),
            final(self).kw_view() == old(self).kw_minus(key@) + token_entries(
                key@,
                old(self).data_minus(key@).len() as int,
            ),
            old(self).kw_grouped() ==> final(self).kw_grouped(),
    {
        let ghost pre = *self;
        let present = match self.key_slot(key) {
            Some(_) => true,
            None => false,
        };
        if present {
            let _ = self.remove(key);
        }
        let ghost mid = *self;
        proof {
            assert(mid.wf());
            assert(!mid.spec_contains(key@));
            assert(mid.data_view() == pre.data_minus(key@));
            assert(mid.keys_view() == pre.keys_minus(key@));
            assert(mid.kw_view() == pre.kw_minus(key@));
        }
        let idx = self.data.len();
        let toks = ascii_keywords_of(key);
        let tn = toks.len();
        proof {
            assert(token_entries(key@, idx as int).take(0) =~= Seq::<(Seq<char>, int)>::empty());
            assert(mid.kw_view() + Seq::<(Seq<char>, int)>::empty() =~= mid.kw_view());
        }
        let mut t2: usize = 0;
        while t2 < tn
            invariant
                tn == toks@.len(),
                t2 <= tn,
                toks.deep_view() == tokens_of(key@),
                self.data@ == mid.data@,
                self.keys@ == mid.keys@,
                idx == self.data@.len(),
                self.kw_view() == mid.kw_view() + token_entries(key@, idx as int).take(t2 as int),
            decreases tn - t2,
        {
            let ghost prev = self.kw_view();
            let s2 = toks[t2].clone();
            self.keyword_index.push((s2, idx));
            proof {
                assert(entry_views(self.keyword_index@) =~= prev.push(
                    (toks.deep_view()[t2 as int], idx as int),
                ));
                assert(token_entries(key@, idx as int)[t2 as int] == (
                    tokens_of(key@)[t2 as int],
                    idx as int,
                ));
                assert(token_entries(key@, idx as int).take(t2 as int + 1) =~= token_entries(
                    key@,
                    idx as int,
                ).take(t2 as int).push((tokens_of(key@)[t2 as int], idx as int)));
                assert(mid.kw_view() + token_entries(key@, idx as int).take(t2 as int + 1) =~= (
                mid.kw_view() + token_entries(key@, idx as int).take(t2 as int)).push(
                    (tokens_of(key@)[t2 as int], idx as int),
                ));
            }
            t2 += 1;
        }
        self.data.push(value);
        self.keys.push((key.to_owned(), idx));
        proof {
            let ki = key@;
            let idxi = idx as int;
            assert(token_entries(ki, idxi).take(tn as int) =~= token_entries(ki, idxi));
            assert(self.kw_view() == mid.kw_view() + token_entries(ki, idxi));
            assert(self.keys_view() =~= mid.keys_view().push((ki, idxi)));
            assert(self.data_view() == mid.data_view().push(value));
            let kv = self.keys_view();
            let n1 = kv.len();
            // the fresh entry is the only one carrying this key
            assert forall|x: int| 0 <= x < n1 - 1 implies #[trigger] kv[x] == mid.keys_view()[x]
                by {}
            assert forall|x: int| 0 <= x < n1 - 1 implies kv[x].0 != ki by {
                if kv[x].0 == ki {
                    assert(has_key(mid.keys_view(), ki));
                }
            }
            assert(distinct_keys(kv));
            assert forall|x: int| 0 <= x < n1 - 1 implies kv[x].1 != idxi by {}
            assert(distinct_positions(kv));
            assert(positions_bounded(kv, self.data_view().len() as int));
            assert forall|x: int| 0 <= x < self.kw_view().len() implies 0 <= #[trigger] self.kw_view()[x].1
                && self.kw_view()[x].1 < self.data_view().len() by {
                if x < mid.kw_view().len() {
                    assert(self.kw_view()[x] == mid.kw_view()[x]);
                } else {
                    assert(self.kw_view()[x] == token_entries(ki, idxi)[x - mid.kw_view().len()]);
                }
            }
            assert(self.wf());
            lemma_slot_unique(kv, ki, n1 - 1);
            assert(self.spec_pos(ki) == idxi);
            assert(self.data_view()[idxi] == value);
            assert(self.spec_get(ki) == Some(value));
            assert forall|k: Seq<char>| k != ki implies self.spec_get(k) == pre.spec_get(k) by {
                if mid.spec_contains(k) {
                    let i = slot_of(mid.keys_view(), k);
                    assert(0 <= i < mid.keys_view().len() && mid.keys_view()[i].0 == k);
                    assert(kv[i] == mid.keys_view()[i]);
                    lemma_slot_unique(kv, k, i);
                    let q = mid.keys_view()[i].1;
                    assert(0 <= q < mid.data_view().len());
                    assert(self.data_view()[q] == mid.data_view()[q]);
                    lemma_slot_unique(mid.keys_view(), k, i);
                } else {
                    if self.spec_contains(k) {
                        let x = slot_of(kv, k);
                        assert(0 <= x < n1 && kv[x].0 == k);
                        assert(x < n1 - 1);
                        assert(mid.keys_view()[x].0 == k);
                        assert(has_key(mid.keys_view(), k));
                        assert(false);
                    }
                }
                assert(mid.spec_get(k) == pre.spec_get(k));
            }
            if pre.kw_grouped() {
                Self::lemma_insert_keeps_grouping(pre, *self, ki);
            }
        }
    }

    /// Removes a key-value pair by its key, returning the removed value.
    ///
    /// The removed value's slot is compacted away: every position greater
    /// than it, in the exact-key index and in the keyword index alike, is
    /// pulled down by one, and every keyword-index entry pointing at the
    /// removed slot is dropped.
    pub fn remove(&mut self, key: &str) -> (r: Option<V>)
        requires
            old(self).wf(),
        ensures
            final(self).wf(),
            r == old(self).spec_get(key@),
            !final(self).spec_contains(key@),
            forall|k: Seq<char>|
                k != key@ ==> final(self).spec_get(k) == old(self).spec_get(k),
            !old(self).spec_contains(key@) ==> *final(self) == *old(self),
            old(self).spec_contains(key@) ==> final(self).data_view() == old(
                self,
            ).data_view().remove(old(self).spec_pos(key@)),
            old(self).spec_contains(key@) ==> final(self).keys_view() == shifted_down(
                old(self).keys_view().remove(slot_of(old(self).keys_view(), key@)),
                old(self).spec_pos(key@),
            ),
            old(self).spec_contains(key@) ==> final(self).kw_view() == purged(
                old(self).kw_view(),
                old(self).spec_pos(key@),
            ),
            old(self).kw_grouped() ==> final(self).kw_grouped(),
    {
        let ki: usize = match self.key_slot(key) {
            None => {
                return None;
            },
            Some(ki) => ki,
        };
        proof {
            lemma_slot_unique(self.keys_view(), key@, ki as int);
        }
        let ghost m0 = *self;
        let entry = self.keys.remove(ki);
        let p = entry.1;
        proof {
            assert(m0.keys_view()[ki as int] == (m0.keys@[ki as int].0@, m0.keys@[ki as int].1 as int));
            assert(p as int == m0.spec_pos(key@));
            assert(0 <= p as int && (p as int) < m0.data_view().len());
            lemma_entry_views_remove(m0.keys@, ki as int);
        }
        let value = self.data.remove(p);
        let mlen = self.keyword_index.len();
        let mut kept: Vec<(String, usize)> = Vec::new();
        let mut j: usize = 0;
        proof {
            assert(entry_views(kept@) =~= Seq::<(Seq<char>, int)>::empty());
            assert(entry_views(self.keyword_index@).take(0) =~= Seq::<(Seq<char>, int)>::empty());
        }
        while j < mlen
            invariant
                mlen == self.keyword_index@.len(),
                j <= mlen,
                self.keyword_index@ == m0.keyword_index@,
                entry_views(kept@) == purged(
                    entry_views(self.keyword_index@).take(j as int),
                    p as int,
                ),
            decreases mlen - j,
        {
            let ghost prev = entry_views(kept@);
            let ghost full = entry_views(self.keyword_index@);
            let e = &self.keyword_index[j];
            if e.1 != p {
                let s2 = e.0.clone();
                if e.1 > p {
                    kept.push((s2, e.1 - 1));
                } else {
                    kept.push((s2, e.1));
                }
                proof {
                    assert(entry_views(kept@) =~= prev.push(
                        if full[j as int].1 > p as int {
                            (full[j as int].0, full[j as int].1 - 1)
                        } else {
                            full[j as int]
                        },
                    ));
                }
            }
            proof {
                assert(full.take(j as int + 1).drop_last() =~= full.take(j as int));
                assert(full.take(j as int + 1).last() == full[j as int]);
                assert(entry_views(kept@) == purged(full.take(j as int + 1), p as int));
            }
            j += 1;
        }
        self.keyword_index = kept;
        let klen = self.keys.len();
        let mut new_keys: Vec<(String, usize)> = Vec::new();
        let mut j2: usize = 0;
        proof {
            assert(entry_views(new_keys@) =~= Seq::<(Seq<char>, int)>::empty());
            assert(shifted_down(entry_views(self.keys@).take(0), p as int) =~= Seq::<
                (Seq<char>, int),
            >::empty());
        }
        while j2 < klen
            invariant
                klen == self.keys@.len(),
                j2 <= klen,
                self.keys@ == m0.keys@.remove(ki as int),
                entry_views(new_keys@) == shifted_down(
                    entry_views(self.keys@).take(j2 as int),
                    p as int,
                ),
            decreases klen - j2,
        {
            let ghost prev = entry_views(new_keys@);
            let ghost full = entry_views(self.keys@);
            let e = &self.keys[j2];
            let s2 = e.0.clone();
            if e.1 > p {
                new_keys.push((s2, e.1 - 1));
            } else {
                new_keys.push((s2, e.1));
            }
            proof {
                assert(entry_views(new_keys@) =~= prev.push(
                    if full[j2 as int].1 > p as int {
                        (full[j2 as int].0, full[j2 as int].1 - 1)
                    } else {
                        full[j2 as int]
                    },
                ));
                assert(shifted_down(full.take(j2 as int + 1), p as int) =~= shifted_down(
                    full.take(j2 as int),
                    p as int,
                ).push(
                    if full[j2 as int].1 > p as int {
                        (full[j2 as int].0, full[j2 as int].1 - 1)
                    } else {
                        full[j2 as int]
                    },
                ));
            }
            j2 += 1;
        }
        self.keys = new_keys;
        proof {
            let pi = p as int;
            let kii = ki as int;
            let k0 = m0.keys_view();
            let d0 = m0.data_view();
            let w0 = m0.kw_view();
            let kr = k0.remove(kii);
            k0.remove_ensures(kii);
            d0.remove_ensures(pi);
            assert(entry_views(m0.keyword_index@).take(mlen as int) =~= w0);
            assert(self.kw_view() == purged(w0, pi));
            assert(entry_views(m0.keys@.remove(kii)).take(klen as int) =~= kr);
            assert(self.keys_view() == shifted_down(kr, pi));
            assert(self.data_view() == d0.remove(pi));
            // well-formedness of the result
            assert(self.keys_view().len() == kr.len());
            assert(self.data_view().len() == d0.len() - 1);
            assert forall|x: int| 0 <= x < kr.len() implies #[trigger] kr[x] == (
                if x < kii {
                    k0[x]
                } else {
                    k0[x + 1]
                }
            ) by {}
            // every remaining key has a position other than p
            assert forall|x: int| 0 <= x < kr.len() implies kr[x].1 != pi by {
                if x < kii {
                    assert(k0[x].1 != k0[kii].1);
                } else {
                    assert(k0[kii].1 != k0[x + 1].1);
                }
            }
            assert forall|x: int| 0 <= x < self.keys_view().len() implies #[trigger] self.keys_view()[x]
                == (kr[x].0, (if kr[x].1 > pi { kr[x].1 - 1 } else { kr[x].1 })) by {}
            assert(distinct_keys(self.keys_view()));
            assert(distinct_positions(self.keys_view()));
            assert(positions_bounded(self.keys_view(), self.data_view().len() as int));
            lemma_purged_bounded(w0, pi, d0.len() as int);
            assert(positions_bounded(self.kw_view(), self.data_view().len() as int));
            assert(self.wf());
            // the removed key is gone
            assert forall|x: int| 0 <= x < self.keys_view().len() implies #[trigger] self.keys_view()[x].0
                != key@ by {
                if x < kii {
                    assert(k0[x].0 != k0[kii].0);
                } else {
                    assert(k0[kii].0 != k0[x + 1].0);
                }
            }
            assert(!self.spec_contains(key@));
            // every other key still resolves to its original value
            assert forall|k: Seq<char>| k != key@ implies self.spec_get(k) == m0.spec_get(k) by {
                if m0.spec_contains(k) {
                    let i = slot_of(k0, k);
                    assert(0 <= i < k0.len() && k0[i].0 == k);
                    assert(i != kii);
                    let i2 = if i < kii {
                        i
                    } else {
                        i - 1
                    };
                    assert(kr[i2] == k0[i]);
                    let q = k0[i].1;
                    assert(q != pi);
                    let q2 = if q > pi {
                        q - 1
                    } else {
                        q
                    };
                    assert(self.keys_view()[i2] == (k, q2));
                    lemma_slot_unique(self.keys_view(), k, i2);
                    assert(self.spec_pos(k) == q2);
                    assert(d0.remove(pi)[q2] == d0[q]);
                    lemma_slot_unique(k0, k, i);
                    assert(m0.spec_get(k) == Some(d0[q]));
                    assert(self.spec_get(k) == Some(d0.remove(pi)[q2]));
                } else {
                    if self.spec_contains(k) {
                        let x = slot_of(self.keys_view(), k);
                        assert(0 <= x < self.keys_view().len() && self.keys_view()[x].0 == k);
                        assert(kr[x].0 == k);
                        if x < kii {
                            assert(k0[x].0 == k);
                            assert(has_key(k0, k));
                        } else {
                            assert(k0[x + 1].0 == k);
                            assert(has_key(k0, k));
                        }
                        assert(false);
                    }
                }
            }
            if m0.kw_grouped() {
                Self::lemma_remove_keeps_grouping(m0, *self, key@);
            }
        }
        Some(value)
    }

    /// Retrieves a mutable reference to a value by its key.
    ///
    /// Only the value at the key's slot can change through the returned
    /// reference; both indexes and every other stored value stay as they
    /// were.
    pub fn get_mut(&mut self, key: &str) -> (r: Option<&mut V>)
        requires
            old(self).wf(),
        ensures
            final(self).wf(),
            r.is_none() ==> !old(self).spec_contains(key@) && *final(self) == *old(self),
            r.is_some() ==> {
                &&& old(self).spec_contains(key@)
                &&& *r.unwrap() == old(self).data_view()[old(self).spec_pos(key@)]
                &&& final(self).data_view() == old(self).data_view().update(
                    old(self).spec_pos(key@),
                    *final(r.unwrap()),
                )
                &&& final(self).keys_view() == old(self).keys_view()
                &&& final(self).kw_view() == old(self).kw_view()
                &&& final(self).spec_get(key@) == Some(*final(r.unwrap()))
            },
            forall|k: Seq<char>|
                k != key@ ==> final(self).spec_get(k) == old(self).spec_get(k),
            old(self).kw_grouped() ==> final(self).kw_grouped(),
    {
        match self.key_slot(key) {
            None => None,
            Some(i) => {
                proof {
                    lemma_slot_unique(self.keys_view(), key@, i as int);
                }
                let p = self.keys[i].1;
                let ghost m0 = *self;
                let v = &mut self.data[p];
                proof {
                    let pi = p as int;
                    let k0 = m0.keys_view();
                    let m2 = after_borrow(self);
                    assert(m2.keys_view() == k0);
                    assert(m2.kw_view() == m0.kw_view());
                    assert(m2.data_view() == m0.data_view().update(pi, *final(v)));
                    assert(m2.data_view().len() == m0.data_view().len());
                    assert(m2.wf());
                    assert(m2.spec_pos(key@) == pi);
                    assert(m2.data_view()[pi] == *final(v));
                    assert forall|k: Seq<char>| k != key@ implies m2.spec_get(k) == m0.spec_get(
                        k,
                    ) by {
                        if m0.spec_contains(k) {
                            let x = slot_of(k0, k);
                            assert(0 <= x < k0.len() && k0[x].0 == k);
                            assert(x != i as int);
                            let qp = k0[x].1;
                            assert(qp != pi);
                            assert(m2.data_view()[qp] == m0.data_view()[qp]);
                        }
                    }
                }
                Some(v)
            },
        }
    }

    /// Finds every stored value one of whose keyword tokens starts with
    /// `keyword`, with exact-match priority.
    ///
    /// If `keyword` is itself a stored key, its value is emitted first as an
    /// [`Match::Exact`] result.  Then, for every keyword-index entry whose
    /// token starts with `keyword`, in index insertion order, the value at
    /// that entry's position is emitted as a [`Match::Prefix`] result —
    /// except entries pointing at the exact match's slot, which are
    /// suppressed so the same entry is never reported twice.  Duplicate
    /// tokens yield duplicate `Prefix` emissions.
    pub fn find_by_partial_keyword<'a>(&'a self, keyword: &str) -> (r: Vec<Match<&'a V>>)
        requires
            self.wf(),
        ensures
            r@.len() == self.spec_find(keyword@).len(),
            forall|i: int| #![trigger r@[i]]
                0 <= i < r@.len() ==> {
                    &&& is_exact(r@[i]) == self.spec_find(keyword@)[i].0
                    &&& *match_value(r@[i]) == self.data_view()[self.spec_find(keyword@)[i].1]
                },
    {
        let ghost q = keyword@;
        let exact: Option<usize> = match self.key_slot(keyword) {
            Some(ki) => {
                proof {
                    lemma_slot_unique(self.keys_view(), q, ki as int);
                }
                Some(self.keys[ki].1)
            },
            None => None,
        };
        let ghost skip: Option<int> = match exact {
            Some(p) => Some(p as int),
            None => None,
        };
        let ghost base: Seq<(bool, int)> = if self.spec_contains(q) {
            seq![(true, self.spec_pos(q))]
        } else {
            Seq::empty()
        };
        let mut r: Vec<Match<&V>> = Vec::new();
        if let Some(p) = exact {
            r.push(Match::Exact(&self.data[p]));
        }
        proof {
            assert(prefix_hits(self.kw_view().take(0), q, skip) =~= Seq::<int>::empty());
        }
        let n = self.keyword_index.len();
        let mut j: usize = 0;
        while j < n
            invariant
                self.wf(),
                n == self.keyword_index@.len(),
                j <= n,
                q == keyword@,
                skip == (if self.spec_contains(q) {
                    Some(self.spec_pos(q))
                } else {
                    Option::<int>::None
                }),
                skip == (match exact {
                    Some(p) => Some(p as int),
                    None => Option::<int>::None,
                }),
                base == (if self.spec_contains(q) {
                    seq![(true, self.spec_pos(q))]
                } else {
                    Seq::<(bool, int)>::empty()
                }),
                r@.len() == base.len() + prefix_entries(
                    self.kw_view().take(j as int),
                    q,
                    skip,
                ).len(),
                forall|i: int| #![trigger r@[i]]
                    0 <= i < r@.len() ==> {
                        let c = base + prefix_entries(self.kw_view().take(j as int), q, skip);
                        &&& is_exact(r@[i]) == c[i].0
                        &&& *match_value(r@[i]) == self.data_view()[c[i].1]
                    },
            decreases n - j,
        {
            let ghost full = self.kw_view();
            let ghost prev = base + prefix_entries(full.take(j as int), q, skip);
            let e = &self.keyword_index[j];
            let hit = str_starts_with(e.0.as_str(), keyword);
            let dup = match exact {
                Some(p) => e.1 == p,
                None => false,
            };
            proof {
                assert(full[j as int] == (self.keyword_index@[j as int].0@, self.keyword_index@[
                j as int].1 as int));
                assert(*e == self.keyword_index@[j as int]);
                assert(hit == q.is_prefix_of(e.0@));
                assert(e.0@ == full[j as int].0);
                assert(hit == q.is_prefix_of(full[j as int].0));
                assert(dup == (skip == Some(full[j as int].1)));
                lemma_prefix_hits_step(full, q, skip, j as int);
            }
            if hit && !dup {
                r.push(Match::Prefix(&self.data[e.1]));
                proof {
                    assert(prefix_hits(full.take(j as int + 1), q, skip) == prefix_hits(
                        full.take(j as int),
                        q,
                        skip,
                    ).push(full[j as int].1));
                    assert(prefix_entries(full.take(j as int + 1), q, skip) =~= prefix_entries(
                        full.take(j as int),
                        q,
                        skip,
                    ).push((false, full[j as int].1)));
                    assert(base + prefix_entries(full.take(j as int + 1), q, skip) =~= prev.push(
                        (false, full[j as int].1),
                    ));
                }
            } else {
                proof {
                    assert(prefix_hits(full.take(j as int + 1), q, skip) == prefix_hits(
                        full.take(j as int),
                        q,
                        skip,
                    ));
                    assert(prefix_entries(full.take(j as int + 1), q, skip) == prefix_entries(
                        full.take(j as int),
                        q,
                        skip,
                    ));
                }
            }
            j += 1;
        }
        proof {
            assert(self.kw_view().take(n as int) =~= self.kw_view());
        }
        r
    }

    /// Law: every search hit points inside the value store; a result entry
    /// is exact exactly when the query is a stored key and the entry comes
    /// first; and the exact match's position is never also reported as a
    /// prefix hit.
    pub proof fn lemma_find_sound(self, q: Seq<char>)
        requires
            self.wf(),
        ensures
            forall|i: int| #![trigger self.spec_find(q)[i]]
                0 <= i < self.spec_find(q).len() ==> 0 <= self.spec_find(q)[i].1
                    < self.data_view().len(),
            forall|i: int| #![trigger self.spec_find(q)[i]]
                0 <= i < self.spec_find(q).len() ==> (self.spec_find(q)[i].0 <==> (
                self.spec_contains(q) && i == 0)),
            self.spec_contains(q) ==> self.spec_find(q)[0].1 == self.spec_pos(q),
            self.spec_contains(q) ==> forall|i: int| #![trigger self.spec_find(q)[i]]
                1 <= i < self.spec_find(q).len() ==> self.spec_find(q)[i].1 != self.spec_pos(q),
    {
        let f = self.spec_find(q);
        if self.spec_contains(q) {
            let pos = self.spec_pos(q);
            let skip = Some(pos);
            lemma_prefix_hits_sound(self.kw_view(), q, skip, self.data_view().len() as int);
            let hits = prefix_hits(self.kw_view(), q, skip);
            let i0 = slot_of(self.keys_view(), q);
            assert(0 <= i0 < self.keys_view().len() && self.keys_view()[i0].0 == q);
            assert(0 <= pos < self.data_view().len());
            assert forall|i: int| 0 <= i < f.len() implies {
                &&& 0 <= #[trigger] f[i].1 < self.data_view().len()
                &&& (f[i].0 <==> i == 0)
                &&& (1 <= i ==> f[i].1 != pos)
            } by {
                if i >= 1 {
                    assert(f[i] == prefix_entries(self.kw_view(), q, skip)[i - 1]);
                    assert(prefix_entries(self.kw_view(), q, skip)[i - 1] == (false, hits[i - 1]));
                }
            }
        } else {
            lemma_prefix_hits_sound(self.kw_view(), q, None, self.data_view().len() as int);
            let hits = prefix_hits(self.kw_view(), q, None);
            assert forall|i: int| 0 <= i < f.len() implies {
                &&& 0 <= #[trigger] f[i].1 < self.data_view().len()
                &&& !f[i].0
            } by {
                assert(f[i] == (false, hits[i]));
            }
        }
    }

    /// Law: a search on an empty container yields no results, whatever the
    /// query.
    pub proof fn lemma_find_empty(self, q: Seq<char>)
        requires
            self.wf(),
            self.data_view().len() == 0,
        ensures
            self.spec_find(q).len() == 0,
    {
        assert(self.keys_view().len() == 0);
        assert(!self.spec_contains(q));
        let es = self.kw_view();
        let n = self.data_view().len() as int;
        assert(positions_bounded(es, n));
        assert(n == 0);
        if es.len() > 0 {
            assert(0 <= es[0].1 && es[0].1 < n);
            assert(false);
        }
        assert(es =~= Seq::<(Seq<char>, int)>::empty());
        assert(prefix_hits(self.kw_view(), q, None) =~= Seq::<int>::empty());
    }

    /// Retrieves a value by its key.
    pub fn get(&self, key: &str) -> (r: Option<&V>)
        requires
            self.wf(),
        ensures
            match r {
                Some(v) => self.spec_get(key@) == Some(*v),
                None => !self.spec_contains(key@),
            },
    {
        match self.key_slot(key) {
            None => None,
            Some(i) => {
                proof {
                    lemma_slot_unique(self.keys_view(), key@, i as int);
                }
                let p = self.keys[i].1;
                Some(&self.data[p])
            },
        }
    }
}

} // verus!
