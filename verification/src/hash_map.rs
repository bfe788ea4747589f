//! An open-addressing hash map with linear probing and incremental growth.
//!
//! The table is a vector of slots; a slot is never-used (`Empty`), cleared
//! by a removal (`Tomb`, a tombstone), or holds one key-value pair. A key
//! lives on the probe sequence that starts at `hash(key) % capacity` and
//! advances by one with wraparound; probing stops at the key or at the
//! first never-used slot. Removal leaves a tombstone rather than a hole,
//! so keys further along a collision chain stay reachable. The table is
//! grown (doubled, rehashed, tombstones dropped) before an insertion
//! whenever the slots in use have reached 60% of capacity, which keeps a
//! never-used slot available and every probe finite.
//!
//! The model of a map is `Map<K::V, V>`: the mathematical map from key
//! views to values. Every operation's contract is stated against it.

use crate::key::MapKey;
use vstd::pervasive::arbitrary;
use vstd::pervasive::unreached;
use vstd::prelude::*;

verus! {

/// Capacity given to a table grown from nothing.
pub const DEFAULT_CAPACITY: usize = 10;

/// One storage cell of the table.
enum Slot<K, V> {
    /// Never held a pair since the table was built.
    Empty,
    /// Held a pair once; keeps probe chains intact (a tombstone).
    Tomb,
    /// Holds exactly one pair.
    Occ { key: K, value: V },
}

impl<K: MapKey, V> Slot<K, V> {
    spec fn key_view(self) -> K::V {
        match self {
            Slot::Occ { key, value } => key@,
            _ => arbitrary(),
        }
    }

    spec fn val(self) -> V {
        match self {
            Slot::Occ { key, value } => value,
            _ => arbitrary(),
        }
    }
}

/// Number of slots holding a pair.
spec fn occ_count<K: MapKey, V>(s: Seq<Slot<K, V>>) -> nat
    decreases s.len(),
{
    if s.len() == 0 {
        0
    } else {
        occ_count(s.drop_last()) + if s.last() is Occ {
            1nat
        } else {
            0nat
        }
    }
}

/// Number of slots in use: holding a pair or a tombstone.
spec fn used_count<K: MapKey, V>(s: Seq<Slot<K, V>>) -> nat
    decreases s.len(),
{
    if s.len() == 0 {
        0
    } else {
        used_count(s.drop_last()) + if s.last() is Empty {
            0nat
        } else {
            1nat
        }
    }
}

/// The mathematical map held by a table.
spec fn slots_map<K: MapKey, V>(s: Seq<Slot<K, V>>) -> Map<K::V, V>
    decreases s.len(),
{
    if s.len() == 0 {
        Map::empty()
    } else {
        match s.last() {
            Slot::Occ { key, value } => slots_map(s.drop_last()).insert(key@, value),
            _ => slots_map(s.drop_last()),
        }
    }
}

/// Index where probing for a key of view `kv` starts.
spec fn home<K: MapKey>(kv: K::V, cap: int) -> int {
    (K::hash_spec(kv) as int) % cap
}

/// Number of probe steps from `h` to `i` in a table of `cap` slots.
spec fn pdist(h: int, i: int, cap: int) -> int {
    if i >= h {
        i - h
    } else {
        cap + i - h
    }
}

/// Probe position of the pair held at index `i`.
spec fn pdist_at<K: MapKey, V>(s: Seq<Slot<K, V>>, i: int) -> int {
    pdist(home::<K>(s[i].key_view(), s.len() as int), i, s.len() as int)
}

/// Distinct occupied slots hold keys of distinct views.
spec fn distinct_ok<K: MapKey, V>(s: Seq<Slot<K, V>>) -> bool {
    forall|i: int, j: int|
        0 <= i < s.len() && 0 <= j < s.len() && i != j && #[trigger] s[i] is Occ
            && #[trigger] s[j] is Occ ==> s[i].key_view() != s[j].key_view()
}

/// Every pair is reachable: no never-used slot stands strictly before an
/// occupied slot on the probe sequence of its own key.
spec fn chain_ok<K: MapKey, V>(s: Seq<Slot<K, V>>) -> bool {
    forall|i: int, j: int|
        0 <= i < s.len() && 0 <= j < s.len() && #[trigger] s[i] is Occ && pdist(
            home::<K>(s[i].key_view(), s.len() as int),
            j,
            s.len() as int,
        ) < pdist_at(s, i) ==> !(#[trigger] s[j] is Empty)
}

/// All invariants of a table together, with the bound that keeps probing
/// finite: while the table is nonempty, some slot is never-used.
spec fn table_ok<K: MapKey, V>(s: Seq<Slot<K, V>>) -> bool {
    &&& distinct_ok(s)
    &&& chain_ok(s)
    &&& (s.len() > 0 ==> used_count(s) < s.len())
}

/// A slot count never exceeds the table length, and pairs never outnumber
/// the slots in use.
proof fn lemma_counts_bound<K: MapKey, V>(s: Seq<Slot<K, V>>)
    ensures
        occ_count(s) <= used_count(s) <= s.len(),
    decreases s.len(),
{
    if s.len() > 0 {
        lemma_counts_bound(s.drop_last());
    }
}

/// A table whose every slot is in use has `used_count` equal to its length.
proof fn lemma_all_used<K: MapKey, V>(s: Seq<Slot<K, V>>)
    requires
        forall|j: int| 0 <= j < s.len() ==> !(#[trigger] s[j] is Empty),
    ensures
        used_count(s) == s.len(),
    decreases s.len(),
{
    if s.len() > 0 {
        assert(forall|j: int|
            0 <= j < s.drop_last().len() ==> !(#[trigger] s.drop_last()[j] is Empty));
        lemma_all_used(s.drop_last());
        assert(!(s[s.len() - 1] is Empty));
    }
}

/// A key view is in the model exactly when some occupied slot holds it.
proof fn lemma_map_dom<K: MapKey, V>(s: Seq<Slot<K, V>>, kv: K::V)
    ensures
        slots_map(s).dom().contains(kv) <==> exists|i: int|
            0 <= i < s.len() && #[trigger] s[i] is Occ && s[i].key_view() == kv,
    decreases s.len(),
{
    if s.len() > 0 {
        lemma_map_dom(s.drop_last(), kv);
        if slots_map(s).dom().contains(kv) {
            if s.last() is Occ && s.last().key_view() == kv {
                assert(s[s.len() - 1] is Occ && s[s.len() - 1].key_view() == kv);
            } else {
                let i = choose|i: int|
                    0 <= i < s.drop_last().len() && #[trigger] s.drop_last()[i] is Occ
                        && s.drop_last()[i].key_view() == kv;
                assert(s[i] is Occ && s[i].key_view() == kv);
            }
        }
        if exists|i: int| 0 <= i < s.len() && #[trigger] s[i] is Occ && s[i].key_view() == kv {
            let i = choose|i: int|
                0 <= i < s.len() && #[trigger] s[i] is Occ && s[i].key_view() == kv;
            if i < s.len() - 1 {
                assert(s.drop_last()[i] is Occ && s.drop_last()[i].key_view() == kv);
            }
        }
    }
}

/// With distinct keys, the model maps an occupied slot's key view to that
/// slot's value.
proof fn lemma_map_at<K: MapKey, V>(s: Seq<Slot<K, V>>, i: int)
    requires
        distinct_ok(s),
        0 <= i < s.len(),
        s[i] is Occ,
    ensures
        slots_map(s).dom().contains(s[i].key_view()),
        slots_map(s)[s[i].key_view()] == s[i].val(),
    decreases s.len(),
{
    lemma_map_dom(s, s[i].key_view());
    if i == s.len() - 1 {
    } else {
        assert(distinct_ok(s.drop_last())) by {
            assert(forall|a: int, b: int|
                0 <= a < s.drop_last().len() && 0 <= b < s.drop_last().len() && a != b
                    && #[trigger] s.drop_last()[a] is Occ && #[trigger] s.drop_last()[b] is Occ
                    ==> s[a] is Occ && s[b] is Occ);
        }
        assert(s.drop_last()[i] == s[i]);
        lemma_map_at(s.drop_last(), i);
        if s.last() is Occ {
            assert(s[s.len() - 1] is Occ);
            assert(s.last().key_view() != s[i].key_view());
        }
    }
}

/// The model's domain is finite and as large as the number of pairs held.
proof fn lemma_map_len<K: MapKey, V>(s: Seq<Slot<K, V>>)
    requires
        distinct_ok(s),
    ensures
        slots_map(s).dom().finite(),
        slots_map(s).dom().len() == occ_count(s),
    decreases s.len(),
{
    if s.len() > 0 {
        assert(distinct_ok(s.drop_last())) by {
            assert(forall|a: int, b: int|
                0 <= a < s.drop_last().len() && 0 <= b < s.drop_last().len() && a != b
                    && #[trigger] s.drop_last()[a] is Occ && #[trigger] s.drop_last()[b] is Occ
                    ==> s[a] is Occ && s[b] is Occ);
        }
        lemma_map_len(s.drop_last());
        if s.last() is Occ {
            assert(s[s.len() - 1] is Occ);
            lemma_map_dom(s.drop_last(), s.last().key_view());
            assert(!slots_map(s.drop_last()).dom().contains(s.last().key_view())) by {
                if exists|i: int|
                    0 <= i < s.drop_last().len() && #[trigger] s.drop_last()[i] is Occ
                        && s.drop_last()[i].key_view() == s.last().key_view() {
                    let i = choose|i: int|
                        0 <= i < s.drop_last().len() && #[trigger] s.drop_last()[i] is Occ
                            && s.drop_last()[i].key_view() == s.last().key_view();
                    assert(s[i] is Occ);
                }
            }
        }
    }
}

/// Dropping the last slot keeps keys distinct.
proof fn lemma_distinct_drop_last<K: MapKey, V>(s: Seq<Slot<K, V>>)
    requires
        distinct_ok(s),
        s.len() > 0,
    ensures
        distinct_ok(s.drop_last()),
{
    assert(forall|a: int, b: int|
        0 <= a < s.drop_last().len() && 0 <= b < s.drop_last().len() && a != b
            && #[trigger] s.drop_last()[a] is Occ && #[trigger] s.drop_last()[b] is Occ ==> s[a]
            is Occ && s[b] is Occ);
}

/// Filling a slot that holds no pair with an absent key inserts that key
/// into the model.
proof fn lemma_update_fill<K: MapKey, V>(s: Seq<Slot<K, V>>, i: int, k: K, v: V)
    requires
        0 <= i < s.len(),
        !(s[i] is Occ),
        !slots_map(s).dom().contains(k@),
    ensures
        slots_map(s.update(i, Slot::Occ { key: k, value: v })) == slots_map(s).insert(k@, v),
    decreases s.len(),
{
    let upd = s.update(i, Slot::Occ { key: k, value: v });
    let dl = s.drop_last();
    if i == s.len() - 1 {
        assert(upd.drop_last() =~= dl);
    } else {
        assert(upd.drop_last() =~= dl.update(i, Slot::Occ { key: k, value: v }));
        assert(dl[i] == s[i]);
        lemma_update_fill(dl, i, k, v);
        match s.last() {
            Slot::Occ { key: k2, value: v2 } => {
                assert(k2@ != k@);
                assert(slots_map(upd) =~= slots_map(s).insert(k@, v));
            },
            _ => {},
        }
    }
}

/// Storing a new pair over an occupied slot with the same key view updates
/// that key's value in the model.
proof fn lemma_update_replace<K: MapKey, V>(s: Seq<Slot<K, V>>, i: int, k: K, v: V)
    requires
        0 <= i < s.len(),
        s[i] is Occ,
        s[i].key_view() == k@,
        distinct_ok(s),
    ensures
        slots_map(s.update(i, Slot::Occ { key: k, value: v })) == slots_map(s).insert(k@, v),
    decreases s.len(),
{
    let upd = s.update(i, Slot::Occ { key: k, value: v });
    let dl = s.drop_last();
    if i == s.len() - 1 {
        assert(upd.drop_last() =~= dl);
        assert(slots_map(upd) =~= slots_map(s).insert(k@, v));
    } else {
        assert(upd.drop_last() =~= dl.update(i, Slot::Occ { key: k, value: v }));
        assert(dl[i] == s[i]);
        lemma_distinct_drop_last(s);
        lemma_update_replace(dl, i, k, v);
        match s.last() {
            Slot::Occ { key: k2, value: v2 } => {
                assert(s[s.len() - 1] is Occ);
                assert(k2@ != k@);
                assert(slots_map(upd) =~= slots_map(s).insert(k@, v));
            },
            _ => {},
        }
    }
}

/// Clearing an occupied slot to a tombstone removes its key from the model.
proof fn lemma_update_clear<K: MapKey, V>(s: Seq<Slot<K, V>>, i: int)
    requires
        0 <= i < s.len(),
        s[i] is Occ,
        distinct_ok(s),
    ensures
        slots_map(s.update(i, Slot::Tomb)) == slots_map(s).remove(s[i].key_view()),
    decreases s.len(),
{
    let kv = s[i].key_view();
    let upd = s.update(i, Slot::Tomb);
    let dl = s.drop_last();
    if i == s.len() - 1 {
        assert(upd.drop_last() =~= dl);
        lemma_distinct_drop_last(s);
        lemma_map_dom(dl, kv);
        assert(forall|a: int|
            0 <= a < dl.len() && #[trigger] dl[a] is Occ ==> s[a] is Occ && dl[a] == s[a]);
        assert(slots_map(upd) =~= slots_map(s).remove(kv));
    } else {
        assert(upd.drop_last() =~= dl.update(i, Slot::Tomb));
        assert(dl[i] == s[i]);
        lemma_distinct_drop_last(s);
        lemma_update_clear(dl, i);
        match s.last() {
            Slot::Occ { key: k2, value: v2 } => {
                assert(s[s.len() - 1] is Occ);
                assert(k2@ != kv);
                assert(slots_map(upd) =~= slots_map(s).remove(kv));
            },
            _ => {},
        }
    }
}

/// How one slot update moves the two counts.
proof fn lemma_counts_update<K: MapKey, V>(s: Seq<Slot<K, V>>, i: int, x: Slot<K, V>)
    requires
        0 <= i < s.len(),
    ensures
        occ_count(s.update(i, x)) + (if s[i] is Occ {
            1nat
        } else {
            0nat
        }) == occ_count(s) + (if x is Occ {
            1nat
        } else {
            0nat
        }),
        used_count(s.update(i, x)) + (if s[i] is Empty {
            0nat
        } else {
            1nat
        }) == used_count(s) + (if x is Empty {
            0nat
        } else {
            1nat
        }),
    decreases s.len(),
{
    let upd = s.update(i, x);
    if i == s.len() - 1 {
        assert(upd.drop_last() =~= s.drop_last());
    } else {
        assert(upd.drop_last() =~= s.drop_last().update(i, x));
        lemma_counts_update(s.drop_last(), i, x);
    }
}

/// A table of never-used slots holds nothing.
proof fn lemma_all_empty<K: MapKey, V>(s: Seq<Slot<K, V>>)
    requires
        forall|j: int| 0 <= j < s.len() ==> #[trigger] s[j] is Empty,
    ensures
        occ_count(s) == 0,
        used_count(s) == 0,
        slots_map(s) == Map::<K::V, V>::empty(),
    decreases s.len(),
{
    if s.len() > 0 {
        assert(forall|j: int|
            0 <= j < s.drop_last().len() ==> #[trigger] s.drop_last()[j] is Empty);
        lemma_all_empty(s.drop_last());
        assert(s[s.len() - 1] is Empty);
    }
}

/// Filling a reachable never-used slot with an absent key keeps keys
/// distinct and every pair reachable.
proof fn lemma_fill_preserves<K: MapKey, V>(s: Seq<Slot<K, V>>, i: int, k: K, v: V)
    requires
        0 <= i < s.len(),
        distinct_ok(s),
        chain_ok(s),
        s[i] is Empty,
        forall|w: int| 0 <= w < s.len() && #[trigger] s[w] is Occ ==> s[w].key_view() != k@,
        forall|j: int|
            0 <= j < s.len() && pdist(home::<K>(k@, s.len() as int), j, s.len() as int) < pdist(
                home::<K>(k@, s.len() as int),
                i,
                s.len() as int,
            ) ==> !(#[trigger] s[j] is Empty),
    ensures
        distinct_ok(s.update(i, Slot::Occ { key: k, value: v })),
        chain_ok(s.update(i, Slot::Occ { key: k, value: v })),
{
    let upd = s.update(i, Slot::Occ { key: k, value: v });
    let len = s.len() as int;
    assert forall|a: int, b: int|
        0 <= a < len && 0 <= b < len && a != b && #[trigger] upd[a] is Occ && #[trigger] upd[b]
            is Occ implies upd[a].key_view() != upd[b].key_view() by {
        if a != i && b != i {
            assert(s[a] is Occ && s[b] is Occ);
        } else if a == i {
            assert(s[b] is Occ);
        } else {
            assert(s[a] is Occ);
        }
    }
    assert forall|a: int, b: int|
        0 <= a < len && 0 <= b < len && #[trigger] upd[a] is Occ && pdist(
            home::<K>(upd[a].key_view(), len),
            b,
            len,
        ) < pdist_at(upd, a) implies !(#[trigger] upd[b] is Empty) by {
        if a == i {
            if b != i {
                assert(!(s[b] is Empty));
            }
        } else {
            assert(s[a] is Occ);
            assert(pdist_at(upd, a) == pdist_at(s, a));
            if b != i {
                assert(!(s[b] is Empty));
            }
        }
    }
}

/// Storing a pair over an occupied slot with the same key view keeps keys
/// distinct and every pair reachable.
proof fn lemma_replace_preserves<K: MapKey, V>(s: Seq<Slot<K, V>>, i: int, k: K, v: V)
    requires
        0 <= i < s.len(),
        distinct_ok(s),
        chain_ok(s),
        s[i] is Occ,
        s[i].key_view() == k@,
    ensures
        distinct_ok(s.update(i, Slot::Occ { key: k, value: v })),
        chain_ok(s.update(i, Slot::Occ { key: k, value: v })),
{
    let upd = s.update(i, Slot::Occ { key: k, value: v });
    let len = s.len() as int;
    assert forall|a: int, b: int|
        0 <= a < len && 0 <= b < len && a != b && #[trigger] upd[a] is Occ && #[trigger] upd[b]
            is Occ implies upd[a].key_view() != upd[b].key_view() by {
        assert(s[a] is Occ && s[b] is Occ);
        assert(upd[a].key_view() == s[a].key_view() && upd[b].key_view() == s[b].key_view());
    }
    assert forall|a: int, b: int|
        0 <= a < len && 0 <= b < len && #[trigger] upd[a] is Occ && pdist(
            home::<K>(upd[a].key_view(), len),
            b,
            len,
        ) < pdist_at(upd, a) implies !(#[trigger] upd[b] is Empty) by {
        assert(s[a] is Occ);
        assert(upd[a].key_view() == s[a].key_view());
        assert(pdist_at(upd, a) == pdist_at(s, a));
        assert(!(s[b] is Empty));
    }
}

/// Clearing an occupied slot to a tombstone keeps keys distinct and every
/// remaining pair reachable: probe chains never end at a tombstone.
proof fn lemma_tomb_preserves<K: MapKey, V>(s: Seq<Slot<K, V>>, i: int)
    requires
        0 <= i < s.len(),
        distinct_ok(s),
        chain_ok(s),
        s[i] is Occ,
    ensures
        distinct_ok(s.update(i, Slot::Tomb)),
        chain_ok(s.update(i, Slot::Tomb)),
{
    let upd = s.update(i, Slot::Tomb);
    let len = s.len() as int;
    assert forall|a: int, b: int|
        0 <= a < len && 0 <= b < len && #[trigger] upd[a] is Occ && pdist(
            home::<K>(upd[a].key_view(), len),
            b,
            len,
        ) < pdist_at(upd, a) implies !(#[trigger] upd[b] is Empty) by {
        assert(s[a] is Occ);
        assert(upd[a].key_view() == s[a].key_view());
        assert(pdist_at(upd, a) == pdist_at(s, a));
        assert(!(s[b] is Empty));
    }
}

/// Searches along the probe sequence of `key` for the slot that holds it,
/// or for the first never-used slot where it could be stored.
fn probe<K: MapKey, V>(tab: &Vec<Slot<K, V>>, key: &K) -> (r: usize)
    requires
        tab@.len() > 0,
        table_ok(tab@),
    ensures
        r < tab@.len(),
        tab@[r as int] is Occ ==> tab@[r as int].key_view() == key@,
        tab@[r as int] is Tomb ==> false,
        tab@[r as int] is Empty ==> !slots_map(tab@).dom().contains(key@) && (forall|j: int|
            0 <= j < tab@.len() && pdist(home::<K>(key@, tab@.len() as int), j, tab@.len() as int)
                < pdist(home::<K>(key@, tab@.len() as int), r as int, tab@.len() as int) ==> !(
            #[trigger] tab@[j] is Empty) && (tab@[j] is Occ ==> tab@[j].key_view() != key@)),
{
    let cap = tab.len();
    let ghost h = home::<K>(key@, cap as int);
    let hash = key.hash_key();
    let mut i: usize = (hash % (cap as u64)) as usize;
    assert(i == h);
    loop
        invariant
            tab@.len() == cap,
            cap > 0,
            table_ok(tab@),
            i < cap,
            h == home::<K>(key@, cap as int),
            forall|j: int|
                0 <= j < cap && pdist(h, j, cap as int) < pdist(h, i as int, cap as int) ==> !(
                #[trigger] tab@[j] is Empty) && (tab@[j] is Occ ==> tab@[j].key_view() != key@),
        decreases cap - pdist(h, i as int, cap as int),
    {
        let hit = match &tab[i] {
            Slot::Empty => true,
            Slot::Tomb => false,
            Slot::Occ { key: k2, value } => k2.key_eq(key),
        };
        if hit {
            proof {
                if tab@[i as int] is Empty {
                    if slots_map(tab@).dom().contains(key@) {
                        lemma_map_dom(tab@, key@);
                        let w = choose|w: int|
                            0 <= w < cap && #[trigger] tab@[w] is Occ && tab@[w].key_view()
                                == key@;
                        assert(home::<K>(tab@[w].key_view(), cap as int) == h);
                        let dw = pdist(h, w, cap as int);
                        let di = pdist(h, i as int, cap as int);
                        if dw < di {
                            assert(tab@[w] is Occ && tab@[w].key_view() == key@);
                            assert(false);
                        } else if dw == di {
                            assert(w == i as int);
                            assert(false);
                        } else {
                            assert(pdist(h, i as int, cap as int) < pdist_at(tab@, w));
                            assert(!(tab@[i as int] is Empty));
                            assert(false);
                        }
                    }
                }
            }
            return i;
        }
        proof {
            if pdist(h, i as int, cap as int) == cap - 1 {
                assert(forall|j: int|
                    0 <= j < cap && j != i as int ==> pdist(h, j, cap as int) < cap - 1);
                assert(forall|j: int| 0 <= j < cap ==> !(#[trigger] tab@[j] is Empty));
                lemma_all_used(tab@);
                assert(false);
            }
        }
        i = if i + 1 == cap {
            0
        } else {
            i + 1
        };
    }
}

/// Stores `key: value` in the table at the slot its probe sequence picks:
/// over the slot already holding the key, else at the first never-used
/// slot. Returns the value the key had before.
fn place<K: MapKey, V>(tab: &mut Vec<Slot<K, V>>, key: K, value: V) -> (prev: Option<V>)
    requires
        old(tab)@.len() > 0,
        table_ok(old(tab)@),
        used_count(old(tab)@) + 1 < old(tab)@.len(),
    ensures
        final(tab)@.len() == old(tab)@.len(),
        table_ok(final(tab)@),
        slots_map(final(tab)@) == slots_map(old(tab)@).insert(key@, value),
        prev == (if slots_map(old(tab)@).dom().contains(key@) {
            Some(slots_map(old(tab)@)[key@])
        } else {
            None::<V>
        }),
        occ_count(final(tab)@) == occ_count(old(tab)@) + (if prev is Some {
            0nat
        } else {
            1nat
        }),
        used_count(final(tab)@) == used_count(old(tab)@) + (if prev is Some {
            0nat
        } else {
            1nat
        }),
{
    let ghost s = tab@;
    let ghost gkey = key;
    let ghost gval = value;
    let i = probe(tab, &key);
    let mut slot = Slot::Occ { key, value };
    core::mem::swap(&mut slot, &mut tab[i]);
    proof {
        assert(tab@ == s.update(i as int, Slot::Occ { key: gkey, value: gval }));
        lemma_counts_update(s, i as int, Slot::Occ { key: gkey, value: gval });
    }
    match slot {
        Slot::Occ { key: old_key, value: old_value } => {
            proof {
                lemma_map_at(s, i as int);
                lemma_update_replace(s, i as int, gkey, gval);
                lemma_replace_preserves(s, i as int, gkey, gval);
            }
            Some(old_value)
        },
        Slot::Empty => {
            proof {
                lemma_map_dom(s, gkey@);
                lemma_update_fill(s, i as int, gkey, gval);
                lemma_fill_preserves(s, i as int, gkey, gval);
            }
            None
        },
        Slot::Tomb => unreached(),
    }
}

/// Rebuilds a table at the next capacity: every pair is probed into a
/// fresh table of never-used slots, and tombstones are dropped.
fn grow_table<K: MapKey, V>(src: Vec<Slot<K, V>>) -> (tab: Vec<Slot<K, V>>)
    requires
        distinct_ok(src@),
        src@.len() <= usize::MAX / 2,
    ensures
        tab@.len() == grown_capacity(src@.len()),
        table_ok(tab@),
        slots_map(tab@) == slots_map(src@),
        occ_count(tab@) == occ_count(src@),
        used_count(tab@) == occ_count(src@),
{
    let ghost s0 = src@;
    let old_cap = src.len();
    let doubled = old_cap * 2;
    let new_cap = if doubled > DEFAULT_CAPACITY {
        doubled
    } else {
        DEFAULT_CAPACITY
    };
    let mut tab: Vec<Slot<K, V>> = Vec::new();
    while tab.len() < new_cap
        invariant
            forall|j: int| 0 <= j < tab@.len() ==> #[trigger] tab@[j] is Empty,
            tab@.len() <= new_cap,
        decreases new_cap - tab@.len(),
    {
        tab.push(Slot::Empty);
    }
    proof {
        lemma_all_empty(tab@);
        lemma_counts_bound(s0);
    }
    let mut src = src;
    loop
        invariant
            tab@.len() == new_cap,
            new_cap == grown_capacity(s0.len()),
            occ_count(s0) <= s0.len(),
            table_ok(tab@),
            distinct_ok(src@),
            occ_count(tab@) + occ_count(src@) == occ_count(s0),
            used_count(tab@) == occ_count(tab@),
            slots_map(src@).union_prefer_right(slots_map(tab@)) == slots_map(s0),
            forall|kv: K::V|
                !(slots_map(src@).dom().contains(kv) && #[trigger] slots_map(
                    tab@,
                ).dom().contains(kv)),
        ensures
            src@.len() == 0,
        decreases src@.len(),
    {
        let ghost src_before = src@;
        match src.pop() {
            None => {
                break ;
            },
            Some(Slot::Occ { key, value }) => {
                proof {
                    lemma_distinct_drop_last(src_before);
                    lemma_map_dom(src_before.drop_last(), src_before.last().key_view());
                    assert(!slots_map(src_before.drop_last()).dom().contains(
                        src_before.last().key_view(),
                    )) by {
                        if exists|w: int|
                            0 <= w < src_before.drop_last().len()
                                && #[trigger] src_before.drop_last()[w] is Occ
                                && src_before.drop_last()[w].key_view()
                                == src_before.last().key_view() {
                            let w = choose|w: int|
                                0 <= w < src_before.drop_last().len()
                                    && #[trigger] src_before.drop_last()[w] is Occ
                                    && src_before.drop_last()[w].key_view()
                                    == src_before.last().key_view();
                            assert(src_before[w] is Occ);
                            assert(src_before[src_before.len() - 1] is Occ);
                            assert(false);
                        }
                    }
                    lemma_counts_bound(src@);
                    lemma_counts_bound(tab@);
                }
                let ghost tab_before = tab@;
                let ghost popped = src_before.last().key_view();
                let prev = place(&mut tab, key, value);
                proof {
                    assert(prev is None);
                    assert(slots_map(src@).union_prefer_right(slots_map(tab@)) =~= slots_map(
                        s0,
                    ));
                    assert(slots_map(src_before).dom() == slots_map(src@).dom().insert(popped));
                    assert forall|w: K::V|
                        !(slots_map(src@).dom().contains(w) && #[trigger] slots_map(
                            tab@,
                        ).dom().contains(w)) by {
                        if slots_map(tab@).dom().contains(w) && slots_map(
                            src@,
                        ).dom().contains(w) {
                            assert(slots_map(src_before).dom().contains(w));
                            assert(w != popped);
                            assert(slots_map(tab_before).dom().contains(w));
                            assert(false);
                        }
                    }
                }
            },
            Some(_) => {},
        }
    }
    proof {
        assert(src@.len() == 0);
        assert(slots_map(src@).union_prefer_right(slots_map(tab@)) =~= slots_map(tab@));
    }
    tab
}

/// An open-addressing hash map from keys to values, with linear probing
/// and incremental doubling growth.
pub struct HashMap<K: MapKey, V> {
    buckets: Vec<Slot<K, V>>,
    len: usize,
    used: usize,
}

impl<K: MapKey, V> View for HashMap<K, V> {
    type V = Map<K::V, V>;

    closed spec fn view(&self) -> Map<K::V, V> {
        slots_map(self.buckets@)
    }
}

/// The capacity a table is grown to: double, but never below the default.
pub open spec fn grown_capacity(cap: nat) -> nat {
    if cap * 2 > DEFAULT_CAPACITY {
        cap * 2
    } else {
        DEFAULT_CAPACITY as nat
    }
}

impl<K: MapKey, V> HashMap<K, V> {
    /// Well-formedness: the two counters agree with the table, keys are
    /// distinct, every pair is reachable by probing, and while the table
    /// is nonempty some slot is never-used. Constructors establish it and
    /// every operation preserves it.
    pub closed spec fn inv(self) -> bool {
        &&& self.len == occ_count(self.buckets@)
        &&& self.used == used_count(self.buckets@)
        &&& table_ok(self.buckets@)
    }

    /// Number of slots in the table.
    pub closed spec fn spec_capacity(self) -> nat {
        self.buckets@.len()
    }

    /// Number of slots in use: holding a pair or a tombstone.
    pub closed spec fn spec_used(self) -> nat {
        used_count(self.buckets@)
    }

    /// Whether the next insertion grows the table first: it is empty, or
    /// the slots in use have reached 60% of capacity.
    pub open spec fn grow_pending(self) -> bool {
        self.spec_capacity() == 0 || self.spec_used() >= self.spec_capacity() * 6 / 10
    }

    /// Creates an empty map. No table is allocated yet.
    pub fn new() -> (m: Self)
        ensures
            m.inv(),
            m@ == Map::<K::V, V>::empty(),
            m.spec_capacity() == 0,
            m.spec_used() == 0,
    {
        Self { buckets: Vec::new(), len: 0, used: 0 }
    }

    /// Creates an empty map whose table has exactly `capacity` slots.
    pub fn with_capacity(capacity: usize) -> (m: Self)
        ensures
            m.inv(),
            m@ == Map::<K::V, V>::empty(),
            m.spec_capacity() == capacity,
            m.spec_used() == 0,
    {
        let mut buckets: Vec<Slot<K, V>> = Vec::new();
        while buckets.len() < capacity
            invariant
                forall|j: int| 0 <= j < buckets@.len() ==> #[trigger] buckets@[j] is Empty,
                buckets@.len() <= capacity,
            decreases capacity - buckets@.len(),
        {
            buckets.push(Slot::Empty);
        }
        proof {
            lemma_all_empty(buckets@);
        }
        Self { buckets, len: 0, used: 0 }
    }

    /// Number of pairs in the map.
    pub fn len(&self) -> (n: usize)
        requires
            self.inv(),
        ensures
            n == self@.len(),
    {
        proof {
            lemma_map_len(self.buckets@);
        }
        self.len
    }

    /// Number of slots in the table.
    pub fn capacity(&self) -> (n: usize)
        ensures
            n == self.spec_capacity(),
    {
        self.buckets.len()
    }

    /// Whether the map holds no pair.
    pub fn is_empty(&self) -> (b: bool)
        requires
            self.inv(),
        ensures
            b == (self@.len() == 0),
    {
        proof {
            lemma_map_len(self.buckets@);
        }
        self.len == 0
    }

    /// Stores `k: v`. Returns the value `k` had before, if any; the table
    /// is grown first whenever the growth policy asks for it.
    pub fn insert(&mut self, k: K, v: V) -> (prev: Option<V>)
        requires
            old(self).inv(),
            old(self).spec_capacity() <= usize::MAX / 2,
        ensures
            final(self).inv(),
            final(self)@ == old(self)@.insert(k@, v),
            prev == (if old(self)@.dom().contains(k@) {
                Some(old(self)@[k@])
            } else {
                None::<V>
            }),
            final(self).spec_capacity() == (if old(self).grow_pending() {
                grown_capacity(old(self).spec_capacity())
            } else {
                old(self).spec_capacity()
            }),
            final(self).spec_used() == (if old(self).grow_pending() {
                old(self)@.len()
            } else {
                old(self).spec_used()
            }) + (if old(self)@.dom().contains(k@) {
                0nat
            } else {
                1nat
            }),
    {
        let mut tmp = Self::new();
        core::mem::swap(self, &mut tmp);
        let HashMap { mut buckets, mut len, mut used } = tmp;
        proof {
            lemma_map_len(buckets@);
            lemma_counts_bound(buckets@);
        }
        let cap = buckets.len();
        let threshold = ((cap as u128) * 6 / 10) as usize;
        proof {
            assert(cap * 6 / 10 < cap || cap == 0) by (nonlinear_arith);
            assert(threshold == cap * 6 / 10);
        }
        if cap == 0 || used >= threshold {
            buckets = grow_table(buckets);
            used = len;
        }
        proof {
            lemma_counts_bound(buckets@);
        }
        let prev = place(&mut buckets, k, v);
        if prev.is_none() {
            len = len + 1;
            used = used + 1;
        }
        *self = HashMap { buckets, len, used };
        prev
    }

    /// Hands back the value stored under `k`, if any. Read-only.
    pub fn get(&self, k: K) -> (r: Option<&V>)
        requires
            self.inv(),
        ensures
            r == (if self@.dom().contains(k@) {
                Some(&self@[k@])
            } else {
                None::<&V>
            }),
    {
        if self.buckets.len() == 0 {
            return None;
        }
        let i = probe(&self.buckets, &k);
        match &self.buckets[i] {
            Slot::Occ { key, value } => {
                proof {
                    lemma_map_at(self.buckets@, i as int);
                }
                Some(value)
            },
            _ => None,
        }
    }

    /// Whether the map holds a value under `k`.
    pub fn contains_key(&self, k: K) -> (b: bool)
        requires
            self.inv(),
        ensures
            b == self@.dom().contains(k@),
    {
        self.get(k).is_some()
    }

    /// Takes the pair stored under `k` out of the map, leaving a tombstone
    /// in its slot. Returns "not found" when `k` is absent.
    pub fn remove(&mut self, k: K) -> (r: Option<(K, V)>)
        requires
            old(self).inv(),
        ensures
            final(self).inv(),
            final(self)@ == old(self)@.remove(k@),
            r matches Some(p) ==> old(self)@.dom().contains(k@) && p.0@ == k@ && p.1 == old(
                self,
            )@[k@],
            r is None ==> !old(self)@.dom().contains(k@),
            final(self).spec_capacity() == old(self).spec_capacity(),
            final(self).spec_used() == old(self).spec_used(),
    {
        let mut tmp = Self::new();
        core::mem::swap(self, &mut tmp);
        let HashMap { mut buckets, mut len, used } = tmp;
        let ghost s = buckets@;
        if buckets.len() == 0 {
            proof {
                assert(slots_map(s) =~= slots_map(s).remove(k@));
            }
            *self = HashMap { buckets, len, used };
            return None;
        }
        let i = probe(&buckets, &k);
        let hit = match &buckets[i] {
            Slot::Occ { key, value } => true,
            Slot::Empty => false,
            Slot::Tomb => unreached(),
        };
        if hit {
            let mut slot = Slot::Tomb;
            core::mem::swap(&mut slot, &mut buckets[i]);
            proof {
                lemma_counts_update(s, i as int, Slot::Tomb);
                lemma_map_at(s, i as int);
                lemma_update_clear(s, i as int);
                lemma_tomb_preserves(s, i as int);
            }
            match slot {
                Slot::Occ { key, value } => {
                    len = len - 1;
                    *self = HashMap { buckets, len, used };
                    Some((key, value))
                },
                _ => unreached(),
            }
        } else {
            proof {
                assert(slots_map(s) =~= slots_map(s).remove(k@));
            }
            *self = HashMap { buckets, len, used };
            None
        }
    }
}

impl<K: MapKey, V> HashMap<K, V> {
    /// A well-formed map's model is a finite map with as many pairs as
    /// `len` reports.
    pub proof fn lemma_view_finite(&self)
        requires
            self.inv(),
        ensures
            self@.dom().finite(),
            self@.dom().len() == self@.len(),
    {
        lemma_map_len(self.buckets@);
    }
}

/// Law: over any sequence of insertions, the map's size counts the
/// distinct keys inserted. One insertion grows the model by one pair when
/// its key is new, and leaves the size unchanged when the key is already
/// bound (a duplicate overwrites, it does not accumulate).
pub proof fn lemma_insert_len<KV, V>(m: Map<KV, V>, k: KV, v: V)
    requires
        m.dom().finite(),
    ensures
        m.insert(k, v).dom().finite(),
        m.insert(k, v).len() == m.len() + (if m.dom().contains(k) {
            0int
        } else {
            1int
        }),
{
    broadcast use vstd::set::axiom_set_insert_len;

    assert(m.insert(k, v).dom() =~= m.dom().insert(k));
}

/// Law: inserting under one key twice binds it to the second value and
/// leaves the size as after the first insertion; the second insertion sees
/// the first value as the previous one.
pub proof fn lemma_insert_twice<KV, V>(m: Map<KV, V>, k: KV, v1: V, v2: V)
    requires
        m.dom().finite(),
    ensures
        m.insert(k, v1)[k] == v1,
        m.insert(k, v1).insert(k, v2)[k] == v2,
        m.insert(k, v1).insert(k, v2).len() == m.insert(k, v1).len(),
{
    lemma_insert_len(m, k, v1);
    lemma_insert_len(m.insert(k, v1), k, v2);
}

/// Law: removing a bound key shrinks the model by exactly one pair and
/// unbinds the key; removing an absent key changes nothing.
pub proof fn lemma_remove_len<KV, V>(m: Map<KV, V>, k: KV)
    requires
        m.dom().finite(),
    ensures
        m.remove(k).dom().finite(),
        !m.remove(k).dom().contains(k),
        m.len() == m.remove(k).len() + (if m.dom().contains(k) {
            1int
        } else {
            0int
        }),
        !m.dom().contains(k) ==> m.remove(k) == m,
{
    broadcast use vstd::set::axiom_set_remove_len;

    assert(m.remove(k).dom() =~= m.dom().remove(k));
    if !m.dom().contains(k) {
        assert(m.remove(k) =~= m);
    }
}

/// Law: an insertion touches no other key. Together with `insert`'s
/// contract this says growth preserves all entries: whatever was bound
/// before a growth-triggering insertion is bound to the same value after
/// it.
pub proof fn lemma_insert_preserves_others<KV, V>(m: Map<KV, V>, k: KV, v: V)
    ensures
        forall|k2: KV|
            k2 != k ==> (#[trigger] m.insert(k, v).dom().contains(k2) <==> m.dom().contains(k2)),
        forall|k2: KV|
            k2 != k && m.dom().contains(k2) ==> #[trigger] m.insert(k, v)[k2] == m[k2],
{
}

/// The pairs held by a table, in slot order.
spec fn entries<K: MapKey, V>(s: Seq<Slot<K, V>>) -> Seq<(K, V)>
    decreases s.len(),
{
    if s.len() == 0 {
        Seq::empty()
    } else {
        match s[0] {
            Slot::Occ { key, value } => seq![(key, value)] + entries(s.drop_first()),
            _ => entries(s.drop_first()),
        }
    }
}

/// `occ_count` seen from the front of the table.
proof fn lemma_occ_first<K: MapKey, V>(s: Seq<Slot<K, V>>)
    requires
        s.len() > 0,
    ensures
        occ_count(s) == occ_count(s.drop_first()) + (if s[0] is Occ {
            1nat
        } else {
            0nat
        }),
    decreases s.len(),
{
    if s.len() == 1 {
        assert(s.drop_first() =~= Seq::empty());
        assert(s.drop_last() =~= Seq::empty());
        assert(s.last() == s[0]);
    } else {
        lemma_occ_first(s.drop_last());
        assert(s.drop_first().drop_last() =~= s.drop_last().drop_first());
        assert(s.drop_first().last() == s.last());
        assert(s.drop_last()[0] == s[0]);
    }
}

/// The table's pairs are exactly as many as its occupied slots.
proof fn lemma_entries_len<K: MapKey, V>(s: Seq<Slot<K, V>>)
    ensures
        entries(s).len() == occ_count(s),
    decreases s.len(),
{
    if s.len() > 0 {
        lemma_occ_first(s);
        lemma_entries_len(s.drop_first());
    }
}

/// Every listed pair is held by some occupied slot.
proof fn lemma_entries_member<K: MapKey, V>(s: Seq<Slot<K, V>>, idx: int)
    requires
        0 <= idx < entries(s).len(),
    ensures
        exists|i: int|
            0 <= i < s.len() && #[trigger] s[i] is Occ && s[i].key_view() == entries(s)[idx].0@
                && s[i].val() == entries(s)[idx].1,
    decreases s.len(),
{
    if s.len() > 0 {
        if s[0] is Occ && idx == 0 {
            assert(s[0].key_view() == entries(s)[0].0@ && s[0].val() == entries(s)[0].1);
        } else {
            let sub = if s[0] is Occ {
                idx - 1
            } else {
                idx
            };
            lemma_entries_member(s.drop_first(), sub);
            let i = choose|i: int|
                0 <= i < s.drop_first().len() && #[trigger] s.drop_first()[i] is Occ
                    && s.drop_first()[i].key_view() == entries(s.drop_first())[sub].0@
                    && s.drop_first()[i].val() == entries(s.drop_first())[sub].1;
            assert(s[i + 1] is Occ && s[i + 1].key_view() == entries(s)[idx].0@ && s[i
                + 1].val() == entries(s)[idx].1);
        }
    }
}

/// With distinct keys in the table, the listed pairs carry distinct keys.
proof fn lemma_entries_distinct<K: MapKey, V>(s: Seq<Slot<K, V>>)
    requires
        distinct_ok(s),
    ensures
        forall|a: int, b: int|
            0 <= a < b < entries(s).len() ==> #[trigger] entries(s)[a].0@ != #[trigger] entries(
                s,
            )[b].0@,
    decreases s.len(),
{
    if s.len() > 0 {
        assert(distinct_ok(s.drop_first())) by {
            assert(forall|a: int, b: int|
                0 <= a < s.drop_first().len() && 0 <= b < s.drop_first().len() && a != b
                    && #[trigger] s.drop_first()[a] is Occ && #[trigger] s.drop_first()[b] is Occ
                    ==> s[a + 1] is Occ && s[b + 1] is Occ && s.drop_first()[a] == s[a + 1]
                    && s.drop_first()[b] == s[b + 1]);
        }
        lemma_entries_distinct(s.drop_first());
        assert forall|a: int, b: int| 0 <= a < b < entries(s).len() implies #[trigger] entries(
            s,
        )[a].0@ != #[trigger] entries(s)[b].0@ by {
            if s[0] is Occ && a == 0 {
                lemma_entries_member(s.drop_first(), b - 1);
                let i = choose|i: int|
                    0 <= i < s.drop_first().len() && #[trigger] s.drop_first()[i] is Occ
                        && s.drop_first()[i].key_view() == entries(s.drop_first())[b - 1].0@
                        && s.drop_first()[i].val() == entries(s.drop_first())[b - 1].1;
                assert(s[i + 1] is Occ);
                assert(s[0] is Occ);
                assert(s[0].key_view() != s[i + 1].key_view());
            } else {
                let shift = if s[0] is Occ {
                    1int
                } else {
                    0int
                };
                assert(entries(s)[a] == entries(s.drop_first())[a - shift]);
                assert(entries(s)[b] == entries(s.drop_first())[b - shift]);
            }
        }
    }
}

/// A lazy walk over the table's pairs in slot order, by reference. Each
/// call of [`HashMap::iter`] starts a fresh walk; the order is the slot
/// order and carries no meaning.
pub struct Iter<'a, K: MapKey, V> {
    index: usize,
    buckets: &'a Vec<Slot<K, V>>,
}

impl<'a, K: MapKey, V> Iter<'a, K, V> {
    /// The pairs not yet handed out.
    pub closed spec fn remaining(self) -> Seq<(K, V)> {
        entries(self.buckets@.skip(self.index as int))
    }

    /// The walk's position is inside the table.
    pub closed spec fn valid(self) -> bool {
        self.index <= self.buckets@.len()
    }

    /// Hands out the next pair, or `None` once every pair has been seen.
    pub fn next(&mut self) -> (r: Option<(&'a K, &'a V)>)
        requires
            old(self).valid(),
        ensures
            final(self).valid(),
            match r {
                Some(pair) => old(self).remaining().len() > 0 && (*pair.0, *pair.1) == old(
                    self,
                ).remaining()[0] && final(self).remaining() == old(self).remaining().drop_first(),
                None => old(self).remaining().len() == 0 && final(self).remaining() == old(
                    self,
                ).remaining(),
            },
    {
        let buckets: &'a Vec<Slot<K, V>> = self.buckets;
        while self.index < buckets.len()
            invariant
                self.index <= buckets@.len(),
                self.buckets == buckets,
                entries(buckets@.skip(self.index as int)) == old(self).remaining(),
            decreases buckets@.len() - self.index,
        {
            let i = self.index;
            proof {
                assert(buckets@.skip(i as int).drop_first() =~= buckets@.skip(i + 1));
                assert(buckets@.skip(i as int)[0] == buckets@[i as int]);
            }
            match &buckets[i] {
                Slot::Occ { key, value } => {
                    self.index = i + 1;
                    return Some((key, value));
                },
                _ => {
                    self.index = i + 1;
                },
            }
        }
        proof {
            assert(buckets@.skip(self.index as int) =~= Seq::empty());
        }
        None
    }
}

/// A consuming walk over the table's pairs in slot order, with owned
/// pairs. The order is the slot order and carries no meaning.
pub struct IntoIter<K: MapKey, V> {
    index: usize,
    buckets: Vec<Slot<K, V>>,
}

impl<K: MapKey, V> IntoIter<K, V> {
    /// The pairs not yet handed out.
    pub closed spec fn remaining(self) -> Seq<(K, V)> {
        entries(self.buckets@.skip(self.index as int))
    }

    /// The walk's position is inside the table.
    pub closed spec fn valid(self) -> bool {
        self.index <= self.buckets@.len()
    }

    /// Hands out the next pair, or `None` once every pair has been taken.
    pub fn next(&mut self) -> (r: Option<(K, V)>)
        requires
            old(self).valid(),
        ensures
            final(self).valid(),
            match r {
                Some(pair) => old(self).remaining().len() > 0 && pair == old(
                    self,
                ).remaining()[0] && final(self).remaining() == old(self).remaining().drop_first(),
                None => old(self).remaining().len() == 0 && final(self).remaining() == old(
                    self,
                ).remaining(),
            },
    {
        while self.index < self.buckets.len()
            invariant
                self.index <= self.buckets@.len(),
                entries(self.buckets@.skip(self.index as int)) == old(self).remaining(),
            decreases self.buckets@.len() - self.index,
        {
            let i = self.index;
            let ghost s = self.buckets@;
            proof {
                assert(s.skip(i as int).drop_first() =~= s.skip(i + 1));
                assert(s.skip(i as int)[0] == s[i as int]);
            }
            let hit = match &self.buckets[i] {
                Slot::Occ { key, value } => true,
                _ => false,
            };
            if hit {
                let mut slot = Slot::Tomb;
                core::mem::swap(&mut slot, &mut self.buckets[i]);
                self.index = i + 1;
                proof {
                    assert(self.buckets@.skip(i + 1) =~= s.skip(i + 1));
                }
                match slot {
                    Slot::Occ { key, value } => {
                        return Some((key, value));
                    },
                    _ => unreached(),
                }
            } else {
                self.index = i + 1;
            }
        }
        proof {
            assert(self.buckets@.skip(self.index as int) =~= Seq::empty());
        }
        None
    }
}

impl<K: MapKey, V> HashMap<K, V> {
    /// Starts a walk over the pairs by reference: as many pairs as the map
    /// holds, each key exactly once, every pair drawn from the map.
    pub fn iter<'a>(&'a self) -> (it: Iter<'a, K, V>)
        requires
            self.inv(),
        ensures
            it.valid(),
            it.remaining().len() == self@.len(),
            forall|idx: int|
                0 <= idx < it.remaining().len() ==> self@.contains_pair(
                    #[trigger] it.remaining()[idx].0@,
                    it.remaining()[idx].1,
                ),
            forall|a: int, b: int|
                0 <= a < b < it.remaining().len() ==> #[trigger] it.remaining()[a].0@
                    != #[trigger] it.remaining()[b].0@,
    {
        proof {
            assert(self.buckets@.skip(0) =~= self.buckets@);
            lemma_entries_len(self.buckets@);
            lemma_map_len(self.buckets@);
            lemma_entries_distinct(self.buckets@);
            assert forall|idx: int| 0 <= idx < entries(self.buckets@).len() implies self@
                .contains_pair(
                #[trigger] entries(self.buckets@)[idx].0@,
                entries(self.buckets@)[idx].1,
            ) by {
                lemma_entries_member(self.buckets@, idx);
                let i = choose|i: int|
                    0 <= i < self.buckets@.len() && #[trigger] self.buckets@[i] is Occ
                        && self.buckets@[i].key_view() == entries(self.buckets@)[idx].0@
                        && self.buckets@[i].val() == entries(self.buckets@)[idx].1;
                lemma_map_at(self.buckets@, i);
            }
        }
        Iter { index: 0, buckets: &self.buckets }
    }

    /// Starts a consuming walk over the pairs: as many pairs as the map
    /// held, each key exactly once, every pair drawn from the map.
    pub fn into_iter(self) -> (it: IntoIter<K, V>)
        requires
            self.inv(),
        ensures
            it.valid(),
            it.remaining().len() == self@.len(),
            forall|idx: int|
                0 <= idx < it.remaining().len() ==> self@.contains_pair(
                    #[trigger] it.remaining()[idx].0@,
                    it.remaining()[idx].1,
                ),
            forall|a: int, b: int|
                0 <= a < b < it.remaining().len() ==> #[trigger] it.remaining()[a].0@
                    != #[trigger] it.remaining()[b].0@,
    {
        proof {
            assert(self.buckets@.skip(0) =~= self.buckets@);
            lemma_entries_len(self.buckets@);
            lemma_map_len(self.buckets@);
            lemma_entries_distinct(self.buckets@);
            assert forall|idx: int| 0 <= idx < entries(self.buckets@).len() implies self@
                .contains_pair(
                #[trigger] entries(self.buckets@)[idx].0@,
                entries(self.buckets@)[idx].1,
            ) by {
                lemma_entries_member(self.buckets@, idx);
                let i = choose|i: int|
                    0 <= i < self.buckets@.len() && #[trigger] self.buckets@[i] is Occ
                        && self.buckets@[i].key_view() == entries(self.buckets@)[idx].0@
                        && self.buckets@[i].val() == entries(self.buckets@)[idx].1;
                lemma_map_at(self.buckets@, i);
            }
        }
        let HashMap { buckets, len, used } = self;
        IntoIter { index: 0, buckets }
    }
}

/// A handle to the slot that already holds the looked-up key.
pub struct OccupiedEntry<K> {
    key: K,
    index: usize,
}

/// A handle to the never-used slot where the looked-up key would go.
pub struct VacantEntry<K> {
    key: K,
    index: usize,
}

/// A handle for in-place manipulation of one key's slot, found by
/// [`HashMap::entry`]. The map is passed back to the methods that resolve
/// the handle; `suits` says the handle still describes that map.
pub enum Entry<K> {
    Occupied(OccupiedEntry<K>),
    Vacant(VacantEntry<K>),
}

impl<K: MapKey> OccupiedEntry<K> {
    /// View of the key this handle was found for.
    pub closed spec fn key_view(self) -> K::V {
        self.key@
    }

    /// The handle describes `m`: its slot holds the key.
    pub closed spec fn suits<V>(self, m: HashMap<K, V>) -> bool {
        &&& m.inv()
        &&& self.index < m.buckets@.len()
        &&& m.buckets@[self.index as int] is Occ
        &&& m.buckets@[self.index as int].key_view() == self.key@
    }
}

impl<K: MapKey> VacantEntry<K> {
    /// View of the key this handle was found for.
    pub closed spec fn key_view(self) -> K::V {
        self.key@
    }

    /// The handle describes `m`: the key is absent, its slot is never-used
    /// and reachable by its probe sequence, and filling it leaves a
    /// never-used slot elsewhere.
    pub closed spec fn suits<V>(self, m: HashMap<K, V>) -> bool {
        &&& m.inv()
        &&& self.index < m.buckets@.len()
        &&& m.buckets@[self.index as int] is Empty
        &&& !m@.dom().contains(self.key@)
        &&& used_count(m.buckets@) + 1 < m.buckets@.len()
        &&& (forall|j: int|
            0 <= j < m.buckets@.len() && pdist(
                home::<K>(self.key@, m.buckets@.len() as int),
                j,
                m.buckets@.len() as int,
            ) < pdist(
                home::<K>(self.key@, m.buckets@.len() as int),
                self.index as int,
                m.buckets@.len() as int,
            ) ==> !(#[trigger] m.buckets@[j] is Empty))
    }

    /// Stores `value` under this handle's key and hands back the slot's
    /// value for in-place use.
    pub fn insert<'a, V>(self, map: &'a mut HashMap<K, V>, value: V) -> (r: &'a mut V)
        requires
            self.suits(*old(map)),
        ensures
            final(map).inv(),
            *r == value,
            final(map)@ == old(map)@.insert(self.key_view(), *final(r)),
            final(map).spec_capacity() == old(map).spec_capacity(),
            final(map).spec_used() == old(map).spec_used() + 1,
            final(map)@.dom().contains(self.key_view()),
    {
        let VacantEntry { key, index } = self;
        let _ = map.buckets.len();
        let ghost s = map.buckets@;
        let ghost gkey = key;
        let ghost gval = value;
        proof {
            lemma_counts_bound(s);
            lemma_map_dom(s, gkey@);
            lemma_counts_update(s, index as int, Slot::Occ { key: gkey, value: gval });
            lemma_update_fill(s, index as int, gkey, gval);
            lemma_fill_preserves(s, index as int, gkey, gval);
        }
        map.buckets[index] = Slot::Occ { key, value };
        map.len = map.len + 1;
        map.used = map.used + 1;
        let ghost s1 = map.buckets@;
        match &mut map.buckets[index] {
            Slot::Occ { key: key_ref, value: stored } => {
                proof {
                    lemma_counts_update(
                        s1,
                        index as int,
                        Slot::Occ { key: *final(key_ref), value: *final(stored) },
                    );
                    lemma_update_replace(s1, index as int, *final(key_ref), *final(stored));
                    lemma_replace_preserves(s1, index as int, *final(key_ref), *final(stored));
                    assert(slots_map(s1).insert(gkey@, *final(stored)) =~= slots_map(s).insert(
                        gkey@,
                        *final(stored),
                    ));
                }
                stored
            },
            _ => unreached(),
        }
    }
}

impl<K: MapKey> Entry<K> {
    /// View of the key this handle was found for.
    pub open spec fn key_view(self) -> K::V {
        match self {
            Entry::Occupied(o) => o.key_view(),
            Entry::Vacant(va) => va.key_view(),
        }
    }

    /// The handle describes `m`.
    pub open spec fn suits<V>(self, m: HashMap<K, V>) -> bool {
        match self {
            Entry::Occupied(o) => o.suits(m) && m@.dom().contains(o.key_view()),
            Entry::Vacant(va) => va.suits(m),
        }
    }

    /// Hands back the value already stored under this handle's key, or
    /// stores `value` there first. Either way the key ends up bound to
    /// whatever the caller leaves in the returned slot.
    pub fn or_insert<'a, V>(self, map: &'a mut HashMap<K, V>, value: V) -> (r: &'a mut V)
        requires
            self.suits(*old(map)),
        ensures
            final(map).inv(),
            *r == (if old(map)@.dom().contains(self.key_view()) {
                old(map)@[self.key_view()]
            } else {
                value
            }),
            final(map)@ == old(map)@.insert(self.key_view(), *final(r)),
            final(map).spec_capacity() == old(map).spec_capacity(),
            final(map).spec_used() == old(map).spec_used() + (if old(map)@.dom().contains(
                self.key_view(),
            ) {
                0nat
            } else {
                1nat
            }),
    {
        match self {
            Entry::Occupied(o) => occupied_value_mut(map, o.index),
            Entry::Vacant(va) => va.insert(map, value),
        }
    }

    /// Like [`Entry::or_insert`], but the missing value is produced only
    /// when the key is absent.
    pub fn or_insert_with<'a, V, F: FnOnce() -> V>(
        self,
        map: &'a mut HashMap<K, V>,
        maker: F,
    ) -> (r: &'a mut V)
        requires
            self.suits(*old(map)),
            !old(map)@.dom().contains(self.key_view()) ==> maker.requires(()),
        ensures
            final(map).inv(),
            old(map)@.dom().contains(self.key_view()) ==> *r == old(map)@[self.key_view()],
            !old(map)@.dom().contains(self.key_view()) ==> maker.ensures((), *r),
            final(map)@ == old(map)@.insert(self.key_view(), *final(r)),
            final(map).spec_capacity() == old(map).spec_capacity(),
            final(map).spec_used() == old(map).spec_used() + (if old(map)@.dom().contains(
                self.key_view(),
            ) {
                0nat
            } else {
                1nat
            }),
    {
        match self {
            Entry::Occupied(o) => occupied_value_mut(map, o.index),
            Entry::Vacant(va) => {
                let value = maker();
                va.insert(map, value)
            },
        }
    }

    /// Like [`Entry::or_insert`] with the value type's default.
    pub fn or_default<'a, V: Default>(self, map: &'a mut HashMap<K, V>) -> (r: &'a mut V)
        requires
            self.suits(*old(map)),
        ensures
            final(map).inv(),
            old(map)@.dom().contains(self.key_view()) ==> *r == old(map)@[self.key_view()],
            !old(map)@.dom().contains(self.key_view()) ==> call_ensures(V::default, (), *r),
            final(map)@ == old(map)@.insert(self.key_view(), *final(r)),
            final(map).spec_capacity() == old(map).spec_capacity(),
            final(map).spec_used() == old(map).spec_used() + (if old(map)@.dom().contains(
                self.key_view(),
            ) {
                0nat
            } else {
                1nat
            }),
    {
        match self {
            Entry::Occupied(o) => occupied_value_mut(map, o.index),
            Entry::Vacant(va) => {
                let value = V::default();
                va.insert(map, value)
            },
        }
    }
}

/// Hands back the value stored in an occupied slot for in-place use.
fn occupied_value_mut<'a, K: MapKey, V>(map: &'a mut HashMap<K, V>, index: usize) -> (r: &'a mut V)
    requires
        old(map).inv(),
        index < old(map).buckets@.len(),
        old(map).buckets@[index as int] is Occ,
    ensures
        final(map).inv(),
        *r == old(map)@[old(map).buckets@[index as int].key_view()],
        final(map)@ == old(map)@.insert(old(map).buckets@[index as int].key_view(), *final(r)),
        final(map).spec_capacity() == old(map).spec_capacity(),
        final(map).spec_used() == old(map).spec_used(),
{
    let ghost s = map.buckets@;
    proof {
        lemma_map_at(s, index as int);
    }
    match &mut map.buckets[index] {
        Slot::Occ { key: key_ref, value: stored } => {
            proof {
                lemma_counts_update(
                    s,
                    index as int,
                    Slot::Occ { key: *final(key_ref), value: *final(stored) },
                );
                lemma_update_replace(s, index as int, *final(key_ref), *final(stored));
                lemma_replace_preserves(s, index as int, *final(key_ref), *final(stored));
            }
            stored
        },
        _ => unreached(),
    }
}

impl<K: MapKey, V> HashMap<K, V> {
    /// Finds the given key's slot for in-place manipulation, growing the
    /// table first exactly as an insertion would.
    pub fn entry(&mut self, k: K) -> (e: Entry<K>)
        requires
            old(self).inv(),
            old(self).spec_capacity() <= usize::MAX / 2,
        ensures
            final(self).inv(),
            final(self)@ == old(self)@,
            final(self).spec_capacity() == (if old(self).grow_pending() {
                grown_capacity(old(self).spec_capacity())
            } else {
                old(self).spec_capacity()
            }),
            final(self).spec_used() == (if old(self).grow_pending() {
                old(self)@.len()
            } else {
                old(self).spec_used()
            }),
            e.suits(*final(self)),
            e.key_view() == k@,
            e is Occupied <==> old(self)@.dom().contains(k@),
    {
        let mut tmp = Self::new();
        core::mem::swap(self, &mut tmp);
        let HashMap { mut buckets, len, mut used } = tmp;
        proof {
            lemma_map_len(buckets@);
            lemma_counts_bound(buckets@);
        }
        let cap = buckets.len();
        let threshold = ((cap as u128) * 6 / 10) as usize;
        proof {
            assert(cap * 6 / 10 < cap || cap == 0) by (nonlinear_arith);
            assert(threshold == cap * 6 / 10);
        }
        if cap == 0 || used >= threshold {
            buckets = grow_table(buckets);
            used = len;
        }
        proof {
            lemma_counts_bound(buckets@);
        }
        let i = probe(&buckets, &k);
        let e = match &buckets[i] {
            Slot::Occ { key, value } => Entry::Occupied(OccupiedEntry { key: k, index: i }),
            Slot::Empty => Entry::Vacant(VacantEntry { key: k, index: i }),
            Slot::Tomb => unreached(),
        };
        proof {
            if buckets@[i as int] is Occ {
                lemma_map_at(buckets@, i as int);
            }
        }
        *self = HashMap { buckets, len, used };
        e
    }
}

} // verus!
