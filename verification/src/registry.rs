//! The two process-wide registries and their mathematical model.
//!
//! `Clients` maps a nick to the sink handle of the session that claimed it.
//! `Channels` maps a channel name to its member list (nick and sink per
//! member). A member list is kept as an ordered association list, so every
//! operation also says in which order a fan-out will walk the recipients.
//!
//! The spec model of an association list is a `Seq` of `(key, value)`
//! pairs with pairwise-distinct keys, abstracted to a `Map` by
//! [`assoc_map`]. The registry invariants of the design live in
//! [`Members::wf`] and [`Channels::wf`]: member nicks are unique per
//! channel, channel names are unique, and a channel entry exists only
//! while its member list is non-empty.

use vstd::prelude::*;
use vstd::hash_map::StringHashMap;

verus! {

/// Exact comparison of two names (nicks and channel names are
/// case-sensitive in this design).
pub fn str_eq(a: &String, b: &String) -> (r: bool)
    ensures
        r == (a@ == b@),
{
    <String as PartialEq>::eq(a, b)
}

/// Some entry of `s` has key `k`.
pub open spec fn has_key<V>(s: Seq<(Seq<char>, V)>, k: Seq<char>) -> bool {
    exists|i: int| 0 <= i < s.len() && (#[trigger] s[i]).0 == k
}

/// The keys of `s` are pairwise distinct.
pub open spec fn uniq_keys<V>(s: Seq<(Seq<char>, V)>) -> bool {
    forall|i: int, j: int|
        0 <= i < j < s.len() ==> (#[trigger] s[i]).0 != (#[trigger] s[j]).0
}

/// The finite map that an association list denotes (later entries win,
/// though with distinct keys the order cannot matter).
pub open spec fn assoc_map<V>(s: Seq<(Seq<char>, V)>) -> Map<Seq<char>, V>
    decreases s.len(),
{
    if s.len() == 0 {
        Map::empty()
    } else {
        assoc_map(s.drop_last()).insert(s.last().0, s.last().1)
    }
}

/// `s` without every entry whose key is `k`, order kept.
pub open spec fn strip<V>(s: Seq<(Seq<char>, V)>, k: Seq<char>) -> Seq<(Seq<char>, V)>
    decreases s.len(),
{
    if s.len() == 0 {
        Seq::empty()
    } else {
        let r = strip(s.drop_last(), k);
        if s.last().0 == k {
            r
        } else {
            r.push(s.last())
        }
    }
}

/// `s` with the value at key `k` replaced by `v`, order and other entries kept.
pub open spec fn set_val<V>(s: Seq<(Seq<char>, V)>, k: Seq<char>, v: V) -> Seq<(Seq<char>, V)> {
    s.map_values(|p: (Seq<char>, V)| if p.0 == k { (k, v) } else { p })
}

pub proof fn lemma_assoc_dom<V>(s: Seq<(Seq<char>, V)>)
    ensures
        forall|k: Seq<char>| #[trigger] assoc_map(s).contains_key(k) <==> has_key(s, k),
    decreases s.len(),
{
    if s.len() > 0 {
        let d = s.drop_last();
        lemma_assoc_dom(d);
        assert forall|k: Seq<char>| #[trigger] assoc_map(s).contains_key(k) implies has_key(
            s,
            k,
        ) by {
            if k == s.last().0 {
                assert(s[s.len() - 1].0 == k);
            } else {
                assert(assoc_map(d).contains_key(k));
                let i = choose|i: int| 0 <= i < d.len() && (#[trigger] d[i]).0 == k;
                assert(s[i].0 == k);
            }
        }
        assert forall|k: Seq<char>| has_key(s, k) implies #[trigger] assoc_map(s).contains_key(
            k,
        ) by {
            let i = choose|i: int| 0 <= i < s.len() && (#[trigger] s[i]).0 == k;
            if i < s.len() - 1 {
                assert(d[i].0 == k);
                assert(has_key(d, k));
                assert(assoc_map(d).contains_key(k));
            }
        }
    }
}

pub proof fn lemma_assoc_index<V>(s: Seq<(Seq<char>, V)>, i: int)
    requires
        uniq_keys(s),
        0 <= i < s.len(),
    ensures
        assoc_map(s).contains_key(s[i].0),
        assoc_map(s)[s[i].0] == s[i].1,
    decreases s.len(),
{
    if i < s.len() - 1 {
        assert(s.drop_last()[i] == s[i]);
        lemma_assoc_index(s.drop_last(), i);
        assert(s[i].0 != s.last().0);
    }
}

/// Appending an entry with a key inserts it into the denoted map.
pub proof fn lemma_assoc_push<V>(s: Seq<(Seq<char>, V)>, p: (Seq<char>, V))
    ensures
        assoc_map(s.push(p)) == assoc_map(s).insert(p.0, p.1),
{
    assert(s.push(p).drop_last() =~= s);
    assert(s.push(p).last() == p);
}

pub proof fn lemma_strip_push<V>(s: Seq<(Seq<char>, V)>, p: (Seq<char>, V), k: Seq<char>)
    ensures
        p.0 == k ==> strip(s.push(p), k) == strip(s, k),
        p.0 != k ==> strip(s.push(p), k) == strip(s, k).push(p),
{
    assert(s.push(p).drop_last() =~= s);
    assert(s.push(p).last() == p);
}

pub proof fn lemma_has_key_push<V>(s: Seq<(Seq<char>, V)>, p: (Seq<char>, V))
    ensures
        forall|k: Seq<char>| has_key(s.push(p), k) <==> (has_key(s, k) || p.0 == k),
{
    assert forall|k: Seq<char>| has_key(s.push(p), k) <==> (has_key(s, k) || p.0 == k) by {
        if has_key(s.push(p), k) {
            let i = choose|i: int| 0 <= i < s.push(p).len() && (#[trigger] s.push(p)[i]).0 == k;
            if i < s.len() {
                assert(s[i].0 == k);
            }
        }
        if has_key(s, k) {
            let i = choose|i: int| 0 <= i < s.len() && (#[trigger] s[i]).0 == k;
            assert(s.push(p)[i].0 == k);
        }
        if p.0 == k {
            assert(s.push(p)[s.len() as int].0 == k);
        }
    }
}

/// Stripping a key that no entry has leaves the list as it was.
pub proof fn lemma_strip_absent<V>(s: Seq<(Seq<char>, V)>, k: Seq<char>)
    requires
        !has_key(s, k),
    ensures
        strip(s, k) == s,
    decreases s.len(),
{
    if s.len() > 0 {
        assert forall|i: int| 0 <= i < s.drop_last().len() implies (#[trigger] s.drop_last()[i]).0
            != k by {
            assert(s[i] == s.drop_last()[i]);
        }
        lemma_strip_absent(s.drop_last(), k);
        assert(s[s.len() - 1] == s.last());
        assert(strip(s, k) =~= s);
    }
}


/// Appending an entry with a fresh key keeps keys distinct.
pub proof fn lemma_uniq_push<V>(s: Seq<(Seq<char>, V)>, p: (Seq<char>, V))
    requires
        uniq_keys(s),
        !has_key(s, p.0),
    ensures
        uniq_keys(s.push(p)),
{
    let t = s.push(p);
    assert forall|i: int, j: int| 0 <= i < j < t.len() implies (#[trigger] t[i]).0
        != (#[trigger] t[j]).0 by {
        if j == t.len() - 1 {
            assert(t[i] == s[i]);
            if t[i].0 == p.0 {
                assert(has_key(s, p.0));
            }
        } else {
            assert(t[i] == s[i] && t[j] == s[j]);
        }
    }
}

/// Every entry of a stripped list stands somewhere in the original.
pub proof fn lemma_strip_subset<V>(s: Seq<(Seq<char>, V)>, k: Seq<char>)
    ensures
        forall|j: int|
            0 <= j < strip(s, k).len() ==> exists|i: int|
                0 <= i < s.len() && (#[trigger] strip(s, k)[j]) == s[i],
    decreases s.len(),
{
    if s.len() > 0 {
        let d = s.drop_last();
        lemma_strip_subset(d, k);
        assert forall|j: int| 0 <= j < strip(s, k).len() implies exists|i: int|
            0 <= i < s.len() && (#[trigger] strip(s, k)[j]) == s[i] by {
            if s.last().0 == k {
                assert(strip(s, k)[j] == strip(d, k)[j]);
                let i = choose|i: int| 0 <= i < d.len() && strip(d, k)[j] == d[i];
                assert(strip(s, k)[j] == s[i]);
            } else {
                if j < strip(s, k).len() - 1 {
                    assert(strip(s, k)[j] == strip(d, k)[j]);
                    let i = choose|i: int| 0 <= i < d.len() && strip(d, k)[j] == d[i];
                    assert(strip(s, k)[j] == s[i]);
                } else {
                    assert(strip(s, k)[j] == s[s.len() - 1]);
                }
            }
        }
    }
}

/// What stripping one key does to the denoted map, the keys and the length.
pub proof fn lemma_assoc_strip<V>(s: Seq<(Seq<char>, V)>, k: Seq<char>)
    requires
        uniq_keys(s),
    ensures
        uniq_keys(strip(s, k)),
        !has_key(strip(s, k), k),
        forall|k2: Seq<char>| k2 != k ==> (has_key(strip(s, k), k2) <==> has_key(s, k2)),
        assoc_map(strip(s, k)) == assoc_map(s).remove(k),
        strip(s, k).len() == s.len() - (if has_key(s, k) { 1int } else { 0 }),
    decreases s.len(),
{
    if s.len() == 0 {
        assert(assoc_map(strip(s, k)) =~= assoc_map(s).remove(k));
    } else {
        let d = s.drop_last();
        let p = s.last();
        assert forall|i: int, j: int| 0 <= i < j < d.len() implies (#[trigger] d[i]).0
            != (#[trigger] d[j]).0 by {
            assert(d[i] == s[i] && d[j] == s[j]);
        }
        lemma_assoc_strip(d, k);
        lemma_assoc_dom(d);
        if p.0 == k {
            // every key of d differs from k, so the stripped list is d itself
            assert forall|i: int| 0 <= i < d.len() implies (#[trigger] d[i]).0 != k by {
                assert(d[i] == s[i] && s[s.len() - 1] == p);
            }
            assert(!has_key(d, k));
            lemma_strip_absent(d, k);
            assert(strip(s, k) == d);
            assert(assoc_map(s) == assoc_map(d).insert(k, p.1));
            assert(!assoc_map(d).contains_key(k));
            assert(assoc_map(strip(s, k)) =~= assoc_map(s).remove(k));
            assert(s[s.len() - 1].0 == k);
            assert(has_key(s, k));
        } else {
            assert(strip(s, k) == strip(d, k).push(p));
            lemma_assoc_push(strip(d, k), p);
            lemma_assoc_push(d, p);
            assert(assoc_map(s) == assoc_map(d).insert(p.0, p.1));
            assert(assoc_map(strip(s, k)) == assoc_map(d).remove(k).insert(p.0, p.1));
            assert(assoc_map(strip(s, k)) =~= assoc_map(s).remove(k));
            // uniqueness of the result: p's key is absent from strip(d, k)
            let t = strip(d, k).push(p);
            assert forall|i: int, j: int| 0 <= i < j < t.len() implies (#[trigger] t[i]).0
                != (#[trigger] t[j]).0 by {
                if j == t.len() - 1 {
                    assert(t[i] == strip(d, k)[i]);
                    if t[i].0 == p.0 {
                        assert(has_key(strip(d, k), p.0));
                        assert(has_key(d, p.0));
                        let w = choose|w: int| 0 <= w < d.len() && (#[trigger] d[w]).0 == p.0;
                        assert(s[w].0 == s[s.len() - 1].0);
                    }
                } else {
                    assert(t[i] == strip(d, k)[i] && t[j] == strip(d, k)[j]);
                }
            }
            // the length clause: k occurs in s exactly where it occurs in d
            assert forall|i: int| 0 <= i < s.len() && (#[trigger] s[i]).0 == k implies i
                < d.len() by {
                assert(s[s.len() - 1] == p);
            }
            if has_key(s, k) {
                let w = choose|w: int| 0 <= w < s.len() && (#[trigger] s[w]).0 == k;
                assert(d[w].0 == k);
                assert(has_key(d, k));
            }
            if has_key(d, k) {
                let w = choose|w: int| 0 <= w < d.len() && (#[trigger] d[w]).0 == k;
                assert(s[w].0 == k);
            }
        }
    }
    // the key clauses follow from the map effect
    lemma_assoc_dom(s);
    lemma_assoc_dom(strip(s, k));
    assert forall|k2: Seq<char>| k2 != k implies (has_key(strip(s, k), k2) <==> has_key(
        s,
        k2,
    )) by {
        assert(assoc_map(strip(s, k)).contains_key(k2) == assoc_map(s).remove(k).contains_key(k2));
    }
    assert(!assoc_map(s).remove(k).contains_key(k));
}

/// Replacing the value at an existing key updates the denoted map in place.
pub proof fn lemma_assoc_set_val<V>(s: Seq<(Seq<char>, V)>, i: int, v: V)
    requires
        uniq_keys(s),
        0 <= i < s.len(),
    ensures
        uniq_keys(set_val(s, s[i].0, v)),
        set_val(s, s[i].0, v) == s.update(i, (s[i].0, v)),
        assoc_map(set_val(s, s[i].0, v)) == assoc_map(s).insert(s[i].0, v),
        forall|k2: Seq<char>| has_key(set_val(s, s[i].0, v), k2) <==> has_key(s, k2),
    decreases s.len(),
{
    let k = s[i].0;
    let t = s.update(i, (k, v));
    assert forall|j: int| 0 <= j < s.len() && j != i implies (#[trigger] s[j]).0 != k by {}
    assert(set_val(s, k, v) =~= t);
    assert forall|i2: int, j2: int| 0 <= i2 < j2 < t.len() implies (#[trigger] t[i2]).0
        != (#[trigger] t[j2]).0 by {}
    // map effect, by induction on the position of the update
    if i == s.len() - 1 {
        assert(t.drop_last() =~= s.drop_last());
        assert(t.last() == (k, v));
    } else {
        let d = s.drop_last();
        assert forall|i2: int, j2: int| 0 <= i2 < j2 < d.len() implies (#[trigger] d[i2]).0
            != (#[trigger] d[j2]).0 by {
            assert(d[i2] == s[i2] && d[j2] == s[j2]);
        }
        assert(d[i] == s[i]);
        lemma_assoc_set_val(d, i, v);
        assert(t.drop_last() =~= d.update(i, (k, v)));
        assert(t.drop_last() =~= set_val(d, k, v));
        assert(t.last() == s.last());
        assert(s.last().0 != k);
        assert(assoc_map(t) == assoc_map(d).insert(k, v).insert(s.last().0, s.last().1));
        assert(assoc_map(d).insert(k, v).insert(s.last().0, s.last().1) =~= assoc_map(d).insert(
            s.last().0,
            s.last().1,
        ).insert(k, v));
    }
    assert forall|k2: Seq<char>| has_key(t, k2) <==> has_key(s, k2) by {
        if has_key(t, k2) {
            let w = choose|w: int| 0 <= w < t.len() && (#[trigger] t[w]).0 == k2;
            assert(s[w].0 == k2);
        }
        if has_key(s, k2) {
            let w = choose|w: int| 0 <= w < s.len() && (#[trigger] s[w]).0 == k2;
            assert(t[w].0 == k2);
        }
    }
}


/// Replacing a value at a key that is present, named by the key.
pub proof fn lemma_set_val_by_key<V>(s: Seq<(Seq<char>, V)>, k: Seq<char>, v: V)
    requires
        uniq_keys(s),
        has_key(s, k),
    ensures
        uniq_keys(set_val(s, k, v)),
        assoc_map(set_val(s, k, v)) == assoc_map(s).insert(k, v),
        forall|k2: Seq<char>| has_key(set_val(s, k, v), k2) <==> has_key(s, k2),
        set_val(s, k, v).len() == s.len(),
        has_key(set_val(s, k, v), k),
{
    let i = choose|i: int| 0 <= i < s.len() && (#[trigger] s[i]).0 == k;
    lemma_assoc_set_val(s, i, v);
}

/// With distinct keys, stripping the key at position `i` is removing that entry.
pub proof fn lemma_strip_at<V>(s: Seq<(Seq<char>, V)>, i: int, k: Seq<char>)
    requires
        uniq_keys(s),
        0 <= i < s.len(),
        s[i].0 == k,
    ensures
        strip(s, k) == s.remove(i),
    decreases s.len(),
{
    let d = s.drop_last();
    let p = s.last();
    if i == s.len() - 1 {
        assert forall|w: int| 0 <= w < d.len() implies (#[trigger] d[w]).0 != k by {
            assert(d[w] == s[w] && s[s.len() - 1] == p);
        }
        lemma_strip_absent(d, k);
        assert(strip(s, k) == d);
        assert(s.remove(i) =~= d);
    } else {
        assert forall|i2: int, j2: int| 0 <= i2 < j2 < d.len() implies (#[trigger] d[i2]).0
            != (#[trigger] d[j2]).0 by {
            assert(d[i2] == s[i2] && d[j2] == s[j2]);
        }
        assert(d[i] == s[i]);
        lemma_strip_at(d, i, k);
        assert(p.0 != k);
        assert(strip(s, k) == strip(d, k).push(p));
        assert(strip(s, k) =~= s.remove(i));
    }
}

/// The channel entry view of an owned (name, members) list.
pub open spec fn chan_entries(s: Seq<(String, Members)>) -> Seq<(Seq<char>, Seq<(Seq<char>, u64)>)> {
    s.map_values(|p: (String, Members)| (p.0@, p.1.entries()))
}

/// A channel list after one nick has been removed from every member list,
/// with the entries that became empty dropped.
pub open spec fn quit_gentries(
    s: Seq<(Seq<char>, Seq<(Seq<char>, u64)>)>,
    n: Seq<char>,
) -> Seq<(Seq<char>, Seq<(Seq<char>, u64)>)>
    decreases s.len(),
{
    if s.len() == 0 {
        Seq::empty()
    } else {
        let r = quit_gentries(s.drop_last(), n);
        let m = strip(s.last().1, n);
        if m.len() == 0 {
            r
        } else {
            r.push((s.last().0, m))
        }
    }
}

/// The channels that held the nick, each with the members that remain,
/// in registry order: the recipients of a QUIT fan-out.
pub open spec fn affected(
    s: Seq<(Seq<char>, Seq<(Seq<char>, u64)>)>,
    n: Seq<char>,
) -> Seq<(Seq<char>, Seq<(Seq<char>, u64)>)>
    decreases s.len(),
{
    if s.len() == 0 {
        Seq::empty()
    } else {
        let r = affected(s.drop_last(), n);
        if has_key(s.last().1, n) {
            r.push((s.last().0, strip(s.last().1, n)))
        } else {
            r
        }
    }
}

/// The entry view of a list of (channel name, member snapshot) pairs.
pub open spec fn snaps_entries(
    v: Seq<(String, Vec<(String, u64)>)>,
) -> Seq<(Seq<char>, Seq<(Seq<char>, u64)>)> {
    v.map_values(|p: (String, Vec<(String, u64)>)| (p.0@, pair_entries(p.1@)))
}

pub proof fn lemma_quit_push(
    s: Seq<(Seq<char>, Seq<(Seq<char>, u64)>)>,
    p: (Seq<char>, Seq<(Seq<char>, u64)>),
    n: Seq<char>,
)
    ensures
        strip(p.1, n).len() == 0 ==> quit_gentries(s.push(p), n) == quit_gentries(s, n),
        strip(p.1, n).len() > 0 ==> quit_gentries(s.push(p), n) == quit_gentries(s, n).push(
            (p.0, strip(p.1, n)),
        ),
        has_key(p.1, n) ==> affected(s.push(p), n) == affected(s, n).push((p.0, strip(p.1, n))),
        !has_key(p.1, n) ==> affected(s.push(p), n) == affected(s, n),
{
    assert(s.push(p).drop_last() =~= s);
    assert(s.push(p).last() == p);
}

/// What the QUIT sweep does to the denoted channel map.
pub proof fn lemma_quit_map(s: Seq<(Seq<char>, Seq<(Seq<char>, u64)>)>, n: Seq<char>)
    requires
        uniq_keys(s),
        forall|i: int| 0 <= i < s.len() ==> uniq_keys((#[trigger] s[i]).1),
    ensures
        uniq_keys(quit_gentries(s, n)),
        forall|i: int|
            0 <= i < quit_gentries(s, n).len() ==> uniq_keys((#[trigger] quit_gentries(s, n)[i]).1)
                && quit_gentries(s, n)[i].1.len() > 0,
        forall|c: Seq<char>| #[trigger]
            assoc_map(quit_gentries(s, n)).contains_key(c) <==> (assoc_map(s).contains_key(c)
                && strip(assoc_map(s)[c], n).len() > 0),
        forall|c: Seq<char>| #[trigger]
            assoc_map(quit_gentries(s, n)).contains_key(c) ==> assoc_map(quit_gentries(s, n))[c]
                == strip(assoc_map(s)[c], n),
    decreases s.len(),
{
    lemma_assoc_dom(s);
    lemma_assoc_dom(quit_gentries(s, n));
    if s.len() == 0 {
    } else {
        let d = s.drop_last();
        let p = s.last();
        let q = quit_gentries(s, n);
        let qd = quit_gentries(d, n);
        assert forall|i2: int, j2: int| 0 <= i2 < j2 < d.len() implies (#[trigger] d[i2]).0
            != (#[trigger] d[j2]).0 by {
            assert(d[i2] == s[i2] && d[j2] == s[j2]);
        }
        assert forall|i: int| 0 <= i < d.len() implies uniq_keys((#[trigger] d[i]).1) by {
            assert(d[i] == s[i]);
        }
        lemma_quit_map(d, n);
        lemma_assoc_dom(d);
        lemma_assoc_dom(qd);
        assert(uniq_keys(p.1)) by {
            assert(s[s.len() - 1] == p);
        }
        lemma_assoc_strip(p.1, n);
        assert(!has_key(d, p.0)) by {
            if has_key(d, p.0) {
                let w = choose|w: int| 0 <= w < d.len() && (#[trigger] d[w]).0 == p.0;
                assert(s[w].0 == s[s.len() - 1].0);
            }
        }
        assert(assoc_map(s) == assoc_map(d).insert(p.0, p.1));
        let m = strip(p.1, n);
        if m.len() == 0 {
            assert(q == qd);
            assert forall|c: Seq<char>| #[trigger] assoc_map(q).contains_key(c) <==> (assoc_map(
                s,
            ).contains_key(c) && strip(assoc_map(s)[c], n).len() > 0) by {
                if c == p.0 {
                    assert(!assoc_map(qd).contains_key(p.0));
                } else {
                    assert(assoc_map(s).contains_key(c) == assoc_map(d).contains_key(c));
                }
            }
            assert forall|c: Seq<char>| #[trigger] assoc_map(q).contains_key(c) implies assoc_map(
                q,
            )[c] == strip(assoc_map(s)[c], n) by {
                assert(c != p.0);
            }
        } else {
            lemma_quit_push(d, p, n);
            assert(s =~= d.push(p));
            assert(q == qd.push((p.0, m)));
            assert(!has_key(qd, p.0)) by {
                if has_key(qd, p.0) {
                    assert(assoc_map(qd).contains_key(p.0));
                    assert(assoc_map(d).contains_key(p.0));
                }
            }
            lemma_has_key_push(qd, (p.0, m));
            lemma_assoc_push(qd, (p.0, m));
            assert forall|i2: int, j2: int| 0 <= i2 < j2 < q.len() implies (#[trigger] q[i2]).0
                != (#[trigger] q[j2]).0 by {
                if j2 == q.len() - 1 {
                    assert(q[i2] == qd[i2]);
                    if q[i2].0 == p.0 {
                        assert(has_key(qd, p.0));
                    }
                } else {
                    assert(q[i2] == qd[i2] && q[j2] == qd[j2]);
                }
            }
            assert forall|c: Seq<char>| #[trigger] assoc_map(q).contains_key(c) <==> (assoc_map(
                s,
            ).contains_key(c) && strip(assoc_map(s)[c], n).len() > 0) by {
                if c != p.0 {
                    assert(assoc_map(q).contains_key(c) == assoc_map(qd).contains_key(c));
                    assert(assoc_map(s).contains_key(c) == assoc_map(d).contains_key(c));
                }
            }
            assert forall|c: Seq<char>| #[trigger] assoc_map(q).contains_key(c) implies assoc_map(
                q,
            )[c] == strip(assoc_map(s)[c], n) by {
                if c != p.0 {
                    assert(assoc_map(q)[c] == assoc_map(qd)[c]);
                    assert(assoc_map(s)[c] == assoc_map(d)[c]);
                }
            }
        }
        assert forall|i: int| 0 <= i < q.len() implies uniq_keys((#[trigger] q[i]).1) && q[i].1.len()
            > 0 by {
            if m.len() > 0 && i == q.len() - 1 {
            } else {
                assert(q[i] == qd[i]);
            }
        }
    }
}

/// The entry view of an owned pair list: each `String` key as its `Seq<char>`.
pub open spec fn pair_entries(s: Seq<(String, u64)>) -> Seq<(Seq<char>, u64)> {
    s.map_values(|p: (String, u64)| (p.0@, p.1))
}

/// One channel's member list: nick to sink, in join order.
pub struct Members {
    items: Vec<(String, u64)>,
}

impl Members {
    /// The ordered (nick, sink) entries.
    pub closed spec fn entries(&self) -> Seq<(Seq<char>, u64)> {
        pair_entries(self.items@)
    }

    /// A member nick appears at most once.
    pub open spec fn wf(&self) -> bool {
        uniq_keys(self.entries())
    }

    pub fn new() -> (r: Members)
        ensures
            r.entries() == Seq::<(Seq<char>, u64)>::empty(),
            r@ == Map::<Seq<char>, u64>::empty(),
            r.wf(),
    {
        let r = Members { items: Vec::new() };
        proof {
            assert(r.entries() =~= Seq::<(Seq<char>, u64)>::empty());
        }
        r
    }

    pub fn len(&self) -> (n: usize)
        ensures
            n == self.entries().len(),
    {
        self.items.len()
    }

    #[verifier::loop_isolation(false)]
    pub fn contains(&self, nick: &String) -> (r: bool)
        ensures
            r == has_key(self.entries(), nick@),
            r == self@.contains_key(nick@),
    {
        proof {
            lemma_assoc_dom(self.entries());
        }
        let mut j: usize = 0;
        while j < self.items.len()
            invariant
                j <= self.items.len(),
                forall|i: int| 0 <= i < j ==> (#[trigger] self.entries()[i]).0 != nick@,
            decreases self.items.len() - j,
        {
            if str_eq(&self.items[j].0, nick) {
                proof {
                    assert(self.entries()[j as int].0 == nick@);
                }
                return true;
            }
            j += 1;
        }
        false
    }

    /// Insert the member, replacing the sink if the nick is already present
    /// (a repeated JOIN is idempotent on membership).
    #[verifier::loop_isolation(false)]
    pub fn insert(&mut self, nick: String, sink: u64)
        requires
            old(self).wf(),
        ensures
            final(self).wf(),
            final(self)@ == old(self)@.insert(nick@, sink),
            has_key(old(self).entries(), nick@) ==> final(self).entries() == set_val(
                old(self).entries(),
                nick@,
                sink,
            ),
            !has_key(old(self).entries(), nick@) ==> final(self).entries() == old(
                self,
            ).entries().push((nick@, sink)),
    {
        let ghost orig = self.entries();
        let mut j: usize = 0;
        while j < self.items.len()
            invariant
                j <= self.items.len(),
                self == old(self),
                forall|i: int| 0 <= i < j ==> (#[trigger] self.entries()[i]).0 != nick@,
            decreases self.items.len() - j,
        {
            if str_eq(&self.items[j].0, &nick) {
                proof {
                    assert(orig[j as int].0 == nick@);
                }
                let mut pair = self.items.remove(j);
                pair.1 = sink;
                self.items.insert(j, pair);
                proof {
                    lemma_assoc_set_val(orig, j as int, sink);
                    assert(self.entries() =~= orig.update(j as int, (nick@, sink)));
                    assert(self.entries() == set_val(orig, nick@, sink));
                }
                return ;
            }
            j += 1;
        }
        self.items.push((nick, sink));
        proof {
            assert(self.entries() =~= orig.push((nick@, sink)));
            lemma_assoc_push(orig, (nick@, sink));
            lemma_has_key_push(orig, (nick@, sink));
            assert forall|i2: int, j2: int|
                0 <= i2 < j2 < self.entries().len() implies (#[trigger] self.entries()[i2]).0
                != (#[trigger] self.entries()[j2]).0 by {
                if j2 == self.entries().len() - 1 {
                    assert(self.entries()[i2] == orig[i2]);
                }
            }
        }
    }

    /// Remove the member if present; says whether it was.
    #[verifier::loop_isolation(false)]
    pub fn remove(&mut self, nick: &String) -> (was: bool)
        requires
            old(self).wf(),
        ensures
            final(self).wf(),
            was == has_key(old(self).entries(), nick@),
            final(self).entries() == strip(old(self).entries(), nick@),
            final(self)@ == old(self)@.remove(nick@),
    {
        let ghost orig = self.entries();
        let mut kept: Vec<(String, u64)> = Vec::new();
        let mut was = false;
        let mut j: usize = 0;
        while j < self.items.len()
            invariant
                j <= self.items.len(),
                self == old(self),
                orig == self.entries(),
                pair_entries(kept@) == strip(orig.take(j as int), nick@),
                was == has_key(orig.take(j as int), nick@),
            decreases self.items.len() - j,
        {
            let ghost prefix = orig.take(j as int);
            proof {
                assert(orig.take(j as int + 1) =~= prefix.push(orig[j as int]));
                lemma_strip_push(prefix, orig[j as int], nick@);
                lemma_has_key_push(prefix, orig[j as int]);
            }
            if str_eq(&self.items[j].0, nick) {
                was = true;
                proof {
                    assert(orig[j as int].0 == nick@);
                }
            } else {
                kept.push((self.items[j].0.clone(), self.items[j].1));
                proof {
                    assert(orig[j as int].0 != nick@);
                    assert(pair_entries(kept@) =~= strip(prefix, nick@).push(orig[j as int]));
                }
            }
            j += 1;
        }
        proof {
            assert(orig.take(orig.len() as int) =~= orig);
            lemma_assoc_strip(orig, nick@);
        }
        self.items = kept;
        was
    }

    /// A point-in-time copy of the member list, for fan-out after the
    /// registry lock is released.
    #[verifier::loop_isolation(false)]
    pub fn snapshot(&self) -> (r: Vec<(String, u64)>)
        ensures
            pair_entries(r@) == self.entries(),
    {
        let mut r: Vec<(String, u64)> = Vec::new();
        let mut j: usize = 0;
        while j < self.items.len()
            invariant
                j <= self.items.len(),
                pair_entries(r@) == self.entries().take(j as int),
            decreases self.items.len() - j,
        {
            r.push((self.items[j].0.clone(), self.items[j].1));
            proof {
                assert(pair_entries(r@) =~= self.entries().take(j as int + 1));
            }
            j += 1;
        }
        proof {
            assert(self.entries().take(self.entries().len() as int) =~= self.entries());
        }
        r
    }
}

impl View for Members {
    type V = Map<Seq<char>, u64>;

    open spec fn view(&self) -> Map<Seq<char>, u64> {
        assoc_map(self.entries())
    }
}



/// The member list after a JOIN: the sink is replaced if the nick is
/// already a member, else the member is appended.
pub open spec fn join_members(
    old_m: Seq<(Seq<char>, u64)>,
    nick: Seq<char>,
    sink: u64,
) -> Seq<(Seq<char>, u64)> {
    if has_key(old_m, nick) {
        set_val(old_m, nick, sink)
    } else {
        old_m.push((nick, sink))
    }
}

/// What a JOIN does to the channel map.
pub open spec fn join_effect(
    m: Map<Seq<char>, Seq<(Seq<char>, u64)>>,
    ch: Seq<char>,
    nick: Seq<char>,
    sink: u64,
) -> Map<Seq<char>, Seq<(Seq<char>, u64)>> {
    let old_m = if m.contains_key(ch) {
        m[ch]
    } else {
        Seq::<(Seq<char>, u64)>::empty()
    };
    m.insert(ch, join_members(old_m, nick, sink))
}

/// What a PART does to the channel map: nothing unless the channel exists
/// and the nick is a member; a channel left empty is deleted.
pub open spec fn part_effect(
    m: Map<Seq<char>, Seq<(Seq<char>, u64)>>,
    ch: Seq<char>,
    nick: Seq<char>,
) -> Map<Seq<char>, Seq<(Seq<char>, u64)>> {
    if m.contains_key(ch) && has_key(m[ch], nick) {
        let m2 = strip(m[ch], nick);
        if m2.len() == 0 {
            m.remove(ch)
        } else {
            m.insert(ch, m2)
        }
    } else {
        m
    }
}

/// What a QUIT sweep does to the channel map: the nick leaves every member
/// list, and channels left empty are deleted.
pub open spec fn quit_effect(
    m: Map<Seq<char>, Seq<(Seq<char>, u64)>>,
    nick: Seq<char>,
) -> Map<Seq<char>, Seq<(Seq<char>, u64)>> {
    Map::new(
        |c: Seq<char>| m.contains_key(c) && strip(m[c], nick).len() > 0,
        |c: Seq<char>| strip(m[c], nick),
    )
}

/// The channels registry: channel name to member list, in creation order.
///
/// A channel entry exists only while its member list is non-empty; the
/// mutating operations below delete entries they empty.
pub struct Channels {
    items: Vec<(String, Members)>,
}

impl Channels {
    /// The ordered (channel name, member entries) list.
    pub closed spec fn gentries(&self) -> Seq<(Seq<char>, Seq<(Seq<char>, u64)>)> {
        chan_entries(self.items@)
    }

    /// Channel names unique; member nicks unique per channel; no empty channel.
    pub open spec fn wf(&self) -> bool {
        &&& uniq_keys(self.gentries())
        &&& forall|i: int|
            0 <= i < self.gentries().len() ==> uniq_keys((#[trigger] self.gentries()[i]).1)
        &&& forall|i: int| 0 <= i < self.gentries().len() ==> (#[trigger] self.gentries()[i]).1.len() > 0
    }

    pub fn new() -> (r: Channels)
        ensures
            r.gentries() == Seq::<(Seq<char>, Seq<(Seq<char>, u64)>)>::empty(),
            r@ == Map::<Seq<char>, Seq<(Seq<char>, u64)>>::empty(),
            r.wf(),
    {
        let r = Channels { items: Vec::new() };
        proof {
            assert(r.gentries() =~= Seq::<(Seq<char>, Seq<(Seq<char>, u64)>)>::empty());
        }
        r
    }

    #[verifier::loop_isolation(false)]
    pub fn contains(&self, ch: &String) -> (r: bool)
        ensures
            r == self@.contains_key(ch@),
    {
        proof {
            lemma_assoc_dom(self.gentries());
        }
        let mut j: usize = 0;
        while j < self.items.len()
            invariant
                j <= self.items.len(),
                forall|i: int| 0 <= i < j ==> (#[trigger] self.gentries()[i]).0 != ch@,
            decreases self.items.len() - j,
        {
            if str_eq(&self.items[j].0, ch) {
                proof {
                    assert(self.gentries()[j as int].0 == ch@);
                }
                return true;
            }
            j += 1;
        }
        false
    }

    /// A point-in-time copy of a channel's member list, if the channel
    /// exists: the recipients of a channel PRIVMSG, taken under the lock
    /// and used after it is released.
    #[verifier::loop_isolation(false)]
    pub fn members_snapshot(&self, ch: &String) -> (r: Option<Vec<(String, u64)>>)
        requires
            self.wf(),
        ensures
            match r {
                Some(snap) => self@.contains_key(ch@) && pair_entries(snap@) == self@[ch@],
                None => !self@.contains_key(ch@),
            },
    {
        proof {
            lemma_assoc_dom(self.gentries());
        }
        let mut j: usize = 0;
        while j < self.items.len()
            invariant
                j <= self.items.len(),
                forall|i: int| 0 <= i < j ==> (#[trigger] self.gentries()[i]).0 != ch@,
            decreases self.items.len() - j,
        {
            if str_eq(&self.items[j].0, ch) {
                proof {
                    assert(self.gentries()[j as int].0 == ch@);
                    lemma_assoc_index(self.gentries(), j as int);
                }
                return Some(self.items[j].1.snapshot());
            }
            j += 1;
        }
        None
    }

    /// Insert the member into the channel, creating the channel if it is
    /// absent, and return a snapshot of the full member list after the
    /// insert: the recipients of the Join fan-out.
    #[verifier::loop_isolation(false)]
    pub fn join(&mut self, ch: &String, nick: String, sink: u64) -> (snap: Vec<(String, u64)>)
        requires
            old(self).wf(),
        ensures
            final(self).wf(),
            final(self)@.contains_key(ch@),
            pair_entries(snap@) == final(self)@[ch@],
            final(self)@ == join_effect(old(self)@, ch@, nick@, sink),
    {
        let ghost orig = self.gentries();
        proof {
            lemma_assoc_dom(orig);
        }
        let mut j: usize = 0;
        while j < self.items.len()
            invariant
                j <= self.items.len(),
                self == old(self),
                forall|i: int| 0 <= i < j ==> (#[trigger] orig[i]).0 != ch@,
            decreases self.items.len() - j,
        {
            if str_eq(&self.items[j].0, ch) {
                proof {
                    assert(orig[j as int].0 == ch@);
                    lemma_assoc_index(orig, j as int);
                }
                let mut pair = self.items.remove(j);
                pair.1.insert(nick, sink);
                let snap = pair.1.snapshot();
                let ghost new_m = pair.1.entries();
                self.items.insert(j, pair);
                proof {
                    assert(self.gentries() =~= orig.update(j as int, (ch@, new_m)));
                    lemma_assoc_set_val(orig, j as int, new_m);
                    assert(set_val(orig, ch@, new_m) == orig.update(j as int, (ch@, new_m)));
                    lemma_assoc_dom(self.gentries());
                    lemma_assoc_index(self.gentries(), j as int);
                    assert forall|i: int|
                        0 <= i < self.gentries().len() implies uniq_keys(
                        (#[trigger] self.gentries()[i]).1,
                    ) && self.gentries()[i].1.len() > 0 by {
                        if i != j {
                            assert(self.gentries()[i] == orig[i]);
                        }
                    }
                }
                return snap;
            }
            j += 1;
        }
        let mut m = Members::new();
        m.insert(nick, sink);
        let snap = m.snapshot();
        let ghost new_m = m.entries();
        self.items.push((ch.clone(), m));
        proof {
            assert(!has_key(orig, ch@));
            assert(self.gentries() =~= orig.push((ch@, new_m)));
            lemma_assoc_push(orig, (ch@, new_m));
            lemma_has_key_push(orig, (ch@, new_m));
            lemma_assoc_dom(self.gentries());
            lemma_assoc_index(self.gentries(), orig.len() as int);
            assert(new_m == Seq::<(Seq<char>, u64)>::empty().push((nick@, sink)));
            assert forall|i2: int, j2: int|
                0 <= i2 < j2 < self.gentries().len() implies (#[trigger] self.gentries()[i2]).0
                != (#[trigger] self.gentries()[j2]).0 by {
                if j2 == self.gentries().len() - 1 {
                    assert(self.gentries()[i2] == orig[i2]);
                }
            }
            assert forall|i: int|
                0 <= i < self.gentries().len() implies uniq_keys(
                (#[trigger] self.gentries()[i]).1,
            ) && self.gentries()[i].1.len() > 0 by {
                if i < orig.len() {
                    assert(self.gentries()[i] == orig[i]);
                }
            }
        }
        snap
    }

    /// Remove the member from the channel if both exist; say whether they
    /// did, and return the members that remain: the recipients of the Part
    /// fan-out. A channel left empty is deleted.
    #[verifier::loop_isolation(false)]
    pub fn part(&mut self, ch: &String, nick: &String) -> (r: (bool, Vec<(String, u64)>))
        requires
            old(self).wf(),
        ensures
            final(self).wf(),
            r.0 == (old(self)@.contains_key(ch@) && has_key(old(self)@[ch@], nick@)),
            final(self)@ == part_effect(old(self)@, ch@, nick@),
            !r.0 ==> r.1@.len() == 0,
            r.0 ==> pair_entries(r.1@) == strip(old(self)@[ch@], nick@),
    {
        let ghost orig = self.gentries();
        proof {
            lemma_assoc_dom(orig);
        }
        let mut j: usize = 0;
        while j < self.items.len()
            invariant
                j <= self.items.len(),
                self == old(self),
                forall|i: int| 0 <= i < j ==> (#[trigger] orig[i]).0 != ch@,
            decreases self.items.len() - j,
        {
            if str_eq(&self.items[j].0, ch) {
                proof {
                    assert(orig[j as int].0 == ch@);
                    lemma_assoc_index(orig, j as int);
                }
                let mut pair = self.items.remove(j);
                let was = pair.1.remove(nick);
                let ghost m2 = pair.1.entries();
                if !was {
                    proof {
                        lemma_strip_absent(orig[j as int].1, nick@);
                    }
                    self.items.insert(j, pair);
                    proof {
                        assert(self.gentries() =~= orig);
                    }
                    return (false, Vec::new());
                }
                let snap = pair.1.snapshot();
                if pair.1.len() > 0 {
                    self.items.insert(j, pair);
                    proof {
                        assert(self.gentries() =~= orig.update(j as int, (ch@, m2)));
                        lemma_assoc_set_val(orig, j as int, m2);
                        assert(set_val(orig, ch@, m2) == orig.update(j as int, (ch@, m2)));
                        lemma_assoc_strip(orig[j as int].1, nick@);
                        assert forall|i: int|
                            0 <= i < self.gentries().len() implies uniq_keys(
                            (#[trigger] self.gentries()[i]).1,
                        ) && self.gentries()[i].1.len() > 0 by {
                            if i != j {
                                assert(self.gentries()[i] == orig[i]);
                            }
                        }
                    }
                    return (true, snap);
                }
                proof {
                    assert(self.gentries() =~= orig.remove(j as int));
                    lemma_strip_at(orig, j as int, ch@);
                    lemma_assoc_strip(orig, ch@);
                    lemma_assoc_strip(orig[j as int].1, nick@);
                    assert forall|i: int|
                        0 <= i < self.gentries().len() implies uniq_keys(
                        (#[trigger] self.gentries()[i]).1,
                    ) && self.gentries()[i].1.len() > 0 by {
                        if i < j {
                            assert(self.gentries()[i] == orig[i]);
                        } else {
                            assert(self.gentries()[i] == orig[i + 1]);
                        }
                    }
                    assert forall|i2: int, j2: int|
                        0 <= i2 < j2 < self.gentries().len() implies (
                        #[trigger] self.gentries()[i2]).0 != (#[trigger] self.gentries()[j2]).0 by {
                        assert(self.gentries() == strip(orig, ch@));
                    }
                }
                return (true, snap);
            }
            j += 1;
        }
        (false, Vec::new())
    }

    /// Remove the nick from every channel that holds it, deleting channels
    /// that become empty, and return, per affected channel, a snapshot of
    /// the members that remain: the recipients of the Quit fan-out.
    #[verifier::loop_isolation(false)]
    pub fn remove_member_everywhere(&mut self, nick: &String) -> (snaps: Vec<
        (String, Vec<(String, u64)>),
    >)
        requires
            old(self).wf(),
        ensures
            final(self).wf(),
            snaps_entries(snaps@) == affected(old(self).gentries(), nick@),
            final(self).gentries() == quit_gentries(old(self).gentries(), nick@),
            final(self)@ == quit_effect(old(self)@, nick@),
            forall|c: Seq<char>| #[trigger]
                final(self)@.contains_key(c) <==> (old(self)@.contains_key(c) && strip(
                    old(self)@[c],
                    nick@,
                ).len() > 0),
            forall|c: Seq<char>| #[trigger]
                final(self)@.contains_key(c) ==> final(self)@[c] == strip(old(self)@[c], nick@),
            forall|c: Seq<char>| #[trigger]
                final(self)@.contains_key(c) ==> !has_key(final(self)@[c], nick@),
    {
        let ghost orig = self.gentries();
        let n = self.items.len();
        let mut kept: Vec<(String, Members)> = Vec::new();
        let mut snaps: Vec<(String, Vec<(String, u64)>)> = Vec::new();
        let mut j: usize = 0;
        while j < n
            invariant
                j <= n,
                self.items@.len() == n - j,
                self.gentries() == orig.skip(j as int),
                chan_entries(kept@) == quit_gentries(orig.take(j as int), nick@),
                snaps_entries(snaps@) == affected(orig.take(j as int), nick@),
            decreases n - j,
        {
            let ghost prefix = orig.take(j as int);
            proof {
                assert(orig.take(j as int + 1) =~= prefix.push(orig[j as int]));
                lemma_quit_push(prefix, orig[j as int], nick@);
                assert(self.gentries()[0] == orig[j as int]);
            }
            let ghost items_before = self.items@;
            let mut pair = self.items.remove(0);
            proof {
                assert(self.items@ =~= items_before.skip(1));
                assert(pair.1.entries() == orig[j as int].1);
                assert(uniq_keys(pair.1.entries()));
            }
            let was = pair.1.remove(nick);
            let ghost m2 = pair.1.entries();
            if was {
                let snap = pair.1.snapshot();
                snaps.push((pair.0.clone(), snap));
                proof {
                    assert(snaps_entries(snaps@) =~= affected(prefix, nick@).push(
                        (orig[j as int].0, m2),
                    ));
                }
                if pair.1.len() > 0 {
                    kept.push(pair);
                    proof {
                        assert(chan_entries(kept@) =~= quit_gentries(prefix, nick@).push(
                            (orig[j as int].0, m2),
                        ));
                    }
                }
            } else {
                proof {
                    lemma_strip_absent(orig[j as int].1, nick@);
                }
                kept.push(pair);
                proof {
                    assert(chan_entries(kept@) =~= quit_gentries(prefix, nick@).push(
                        (orig[j as int].0, m2),
                    ));
                }
            }
            j += 1;
            proof {
                assert forall|i: int| 0 <= i < self.gentries().len() implies self.gentries()[i]
                    == orig.skip(j as int)[i] by {
                    assert(self.items@[i] == items_before[i + 1]);
                    assert(chan_entries(items_before)[i + 1] == orig.skip(j as int - 1)[i + 1]);
                }
                assert(self.gentries() =~= orig.skip(j as int));
            }
        }
        proof {
            assert(orig.take(n as int) =~= orig);
        }
        self.items = kept;
        proof {
            lemma_quit_map(orig, nick@);
            lemma_assoc_dom(orig);
            assert forall|c: Seq<char>| #[trigger] self@.contains_key(c) implies !has_key(
                self@[c],
                nick@,
            ) by {
                assert(assoc_map(orig).contains_key(c));
                let i = choose|i: int| 0 <= i < orig.len() && (#[trigger] orig[i]).0 == c;
                lemma_assoc_index(orig, i);
                lemma_assoc_strip(orig[i].1, nick@);
            }
            assert(self@ =~= quit_effect(assoc_map(orig), nick@));
        }
        snaps
    }
}

impl View for Channels {
    type V = Map<Seq<char>, Seq<(Seq<char>, u64)>>;

    open spec fn view(&self) -> Map<Seq<char>, Seq<(Seq<char>, u64)>> {
        assoc_map(self.gentries())
    }
}

/// The clients registry: each nick that a live session has claimed, with
/// that session's outbound sink handle.
pub struct Clients {
    map: StringHashMap<u64>,
}

impl Clients {
    pub fn new() -> (r: Clients)
        ensures
            r@ == Map::<Seq<char>, u64>::empty(),
    {
        Clients { map: StringHashMap::new() }
    }

    pub fn contains(&self, nick: &String) -> (r: bool)
        ensures
            r == self@.contains_key(nick@),
    {
        self.map.contains_key(nick.as_str())
    }

    /// Claim the nick for the given sink; fails iff the nick is taken.
    pub fn try_claim(&mut self, nick: String, sink: u64) -> (claimed: bool)
        ensures
            claimed == !old(self)@.contains_key(nick@),
            claimed ==> final(self)@ == old(self)@.insert(nick@, sink),
            !claimed ==> final(self)@ == old(self)@,
    {
        if self.map.contains_key(nick.as_str()) {
            false
        } else {
            self.map.insert(nick, sink);
            true
        }
    }

    /// Release the nick; does nothing if it is not present.
    pub fn release(&mut self, nick: &String)
        ensures
            final(self)@ == old(self)@.remove(nick@),
    {
        self.map.remove(nick.as_str());
    }

    /// The sink that the nick is registered with, if any.
    pub fn lookup(&self, nick: &String) -> (r: Option<u64>)
        ensures
            match r {
                Some(sink) => self@.contains_key(nick@) && self@[nick@] == sink,
                None => !self@.contains_key(nick@),
            },
    {
        match self.map.get(nick.as_str()) {
            Some(sink) => Some(*sink),
            None => None,
        }
    }
}

impl View for Clients {
    type V = Map<Seq<char>, u64>;

    closed spec fn view(&self) -> Map<Seq<char>, u64> {
        self.map@
    }
}

} // verus!
