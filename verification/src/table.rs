//! Small keyed tables.
//!
//! An account keeps two keyed collections: the applied transactions and the
//! open disputes, each mapping a transaction identifier to an amount. They
//! are stored as vectors of pairs with pairwise-distinct keys, and their
//! contracts speak about the finite map the pairs denote.

use vstd::prelude::*;

verus! {

/// No two entries share a key.
pub open spec fn keys_unique(s: Seq<(u32, i128)>) -> bool {
    forall|i: int, j: int| 0 <= i < j < s.len() ==> (#[trigger] s[i]).0 != (#[trigger] s[j]).0
}

/// The finite map denoted by a sequence of key-value pairs; a later entry
/// wins, though with distinct keys the order never matters.
pub open spec fn map_of(s: Seq<(u32, i128)>) -> Map<u32, int>
    decreases s.len(),
{
    if s.len() == 0 {
        Map::empty()
    } else {
        map_of(s.drop_last()).insert(s.last().0, s.last().1 as int)
    }
}

pub proof fn lemma_map_of_contains(s: Seq<(u32, i128)>, k: u32)
    ensures
        map_of(s).contains_key(k) <==> exists|i: int| 0 <= i < s.len() && (#[trigger] s[i]).0 == k,
    decreases s.len(),
{
    if s.len() > 0 {
        lemma_map_of_contains(s.drop_last(), k);
        if s.last().0 == k {
            assert(s[s.len() - 1].0 == k);
        } else if map_of(s).contains_key(k) {
            let i = choose|i: int| 0 <= i < s.drop_last().len() && (#[trigger] s.drop_last()[i]).0 == k;
            assert(s[i].0 == k);
        } else {
            assert forall|i: int| 0 <= i < s.len() implies (#[trigger] s[i]).0 != k by {
                if i < s.len() - 1 {
                    assert(s.drop_last()[i].0 != k);
                }
            }
        }
    }
}

pub proof fn lemma_map_of_get(s: Seq<(u32, i128)>, i: int)
    requires
        keys_unique(s),
        0 <= i < s.len(),
    ensures
        map_of(s).contains_key(s[i].0),
        map_of(s)[s[i].0] == s[i].1 as int,
    decreases s.len(),
{
    if i == s.len() - 1 {
    } else {
        assert(keys_unique(s.drop_last())) by {
            assert forall|a: int, b: int| 0 <= a < b < s.drop_last().len()
                implies (#[trigger] s.drop_last()[a]).0 != (#[trigger] s.drop_last()[b]).0 by {
                assert(s[a].0 != s[b].0);
            }
        }
        assert(s.drop_last()[i] == s[i]);
        lemma_map_of_get(s.drop_last(), i);
        assert(s[i].0 != s.last().0);
    }
}

proof fn lemma_keys_unique_drop_last(s: Seq<(u32, i128)>)
    requires
        keys_unique(s),
        s.len() > 0,
    ensures
        keys_unique(s.drop_last()),
{
    assert forall|a: int, b: int| 0 <= a < b < s.drop_last().len()
        implies (#[trigger] s.drop_last()[a]).0 != (#[trigger] s.drop_last()[b]).0 by {
        assert(s[a].0 != s[b].0);
    }
}

proof fn lemma_map_of_update(s: Seq<(u32, i128)>, i: int, v: i128)
    requires
        keys_unique(s),
        0 <= i < s.len(),
    ensures
        map_of(s.update(i, (s[i].0, v))) == map_of(s).insert(s[i].0, v as int),
        keys_unique(s.update(i, (s[i].0, v))),
    decreases s.len(),
{
    let t = s.update(i, (s[i].0, v));
    assert(keys_unique(t)) by {
        assert forall|a: int, b: int| 0 <= a < b < t.len()
            implies (#[trigger] t[a]).0 != (#[trigger] t[b]).0 by {
            assert(t[a].0 == s[a].0 && t[b].0 == s[b].0);
        }
    }
    if i == s.len() - 1 {
        assert(t.drop_last() =~= s.drop_last());
        assert(map_of(t) == map_of(s.drop_last()).insert(s[i].0, v as int));
        assert(map_of(s).insert(s[i].0, v as int)
            =~= map_of(s.drop_last()).insert(s[i].0, v as int));
    } else {
        lemma_keys_unique_drop_last(s);
        assert(t.drop_last() =~= s.drop_last().update(i, (s[i].0, v)));
        assert(s.drop_last()[i] == s[i]);
        lemma_map_of_update(s.drop_last(), i, v);
        assert(t.last() == s.last());
        assert(map_of(t) == map_of(s.drop_last()).insert(s[i].0, v as int).insert(
            s.last().0,
            s.last().1 as int,
        ));
        assert(s[i].0 != s.last().0);
        assert(map_of(s.drop_last()).insert(s[i].0, v as int).insert(s.last().0, s.last().1 as int)
            =~= map_of(s.drop_last()).insert(s.last().0, s.last().1 as int).insert(
            s[i].0,
            v as int,
        ));
    }
}

proof fn lemma_map_of_remove(s: Seq<(u32, i128)>, i: int)
    requires
        keys_unique(s),
        0 <= i < s.len(),
    ensures
        map_of(s.remove(i)) == map_of(s).remove(s[i].0),
        keys_unique(s.remove(i)),
    decreases s.len(),
{
    let t = s.remove(i);
    assert(keys_unique(t)) by {
        assert forall|a: int, b: int| 0 <= a < b < t.len()
            implies (#[trigger] t[a]).0 != (#[trigger] t[b]).0 by {
            let a0 = if a < i { a } else { a + 1 };
            let b0 = if b < i { b } else { b + 1 };
            assert(t[a] == s[a0] && t[b] == s[b0]);
            assert(s[a0].0 != s[b0].0);
        }
    }
    if i == s.len() - 1 {
        assert(t =~= s.drop_last());
        lemma_keys_unique_drop_last(s);
        lemma_map_of_contains(s.drop_last(), s[i].0);
        assert(forall|j: int| 0 <= j < s.drop_last().len()
            ==> (#[trigger] s.drop_last()[j]).0 != s[i].0);
        assert(!map_of(s.drop_last()).contains_key(s[i].0));
        assert(map_of(s).remove(s[i].0)
            =~= map_of(s.drop_last()).insert(s[i].0, s[i].1 as int).remove(s[i].0));
        assert(map_of(s.drop_last()).insert(s[i].0, s[i].1 as int).remove(s[i].0)
            =~= map_of(s.drop_last()));
    } else {
        lemma_keys_unique_drop_last(s);
        assert(t.drop_last() =~= s.drop_last().remove(i));
        assert(s.drop_last()[i] == s[i]);
        lemma_map_of_remove(s.drop_last(), i);
        assert(t.last() == s.last());
        assert(map_of(t) == map_of(s.drop_last()).remove(s[i].0).insert(
            s.last().0,
            s.last().1 as int,
        ));
        assert(s[i].0 != s.last().0);
        assert(map_of(s.drop_last()).remove(s[i].0).insert(s.last().0, s.last().1 as int)
            =~= map_of(s.drop_last()).insert(s.last().0, s.last().1 as int).remove(s[i].0));
    }
}

/// Looks a key up; the answer is what the denoted map holds for it.
pub fn table_get(t: &Vec<(u32, i128)>, key: u32) -> (r: Option<i128>)
    requires
        keys_unique(t@),
    ensures
        match r {
            Option::Some(v) => map_of(t@).contains_key(key) && map_of(t@)[key] == v as int,
            Option::None => !map_of(t@).contains_key(key),
        },
{
    let n: usize = t.len();
    let mut i: usize = 0;
    while i < n
        invariant
            n == t@.len(),
            i <= n,
            keys_unique(t@),
            forall|j: int| 0 <= j < i ==> (#[trigger] t@[j]).0 != key,
        decreases n - i,
    {
        let (k, v): (u32, i128) = t[i];
        if k == key {
            proof {
                lemma_map_of_get(t@, i as int);
            }
            return Option::Some(v);
        }
        i = i + 1;
    }
    proof {
        lemma_map_of_contains(t@, key);
    }
    Option::None
}

/// Whether the denoted map holds the key.
pub fn table_contains(t: &Vec<(u32, i128)>, key: u32) -> (r: bool)
    requires
        keys_unique(t@),
    ensures
        r == map_of(t@).contains_key(key),
{
    match table_get(t, key) {
        Option::Some(_) => true,
        Option::None => false,
    }
}

/// Sets the key to the value: the denoted map gains or replaces the entry.
pub fn table_set(t: &mut Vec<(u32, i128)>, key: u32, val: i128)
    requires
        keys_unique(old(t)@),
    ensures
        keys_unique(final(t)@),
        map_of(final(t)@) == map_of(old(t)@).insert(key, val as int),
{
    let n: usize = t.len();
    let mut i: usize = 0;
    while i < n
        invariant
            n == t@.len(),
            i <= n,
            t@ == old(t)@,
            keys_unique(t@),
            forall|j: int| 0 <= j < i ==> (#[trigger] t@[j]).0 != key,
        decreases n - i,
    {
        let (k, _): (u32, i128) = t[i];
        if k == key {
            proof {
                lemma_map_of_update(t@, i as int, val);
            }
            t.set(i, (key, val));
            return ;
        }
        i = i + 1;
    }
    proof {
        let pushed = t@.push((key, val));
        assert(pushed.drop_last() =~= t@);
        assert(keys_unique(pushed)) by {
            assert forall|a: int, b: int| 0 <= a < b < pushed.len()
                implies (#[trigger] pushed[a]).0 != (#[trigger] pushed[b]).0 by {
                if b < pushed.len() - 1 {
                    assert(pushed[a] == t@[a] && pushed[b] == t@[b]);
                } else {
                    assert(pushed[a] == t@[a]);
                }
            }
        }
    }
    t.push((key, val));
}

/// Removes the key if present: the denoted map loses the entry.
pub fn table_remove(t: &mut Vec<(u32, i128)>, key: u32)
    requires
        keys_unique(old(t)@),
    ensures
        keys_unique(final(t)@),
        map_of(final(t)@) == map_of(old(t)@).remove(key),
{
    let n: usize = t.len();
    let mut i: usize = 0;
    while i < n
        invariant
            n == t@.len(),
            i <= n,
            t@ == old(t)@,
            keys_unique(t@),
            forall|j: int| 0 <= j < i ==> (#[trigger] t@[j]).0 != key,
        decreases n - i,
    {
        let (k, _): (u32, i128) = t[i];
        if k == key {
            proof {
                lemma_map_of_remove(t@, i as int);
            }
            t.remove(i);
            return ;
        }
        i = i + 1;
    }
    proof {
        lemma_map_of_contains(t@, key);
        assert(map_of(t@).remove(key) =~= map_of(t@));
    }
}

} // verus!
