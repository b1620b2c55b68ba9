//! Vectors of named entries used as maps with unique keys.
use vstd::prelude::*;

verus! {

/// Index of the last entry of `s` whose key is `k`, or -1 when there is none.
pub open spec fn key_pos<V>(s: Seq<(String, V)>, k: Seq<char>) -> int
    decreases s.len(),
{
    if s.len() == 0 {
        -1
    } else if s.last().0@ == k {
        s.len() - 1
    } else {
        key_pos(s.drop_last(), k)
    }
}

/// Whether some entry of `s` has the key `k`.
pub open spec fn has_key<V>(s: Seq<(String, V)>, k: Seq<char>) -> bool {
    exists|i: int| 0 <= i < s.len() && s[i].0@ == k
}

/// The value stored under `k`, if any.
pub open spec fn value_of<V>(s: Seq<(String, V)>, k: Seq<char>) -> Option<V> {
    if key_pos(s, k) >= 0 {
        Some(s[key_pos(s, k)].1)
    } else {
        None
    }
}

/// No two entries of `s` share a key.
pub open spec fn keys_unique<V>(s: Seq<(String, V)>) -> bool {
    forall|i: int, j: int| 0 <= i < s.len() && 0 <= j < s.len() && i != j ==> s[i].0@ != s[j].0@
}

pub proof fn lemma_key_pos<V>(s: Seq<(String, V)>, k: Seq<char>)
    ensures
        -1 <= key_pos(s, k) < s.len(),
        key_pos(s, k) >= 0 ==> s[key_pos(s, k)].0@ == k,
        key_pos(s, k) >= 0 ==> forall|j: int| key_pos(s, k) < j < s.len() ==> s[j].0@ != k,
        key_pos(s, k) == -1 <==> !has_key(s, k),
    decreases s.len(),
{
    if s.len() == 0 {
    } else if s.last().0@ == k {
        assert(s[s.len() - 1].0@ == k);
    } else {
        let t = s.drop_last();
        lemma_key_pos(t, k);
        assert forall|j: int| 0 <= j < t.len() implies t[j] == s[j] by {}
        if has_key(s, k) {
            let i = choose|i: int| 0 <= i < s.len() && s[i].0@ == k;
            assert(t[i].0@ == k);
        }
        if has_key(t, k) {
            let i = choose|i: int| 0 <= i < t.len() && t[i].0@ == k;
            assert(s[i].0@ == k);
        }
    }
}

/// In a sequence with unique keys, the entry at `i` is the one found under its key.
pub proof fn lemma_unique_pos<V>(s: Seq<(String, V)>, i: int)
    requires
        keys_unique(s),
        0 <= i < s.len(),
    ensures
        key_pos(s, s[i].0@) == i,
{
    lemma_key_pos(s, s[i].0@);
}

/// `key_pos` reads the keys alone.
pub proof fn lemma_key_pos_same_keys<V>(s: Seq<(String, V)>, t: Seq<(String, V)>, k: Seq<char>)
    requires
        s.len() == t.len(),
        forall|i: int| 0 <= i < s.len() ==> s[i].0@ == t[i].0@,
    ensures
        key_pos(s, k) == key_pos(t, k),
    decreases s.len(),
{
    if s.len() > 0 {
        assert(s.last().0@ == t.last().0@);
        lemma_key_pos_same_keys(s.drop_last(), t.drop_last(), k);
    }
}

/// Stores `x` under `k`: in place when the key is taken, after the other entries when it is new.
pub fn put_entry<V>(v: &mut Vec<(String, V)>, k: String, x: V)
    requires
        keys_unique(old(v)@),
    ensures
        keys_unique(final(v)@),
        value_of(final(v)@, k@) == Some(x),
        forall|n: Seq<char>| n != k@ ==> value_of(final(v)@, n) == value_of(old(v)@, n),
        has_key(old(v)@, k@) ==> final(v)@ == old(v)@.update(key_pos(old(v)@, k@), (k, x)),
        !has_key(old(v)@, k@) ==> final(v)@ == old(v)@.push((k, x)),
{
    proof {
        lemma_key_pos(v@, k@);
    }
    let ghost s = v@;
    match find_key(v, &k) {
        Some(i) => {
            v.set(i, (k, x));
            proof {
                lemma_key_pos_same_keys(s, v@, k@);
                assert forall|n: Seq<char>| n != k@ implies value_of(v@, n) == value_of(s, n) by {
                    lemma_key_pos_same_keys(s, v@, n);
                    lemma_key_pos(s, n);
                }
            }
        },
        None => {
            v.push((k, x));
            proof {
                assert(v@.drop_last() =~= s);
                assert forall|n: Seq<char>| n != k@ implies value_of(v@, n) == value_of(s, n) by {
                    lemma_key_pos(s, n);
                }
            }
        },
    }
}

/// Position of the last entry of `v` whose key is `k`.
pub fn find_key<V>(v: &Vec<(String, V)>, k: &String) -> (r: Option<usize>)
    ensures
        r is Some ==> r->Some_0 as int == key_pos(v@, k@),
        r is None ==> key_pos(v@, k@) == -1,
{
    proof {
        lemma_key_pos(v@, k@);
    }
    let mut i: usize = v.len();
    assert(v@.subrange(0, i as int) =~= v@);
    while i > 0
        invariant
            i <= v.len(),
            key_pos(v@, k@) == key_pos(v@.subrange(0, i as int), k@),
        decreases i,
    {
        let ghost sub = v@.subrange(0, i as int);
        if v[i - 1].0 == *k {
            return Some(i - 1);
        }
        assert(sub.drop_last() =~= v@.subrange(0, i - 1));
        i = i - 1;
    }
    assert(v@.subrange(0, 0).len() == 0);
    None
}

/// Distinct names that are all keys of `s` are no more than its entries.
pub proof fn lemma_distinct_keys_bound<V>(s: Seq<(String, V)>, names: Seq<Seq<char>>)
    requires
        names.no_duplicates(),
        forall|i: int| 0 <= i < names.len() ==> has_key(s, #[trigger] names[i]),
    ensures
        names.len() <= s.len(),
{
    broadcast use vstd::seq_lib::seq_to_set_is_finite;
    let keys = s.map_values(|p: (String, V)| p.0@);
    keys.lemma_cardinality_of_set();
    names.unique_seq_to_set();
    assert forall|x: Seq<char>| names.to_set().contains(x) implies keys.to_set().contains(x) by {
        let i = choose|i: int| 0 <= i < names.len() && names[i] == x;
        assert(has_key(s, names[i]));
        let j = choose|j: int| 0 <= j < s.len() && s[j].0@ == names[i];
        assert(keys[j] == x);
    }
    vstd::set_lib::lemma_len_subset(names.to_set(), keys.to_set());
}

} // verus!
