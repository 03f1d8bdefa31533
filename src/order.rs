//! Lexicographic order on strings, by code point, and maps held as vectors of
//! pairs kept in strictly ascending key order.
use vstd::prelude::*;

verus! {

/// `a` sorts strictly before `b`, comparing code points from the left; a
/// proper prefix sorts first.
pub open spec fn key_lt(a: Seq<char>, b: Seq<char>) -> bool
    decreases a.len(),
{
    if a.len() == 0 {
        b.len() > 0
    } else if b.len() == 0 {
        false
    } else if a[0] < b[0] {
        true
    } else if a[0] == b[0] {
        key_lt(a.drop_first(), b.drop_first())
    } else {
        false
    }
}

pub proof fn lemma_key_lt_irreflexive(a: Seq<char>)
    ensures
        !key_lt(a, a),
    decreases a.len(),
{
    if a.len() > 0 {
        lemma_key_lt_irreflexive(a.drop_first());
    }
}

pub proof fn lemma_key_lt_total(a: Seq<char>, b: Seq<char>)
    ensures
        a == b || key_lt(a, b) || key_lt(b, a),
    decreases a.len(),
{
    if a.len() > 0 && b.len() > 0 && a[0] == b[0] {
        lemma_key_lt_total(a.drop_first(), b.drop_first());
        if a.drop_first() == b.drop_first() {
            assert(a =~= seq![a[0]] + a.drop_first());
            assert(b =~= seq![b[0]] + b.drop_first());
        }
    } else if a.len() > 0 && b.len() > 0 {
        assert(a[0] != b[0]);
    } else if a.len() == 0 && b.len() == 0 {
        assert(a =~= b);
    }
}

pub proof fn lemma_key_lt_transitive(a: Seq<char>, b: Seq<char>, c: Seq<char>)
    requires
        key_lt(a, b),
        key_lt(b, c),
    ensures
        key_lt(a, c),
    decreases a.len(),
{
    if a.len() > 0 && b.len() > 0 && c.len() > 0 && a[0] == b[0] && b[0] == c[0] {
        lemma_key_lt_transitive(a.drop_first(), b.drop_first(), c.drop_first());
    }
}

/// Compares two strings in the order of `key_lt`.
pub fn str_lt(a: &str, b: &str) -> (r: bool)
    ensures
        r == key_lt(a@, b@),
{
    let la = a.unicode_len();
    let lb = b.unicode_len();
    let mut i: usize = 0;
    assert(a@.skip(0) =~= a@);
    assert(b@.skip(0) =~= b@);
    while i < la && i < lb
        invariant
            la == a@.len(),
            lb == b@.len(),
            i <= la,
            i <= lb,
            key_lt(a@, b@) == key_lt(a@.skip(i as int), b@.skip(i as int)),
        decreases la - i,
    {
        let ca = a.get_char(i);
        let cb = b.get_char(i);
        if ca < cb {
            return true;
        } else if ca != cb {
            return false;
        }
        assert(a@.skip(i as int).drop_first() =~= a@.skip(i + 1));
        assert(b@.skip(i as int).drop_first() =~= b@.skip(i + 1));
        i = i + 1;
    }
    i == la && i < lb
}

/// The keys of a sequence of pairs ascend strictly.
pub open spec fn keys_ascending<V>(s: Seq<(String, V)>) -> bool {
    forall|i: int, j: int| 0 <= i < j < s.len() ==> key_lt(#[trigger] s[i].0@, #[trigger] s[j].0@)
}

/// The pairs as a map from the key's characters to the value: a later pair
/// replaces an earlier one with the same key.
pub open spec fn pairs_map<V>(s: Seq<(String, V)>) -> Map<Seq<char>, V>
    decreases s.len(),
{
    if s.len() == 0 {
        Map::empty()
    } else {
        pairs_map(s.drop_last()).insert(s.last().0@, s.last().1)
    }
}

/// A map holds a key exactly when some pair has it, with that pair's value,
/// where keys ascend.
pub proof fn lemma_pairs_map_ascending<V>(s: Seq<(String, V)>)
    requires
        keys_ascending(s),
    ensures
        forall|k: Seq<char>|
            #[trigger] pairs_map(s).contains_key(k) <==> exists|i: int|
                0 <= i < s.len() && s[i].0@ == k,
        forall|i: int| 0 <= i < s.len() ==> #[trigger] pairs_map(s)[s[i].0@] == s[i].1,
    decreases s.len(),
{
    if s.len() > 0 {
        let t = s.drop_last();
        assert(keys_ascending(t));
        lemma_pairs_map_ascending(t);
        assert forall|k: Seq<char>|
            #[trigger] pairs_map(s).contains_key(k) <==> exists|i: int|
                0 <= i < s.len() && s[i].0@ == k by {
            assert(pairs_map(s) == pairs_map(t).insert(s.last().0@, s.last().1));
            if pairs_map(s).contains_key(k) && k != s.last().0@ {
                assert(pairs_map(t).contains_key(k));
                let i = choose|i: int| 0 <= i < t.len() && t[i].0@ == k;
                assert(s[i].0@ == k);
            }
            if exists|i: int| 0 <= i < s.len() && s[i].0@ == k {
                let i = choose|i: int| 0 <= i < s.len() && s[i].0@ == k;
                if i < s.len() - 1 {
                    assert(t[i].0@ == k);
                }
            }
        }
        assert forall|i: int| 0 <= i < s.len() implies #[trigger] pairs_map(s)[s[i].0@]
            == s[i].1 by {
            assert(pairs_map(s) == pairs_map(t).insert(s.last().0@, s.last().1));
            if i < s.len() - 1 {
                assert(key_lt(s[i].0@, s[s.len() - 1].0@));
                lemma_key_lt_irreflexive(s[i].0@);
                assert(t[i] == s[i]);
                assert(pairs_map(t)[t[i].0@] == t[i].1);
                assert(s[i].0@ != s.last().0@);
            }
        }
    }
}

/// Puts `(k, x)` in its place in a vector of pairs whose keys ascend: a pair
/// with the same key is replaced.
pub fn insert_pair<V>(v: &mut Vec<(String, V)>, k: String, x: V)
    requires
        keys_ascending(old(v)@),
    ensures
        keys_ascending(final(v)@),
        pairs_map(final(v)@) == pairs_map(old(v)@).insert(k@, x),
{
    let ghost s0 = v@;
    let mut i: usize = 0;
    while i < v.len() && str_lt(v[i].0.as_str(), k.as_str())
        invariant
            v@ == s0,
            i <= v.len(),
            forall|j: int| 0 <= j < i ==> key_lt(#[trigger] v@[j].0@, k@),
        decreases v.len() - i,
    {
        i = i + 1;
    }
    proof {
        lemma_pairs_map_ascending(s0);
    }
    if i < v.len() && v[i].0 == k {
        v.set(i, (k, x));
        proof {
            let s1 = v@;
            assert forall|a: int, b: int| 0 <= a < b < s1.len() implies key_lt(
                #[trigger] s1[a].0@,
                #[trigger] s1[b].0@,
            ) by {
                assert(key_lt(s0[a].0@, s0[b].0@));
            }
            lemma_pairs_map_ascending(s1);
            assert(pairs_map(s1) =~= pairs_map(s0).insert(k@, x)) by {
                assert forall|key: Seq<char>| #[trigger] pairs_map(s1).contains_key(key) implies
                    pairs_map(s0).insert(k@, x).contains_key(key) by {
                    let j = choose|j: int| 0 <= j < s1.len() && s1[j].0@ == key;
                    if j != i {
                        assert(s0[j] == s1[j]);
                    }
                }
                assert forall|key: Seq<char>| #[trigger] pairs_map(s0).insert(k@, x).contains_key(
                    key,
                ) implies pairs_map(s1).contains_key(key) && pairs_map(s1)[key] == pairs_map(
                    s0,
                ).insert(k@, x)[key] by {
                    if key == k@ {
                        assert(s1[i as int].0@ == key);
                    } else {
                        let j = choose|j: int| 0 <= j < s0.len() && s0[j].0@ == key;
                        assert(s1[j] == s0[j]);
                    }
                }
            }
        }
    } else {
        proof {
            if i < v.len() {
                lemma_key_lt_total(v@[i as int].0@, k@);
            }
        }
        v.insert(i, (k, x));
        proof {
            let s1 = v@;
            assert forall|a: int, b: int| 0 <= a < b < s1.len() implies key_lt(
                #[trigger] s1[a].0@,
                #[trigger] s1[b].0@,
            ) by {
                if b < i {
                    assert(key_lt(s0[a].0@, s0[b].0@));
                } else if b == i {
                } else if a < i {
                    assert(key_lt(s0[a].0@, s0[b - 1].0@));
                } else if a == i {
                    if b - 1 > i {
                        assert(key_lt(s0[i as int].0@, s0[b - 1].0@));
                        lemma_key_lt_transitive(k@, s0[i as int].0@, s0[b - 1].0@);
                    }
                } else {
                    assert(key_lt(s0[a - 1].0@, s0[b - 1].0@));
                }
            }
            lemma_pairs_map_ascending(s1);
            assert(pairs_map(s1) =~= pairs_map(s0).insert(k@, x)) by {
                assert forall|key: Seq<char>| #[trigger] pairs_map(s1).contains_key(key) implies
                    pairs_map(s0).insert(k@, x).contains_key(key) by {
                    let j = choose|j: int| 0 <= j < s1.len() && s1[j].0@ == key;
                    if j < i {
                        assert(s0[j] == s1[j]);
                    } else if j > i {
                        assert(s0[j - 1] == s1[j]);
                    }
                }
                assert forall|key: Seq<char>| #[trigger] pairs_map(s0).insert(k@, x).contains_key(
                    key,
                ) implies pairs_map(s1).contains_key(key) && pairs_map(s1)[key] == pairs_map(
                    s0,
                ).insert(k@, x)[key] by {
                    if key == k@ {
                        assert(s1[i as int].0@ == key);
                    } else {
                        let j = choose|j: int| 0 <= j < s0.len() && s0[j].0@ == key;
                        if j < i {
                            assert(s1[j] == s0[j]);
                        } else {
                            assert(s1[j + 1] == s0[j]);
                        }
                    }
                }
            }
        }
    }
}

} // verus!
