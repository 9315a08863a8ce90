use vstd::prelude::*;
use crate::text::{chars_of, eq_vec};

verus! {

// Lists keyed by text, with each key at most once: the library's maps and
// sets. A list of entries stands for the map from each key to the view of
// its value; a list of texts stands for the set of those texts.

/// Whether some entry has the key.
pub open spec fn has_entry<V>(s: Seq<(String, V)>, k: Seq<char>) -> bool {
    exists|i: int| 0 <= i < s.len() && (#[trigger] s[i]).0@ == k
}

/// An index of an entry with the key.
pub open spec fn entry_index<V>(s: Seq<(String, V)>, k: Seq<char>) -> int {
    choose|i: int| 0 <= i < s.len() && (#[trigger] s[i]).0@ == k
}

/// Whether no two entries share a key.
pub open spec fn distinct_keys<V>(s: Seq<(String, V)>) -> bool {
    forall|i: int, j: int|
        0 <= i < s.len() && 0 <= j < s.len() && i != j ==> (#[trigger] s[i]).0@ != (
        #[trigger] s[j]).0@
}

/// The map from each key to the view of its value.
pub open spec fn entries_map<V: View>(s: Seq<(String, V)>) -> Map<Seq<char>, V::V> {
    Map::new(|k: Seq<char>| has_entry(s, k), |k: Seq<char>| s[entry_index(s, k)].1@)
}

/// The entry of a key is the one at any index that holds the key.
pub proof fn lemma_entry_at<V: View>(s: Seq<(String, V)>, i: int)
    requires
        distinct_keys(s),
        0 <= i < s.len(),
    ensures
        has_entry(s, s[i].0@),
        entry_index(s, s[i].0@) == i,
        entries_map(s).contains_key(s[i].0@),
        entries_map(s)[s[i].0@] == s[i].1@,
{
    assert(has_entry(s, s[i].0@));
}

/// Whether some text of a list equals `k`.
pub open spec fn has_text(s: Seq<String>, k: Seq<char>) -> bool {
    exists|i: int| 0 <= i < s.len() && (#[trigger] s[i])@ == k
}

/// Whether no text occurs twice in a list.
pub open spec fn distinct_texts(s: Seq<String>) -> bool {
    forall|i: int, j: int|
        0 <= i < s.len() && 0 <= j < s.len() && i != j ==> (#[trigger] s[i])@ != (
        #[trigger] s[j])@
}

/// The set of the texts of a list.
pub open spec fn text_set(s: Seq<String>) -> Set<Seq<char>> {
    Set::new(|k: Seq<char>| has_text(s, k))
}

/// Whether two texts are equal.
pub fn same_text(a: &str, b: &str) -> (r: bool)
    ensures
        r == (a@ == b@),
{
    eq_vec(&chars_of(a), &chars_of(b))
}

/// The index of the entry with key `k`, if there is one.
pub fn find_entry<V>(v: &Vec<(String, V)>, k: &str) -> (r: Option<usize>)
    ensures
        match r {
            Some(i) => i < v.len() && v@[i as int].0@ == k@,
            None => !has_entry(v@, k@),
        },
{
    let mut i: usize = 0;
    while i < v.len()
        invariant
            i <= v.len(),
            forall|j: int| 0 <= j < i ==> (#[trigger] v@[j]).0@ != k@,
        decreases v.len() - i,
    {
        if same_text(v[i].0.as_str(), k) {
            return Some(i);
        }
        i += 1;
    }
    None
}

/// The index of text `k` in a list, if it is there.
pub fn find_text(v: &Vec<String>, k: &str) -> (r: Option<usize>)
    ensures
        match r {
            Some(i) => i < v.len() && v@[i as int]@ == k@,
            None => !has_text(v@, k@),
        },
{
    let mut i: usize = 0;
    while i < v.len()
        invariant
            i <= v.len(),
            forall|j: int| 0 <= j < i ==> (#[trigger] v@[j])@ != k@,
        decreases v.len() - i,
    {
        if same_text(v[i].as_str(), k) {
            return Some(i);
        }
        i += 1;
    }
    None
}

/// Sets the value of key `k`, adding an entry when there is none.
pub fn set_entry<V: View>(v: &mut Vec<(String, V)>, k: String, value: V)
    requires
        distinct_keys(old(v)@),
    ensures
        distinct_keys(final(v)@),
        entries_map(final(v)@) == entries_map(old(v)@).insert(k@, value@),
{
    let ghost old_v = v@;
    let ghost key = k@;
    let ghost val = value@;
    match find_entry(v, k.as_str()) {
        Some(i) => {
            v.set(i, (k, value));
            proof {
                let s = v@;
                assert(s == old_v.update(i as int, s[i as int]));
                assert(distinct_keys(s)) by {
                    assert forall|a: int, b: int|
                        0 <= a < s.len() && 0 <= b < s.len() && a != b implies (
                        #[trigger] s[a]).0@ != (#[trigger] s[b]).0@ by {
                        if a != i && b != i {
                            assert(s[a] == old_v[a] && s[b] == old_v[b]);
                        } else if a == i {
                            assert(s[b] == old_v[b]);
                        } else {
                            assert(s[a] == old_v[a]);
                        }
                    }
                }
                lemma_entry_at(s, i as int);
                assert(entries_map(s) =~= entries_map(old_v).insert(key, val)) by {
                    assert forall|kk: Seq<char>| #[trigger]
                        entries_map(s).contains_key(kk) == entries_map(old_v).insert(
                            key,
                            val,
                        ).contains_key(kk) by {
                        if has_entry(s, kk) {
                            let j = entry_index(s, kk);
                            if j != i {
                                assert(old_v[j] == s[j]);
                            }
                        }
                        if has_entry(old_v, kk) {
                            let j = entry_index(old_v, kk);
                            if j != i {
                                assert(old_v[j] == s[j]);
                            }
                        }
                    }
                    assert forall|kk: Seq<char>| #[trigger]
                        entries_map(s).contains_key(kk) implies entries_map(s)[kk]
                        == entries_map(old_v).insert(key, val)[kk] by {
                        let j = entry_index(s, kk);
                        if kk != key {
                            assert(j != i);
                            assert(old_v[j] == s[j]);
                            lemma_entry_at(old_v, j);
                            lemma_entry_at(s, j);
                        }
                    }
                }
            }
        },
        None => {
            v.push((k, value));
            proof {
                let s = v@;
                let n = old_v.len() as int;
                assert(s == old_v.push(s[n]));
                assert(distinct_keys(s)) by {
                    assert forall|a: int, b: int|
                        0 <= a < s.len() && 0 <= b < s.len() && a != b implies (
                        #[trigger] s[a]).0@ != (#[trigger] s[b]).0@ by {
                        if a < n && b < n {
                            assert(s[a] == old_v[a] && s[b] == old_v[b]);
                        } else if a == n {
                            assert(s[b] == old_v[b]);
                        } else {
                            assert(s[a] == old_v[a]);
                        }
                    }
                }
                lemma_entry_at(s, n);
                assert(entries_map(s) =~= entries_map(old_v).insert(key, val)) by {
                    assert forall|kk: Seq<char>| #[trigger]
                        entries_map(s).contains_key(kk) == entries_map(old_v).insert(
                            key,
                            val,
                        ).contains_key(kk) by {
                        if has_entry(s, kk) {
                            let j = entry_index(s, kk);
                            if j != n {
                                assert(old_v[j] == s[j]);
                            }
                        }
                        if has_entry(old_v, kk) {
                            let j = entry_index(old_v, kk);
                            assert(old_v[j] == s[j]);
                        }
                    }
                    assert forall|kk: Seq<char>| #[trigger]
                        entries_map(s).contains_key(kk) implies entries_map(s)[kk]
                        == entries_map(old_v).insert(key, val)[kk] by {
                        let j = entry_index(s, kk);
                        if kk != key {
                            assert(j != n);
                            assert(old_v[j] == s[j]);
                            lemma_entry_at(old_v, j);
                            lemma_entry_at(s, j);
                        }
                    }
                }
            }
        },
    }
}

/// Removes the entry of key `k`, if there is one.
pub fn remove_entry<V: View>(v: &mut Vec<(String, V)>, k: &str)
    requires
        distinct_keys(old(v)@),
    ensures
        distinct_keys(final(v)@),
        entries_map(final(v)@) == entries_map(old(v)@).remove(k@),
{
    let ghost old_v = v@;
    match find_entry(v, k) {
        Some(i) => {
            let _ = v.remove(i);
            proof {
                let s = v@;
                assert(s == old_v.remove(i as int));
                assert forall|a: int| 0 <= a < s.len() implies #[trigger] s[a] == old_v[if a < i {
                    a
                } else {
                    a + 1
                }] by {}
                assert(distinct_keys(s)) by {
                    assert forall|a: int, b: int|
                        0 <= a < s.len() && 0 <= b < s.len() && a != b implies (
                        #[trigger] s[a]).0@ != (#[trigger] s[b]).0@ by {
                        let a2 = if a < i {
                            a
                        } else {
                            a + 1
                        };
                        let b2 = if b < i {
                            b
                        } else {
                            b + 1
                        };
                        assert(s[a] == old_v[a2] && s[b] == old_v[b2]);
                    }
                }
                assert(entries_map(s) =~= entries_map(old_v).remove(k@)) by {
                    assert forall|kk: Seq<char>| #[trigger]
                        entries_map(s).contains_key(kk) == entries_map(old_v).remove(
                            k@,
                        ).contains_key(kk) by {
                        if has_entry(s, kk) {
                            let j = entry_index(s, kk);
                            let j2 = if j < i {
                                j
                            } else {
                                j + 1
                            };
                            assert(s[j] == old_v[j2]);
                            assert(j2 != i);
                        }
                        if has_entry(old_v, kk) && kk != k@ {
                            let j = entry_index(old_v, kk);
                            assert(j != i);
                            let j2 = if j < i {
                                j
                            } else {
                                j - 1
                            };
                            assert(s[j2] == old_v[j]);
                        }
                    }
                    assert forall|kk: Seq<char>| #[trigger]
                        entries_map(s).contains_key(kk) implies entries_map(s)[kk]
                        == entries_map(old_v).remove(k@)[kk] by {
                        let j = entry_index(s, kk);
                        let j2 = if j < i {
                            j
                        } else {
                            j + 1
                        };
                        assert(s[j] == old_v[j2]);
                        lemma_entry_at(s, j);
                        lemma_entry_at(old_v, j2);
                    }
                }
            }
        },
        None => {
            proof {
                assert(entries_map(old_v) =~= entries_map(old_v).remove(k@));
            }
        },
    }
}

/// Adds text `k` to a list, unless it is there already.
pub fn insert_text(v: &mut Vec<String>, k: String)
    requires
        distinct_texts(old(v)@),
    ensures
        distinct_texts(final(v)@),
        text_set(final(v)@) == text_set(old(v)@).insert(k@),
{
    let ghost old_v = v@;
    match find_text(v, k.as_str()) {
        Some(_) => {
            proof {
                assert(text_set(old_v) =~= text_set(old_v).insert(k@));
            }
        },
        None => {
            let ghost key = k@;
            v.push(k);
            proof {
                let s = v@;
                let n = old_v.len() as int;
                assert(distinct_texts(s)) by {
                    assert forall|a: int, b: int|
                        0 <= a < s.len() && 0 <= b < s.len() && a != b implies (
                        #[trigger] s[a])@ != (#[trigger] s[b])@ by {
                        if a < n && b < n {
                            assert(s[a] == old_v[a] && s[b] == old_v[b]);
                        } else if a == n {
                            assert(s[b] == old_v[b]);
                        } else {
                            assert(s[a] == old_v[a]);
                        }
                    }
                }
                assert(text_set(s) =~= text_set(old_v).insert(key)) by {
                    assert forall|kk: Seq<char>| #[trigger]
                        text_set(s).contains(kk) == text_set(old_v).insert(key).contains(kk) by {
                        if has_text(s, kk) {
                            let j = choose|j: int| 0 <= j < s.len() && (#[trigger] s[j])@ == kk;
                            if j < n {
                                assert(old_v[j] == s[j]);
                            }
                        }
                        if has_text(old_v, kk) {
                            let j = choose|j: int| 0 <= j < old_v.len() && (#[trigger] old_v[j])@
                                == kk;
                            assert(old_v[j] == s[j]);
                        }
                        if kk == key {
                            assert(s[n]@ == key);
                        }
                    }
                }
            }
        },
    }
}

/// Removes text `k` from a list, if it is there.
pub fn remove_text(v: &mut Vec<String>, k: &str)
    requires
        distinct_texts(old(v)@),
    ensures
        distinct_texts(final(v)@),
        text_set(final(v)@) == text_set(old(v)@).remove(k@),
{
    let ghost old_v = v@;
    match find_text(v, k) {
        Some(i) => {
            let _ = v.remove(i);
            proof {
                let s = v@;
                assert(s == old_v.remove(i as int));
                assert forall|a: int| 0 <= a < s.len() implies #[trigger] s[a] == old_v[if a < i {
                    a
                } else {
                    a + 1
                }] by {}
                assert(distinct_texts(s)) by {
                    assert forall|a: int, b: int|
                        0 <= a < s.len() && 0 <= b < s.len() && a != b implies (
                        #[trigger] s[a])@ != (#[trigger] s[b])@ by {
                        let a2 = if a < i {
                            a
                        } else {
                            a + 1
                        };
                        let b2 = if b < i {
                            b
                        } else {
                            b + 1
                        };
                        assert(s[a] == old_v[a2] && s[b] == old_v[b2]);
                    }
                }
                assert(text_set(s) =~= text_set(old_v).remove(k@)) by {
                    assert forall|kk: Seq<char>| #[trigger]
                        text_set(s).contains(kk) == text_set(old_v).remove(k@).contains(kk) by {
                        if has_text(s, kk) {
                            let j = choose|j: int| 0 <= j < s.len() && (#[trigger] s[j])@ == kk;
                            let j2 = if j < i {
                                j
                            } else {
                                j + 1
                            };
                            assert(s[j] == old_v[j2]);
                            assert(j2 != i);
                        }
                        if has_text(old_v, kk) && kk != k@ {
                            let j = choose|j: int| 0 <= j < old_v.len() && (#[trigger] old_v[j])@
                                == kk;
                            assert(j != i);
                            let j2 = if j < i {
                                j
                            } else {
                                j - 1
                            };
                            assert(s[j2] == old_v[j]);
                        }
                    }
                }
            }
        },
        None => {
            proof {
                assert(text_set(old_v) =~= text_set(old_v).remove(k@));
            }
        },
    }
}

/// Appending an entry with a new key adds that key to the map.
pub proof fn lemma_push_entry<V: View>(s: Seq<(String, V)>, e: (String, V))
    requires
        distinct_keys(s),
        !has_entry(s, e.0@),
    ensures
        distinct_keys(s.push(e)),
        entries_map(s.push(e)) == entries_map(s).insert(e.0@, e.1@),
{
    let t = s.push(e);
    let n = s.len() as int;
    assert(distinct_keys(t)) by {
        assert forall|a: int, b: int|
            0 <= a < t.len() && 0 <= b < t.len() && a != b implies (#[trigger] t[a]).0@ != (
            #[trigger] t[b]).0@ by {
            if a < n && b < n {
                assert(t[a] == s[a] && t[b] == s[b]);
            } else if a == n {
                assert(t[b] == s[b]);
            } else {
                assert(t[a] == s[a]);
            }
        }
    }
    lemma_entry_at(t, n);
    assert(entries_map(t) =~= entries_map(s).insert(e.0@, e.1@)) by {
        assert forall|kk: Seq<char>| #[trigger]
            entries_map(t).contains_key(kk) == entries_map(s).insert(e.0@, e.1@).contains_key(
                kk,
            ) by {
            if has_entry(t, kk) {
                let j = entry_index(t, kk);
                if j != n {
                    assert(s[j] == t[j]);
                }
            }
            if has_entry(s, kk) {
                let j = entry_index(s, kk);
                assert(s[j] == t[j]);
            }
        }
        assert forall|kk: Seq<char>| #[trigger]
            entries_map(t).contains_key(kk) implies entries_map(t)[kk] == entries_map(s).insert(
            e.0@,
            e.1@,
        )[kk] by {
            let j = entry_index(t, kk);
            if kk != e.0@ {
                assert(j != n);
                assert(s[j] == t[j]);
                lemma_entry_at(s, j);
                lemma_entry_at(t, j);
            }
        }
    }
}

/// The first `i + 1` entries are the first `i` and the entry at `i`.
pub proof fn lemma_take_entry<V: View>(s: Seq<(String, V)>, i: int)
    requires
        distinct_keys(s),
        0 <= i < s.len(),
    ensures
        distinct_keys(s.take(i)),
        !has_entry(s.take(i), s[i].0@),
        s.take(i + 1) == s.take(i).push(s[i]),
        entries_map(s.take(i + 1)) == entries_map(s.take(i)).insert(s[i].0@, s[i].1@),
{
    assert(s.take(i + 1) =~= s.take(i).push(s[i]));
    assert(distinct_keys(s.take(i))) by {
        assert forall|a: int, b: int|
            0 <= a < s.take(i).len() && 0 <= b < s.take(i).len() && a != b implies (
            #[trigger] s.take(i)[a]).0@ != (#[trigger] s.take(i)[b]).0@ by {
            assert(s.take(i)[a] == s[a] && s.take(i)[b] == s[b]);
        }
    }
    if has_entry(s.take(i), s[i].0@) {
        let j = choose|j: int| 0 <= j < s.take(i).len() && (#[trigger] s.take(i)[j]).0@ == s[i].0@;
        assert(s.take(i)[j] == s[j]);
    }
    lemma_push_entry(s.take(i), s[i]);
}

} // verus!
