use vstd::prelude::*;

verus! {

/// The entries of a table of named integers, each name taken by its characters.
pub open spec fn entries(v: Seq<(String, i32)>) -> Seq<(Seq<char>, i32)> {
    v.map_values(|e: (String, i32)| (e.0@, e.1))
}

/// No name occurs twice.
pub open spec fn distinct_names(s: Seq<(Seq<char>, i32)>) -> bool {
    forall|i: int, j: int| 0 <= i < s.len() && 0 <= j < s.len() && i != j ==> s[i].0 != s[j].0
}

pub open spec fn has_name(s: Seq<(Seq<char>, i32)>, k: Seq<char>) -> bool {
    exists|i: int| 0 <= i < s.len() && s[i].0 == k
}

/// The table as a map from name to value.
pub open spec fn as_map(s: Seq<(Seq<char>, i32)>) -> Map<Seq<char>, i32> {
    Map::new(
        |k: Seq<char>| has_name(s, k),
        |k: Seq<char>| s[choose|i: int| 0 <= i < s.len() && s[i].0 == k].1,
    )
}

/// Sum of the values of a finite map.
pub open spec fn map_sum(m: Map<Seq<char>, i32>) -> int
    decreases m.dom().len(),
    when m.dom().finite()
{
    if m.dom().len() == 0 {
        0
    } else {
        let k = m.dom().choose();
        m[k] + map_sum(m.remove(k))
    }
}

/// The value of `k` in `m`, or 0 where `k` is absent.
pub open spec fn value_or_zero(m: Map<Seq<char>, i32>, k: Seq<char>) -> int {
    if m.contains_key(k) {
        m[k] as int
    } else {
        0
    }
}

pub proof fn lemma_map_sum_remove(m: Map<Seq<char>, i32>, k: Seq<char>)
    requires
        m.dom().finite(),
        m.contains_key(k),
    ensures
        map_sum(m) == m[k] + map_sum(m.remove(k)),
    decreases m.dom().len(),
{
    let c = m.dom().choose();
    if c != k {
        lemma_map_sum_remove(m.remove(c), k);
        lemma_map_sum_remove(m.remove(k), c);
        assert(m.remove(c).remove(k) =~= m.remove(k).remove(c));
    }
}

pub proof fn lemma_map_sum_empty(m: Map<Seq<char>, i32>)
    requires
        m.dom().finite(),
        m.dom().len() == 0,
    ensures
        map_sum(m) == 0,
{
}

/// Setting one value changes the sum by the difference.
pub proof fn lemma_map_sum_insert(m: Map<Seq<char>, i32>, k: Seq<char>, v: i32)
    requires
        m.dom().finite(),
    ensures
        map_sum(m.insert(k, v)) == map_sum(m) - value_or_zero(m, k) + v,
{
    let m2 = m.insert(k, v);
    lemma_map_sum_remove(m2, k);
    if m.contains_key(k) {
        lemma_map_sum_remove(m, k);
        assert(m2.remove(k) =~= m.remove(k));
    } else {
        assert(m2.remove(k) =~= m);
    }
}

/// Dropping one name changes the sum by its value.
pub proof fn lemma_map_sum_remove_any(m: Map<Seq<char>, i32>, k: Seq<char>)
    requires
        m.dom().finite(),
    ensures
        map_sum(m.remove(k)) == map_sum(m) - value_or_zero(m, k),
{
    if m.contains_key(k) {
        lemma_map_sum_remove(m, k);
    } else {
        assert(m.remove(k) =~= m);
    }
}

pub proof fn lemma_as_map_finite(s: Seq<(Seq<char>, i32)>)
    ensures
        as_map(s).dom().finite(),
{
    let names = s.map_values(|e: (Seq<char>, i32)| e.0);
    assert forall|k: Seq<char>| as_map(s).dom().contains(k) implies names.to_set().contains(k) by {
        let i = choose|i: int| 0 <= i < s.len() && s[i].0 == k;
        assert(names[i] == k);
    }
    vstd::seq_lib::seq_to_set_is_finite(names);
    vstd::set_lib::lemma_set_subset_finite(names.to_set(), as_map(s).dom());
}

/// With distinct names, the map holds position `i`'s value under its name.
pub proof fn lemma_as_map_at(s: Seq<(Seq<char>, i32)>, i: int)
    requires
        distinct_names(s),
        0 <= i < s.len(),
    ensures
        as_map(s).contains_key(s[i].0),
        as_map(s)[s[i].0] == s[i].1,
{
    assert(has_name(s, s[i].0));
}

pub proof fn lemma_as_map_update(s: Seq<(Seq<char>, i32)>, i: int, v: i32)
    requires
        distinct_names(s),
        0 <= i < s.len(),
    ensures
        distinct_names(s.update(i, (s[i].0, v))),
        as_map(s.update(i, (s[i].0, v))) =~= as_map(s).insert(s[i].0, v),
{
    let t = s.update(i, (s[i].0, v));
    assert forall|k: Seq<char>| #[trigger] as_map(t).contains_key(k) <==> as_map(s).insert(s[i].0, v).contains_key(k) by {
        if has_name(s, k) {
            let j = choose|j: int| 0 <= j < s.len() && s[j].0 == k;
            assert(t[j].0 == k);
        }
        if has_name(t, k) {
            let j = choose|j: int| 0 <= j < t.len() && t[j].0 == k;
            assert(s[j].0 == k);
        }
    }
    assert forall|k: Seq<char>| as_map(t).contains_key(k) implies as_map(t)[k] == as_map(s).insert(s[i].0, v)[k] by {
        let j = choose|j: int| 0 <= j < t.len() && t[j].0 == k;
        lemma_as_map_at(t, j);
        if j != i {
            lemma_as_map_at(s, j);
        }
    }
}

pub proof fn lemma_as_map_push(s: Seq<(Seq<char>, i32)>, k: Seq<char>, v: i32)
    requires
        distinct_names(s),
        !has_name(s, k),
    ensures
        distinct_names(s.push((k, v))),
        as_map(s.push((k, v))) =~= as_map(s).insert(k, v),
{
    let t = s.push((k, v));
    assert forall|k2: Seq<char>| #[trigger] as_map(t).contains_key(k2) <==> as_map(s).insert(k, v).contains_key(k2) by {
        if has_name(s, k2) {
            let j = choose|j: int| 0 <= j < s.len() && s[j].0 == k2;
            assert(t[j].0 == k2);
        }
        if k2 == k {
            assert(t[s.len() as int].0 == k);
        }
    }
    assert forall|k2: Seq<char>| as_map(t).contains_key(k2) implies as_map(t)[k2] == as_map(s).insert(k, v)[k2] by {
        let j = choose|j: int| 0 <= j < t.len() && t[j].0 == k2;
        lemma_as_map_at(t, j);
        if j < s.len() {
            lemma_as_map_at(s, j);
        }
    }
}

pub proof fn lemma_as_map_remove(s: Seq<(Seq<char>, i32)>, i: int)
    requires
        distinct_names(s),
        0 <= i < s.len(),
    ensures
        distinct_names(s.remove(i)),
        as_map(s.remove(i)) =~= as_map(s).remove(s[i].0),
{
    let t = s.remove(i);
    assert forall|a: int, b: int| 0 <= a < t.len() && 0 <= b < t.len() && a != b implies t[a].0 != t[b].0 by {
        let a2 = if a < i { a } else { a + 1 };
        let b2 = if b < i { b } else { b + 1 };
        assert(t[a] == s[a2]);
        assert(t[b] == s[b2]);
    }
    assert forall|k: Seq<char>| #[trigger] as_map(t).contains_key(k) <==> as_map(s).remove(s[i].0).contains_key(k) by {
        if has_name(s, k) && k != s[i].0 {
            let j = choose|j: int| 0 <= j < s.len() && s[j].0 == k;
            if j < i {
                assert(t[j].0 == k);
            } else {
                assert(t[j - 1].0 == k);
            }
        }
        if has_name(t, k) {
            let j = choose|j: int| 0 <= j < t.len() && t[j].0 == k;
            let j2 = if j < i { j } else { j + 1 };
            assert(s[j2].0 == k);
        }
    }
    assert forall|k: Seq<char>| as_map(t).contains_key(k) implies as_map(t)[k] == as_map(s).remove(s[i].0)[k] by {
        let j = choose|j: int| 0 <= j < t.len() && t[j].0 == k;
        let j2 = if j < i { j } else { j + 1 };
        lemma_as_map_at(t, j);
        lemma_as_map_at(s, j2);
    }
}

/// Position of the entry named `key`, if any.
pub fn find_name(v: &Vec<(String, i32)>, key: &String) -> (r: Option<usize>)
    ensures
        match r {
            Some(i) => i < v@.len() && entries(v@)[i as int].0 == key@,
            None => !has_name(entries(v@), key@),
        },
{
    let mut i: usize = 0;
    while i < v.len()
        invariant
            0 <= i <= v@.len(),
            forall|j: int| 0 <= j < i ==> entries(v@)[j].0 != key@,
        decreases v@.len() - i,
    {
        if v[i].0 == *key {
            return Some(i);
        }
        i = i + 1;
    }
    None
}

/// A copy of the table, entry by entry.
pub fn copy_entries(v: &Vec<(String, i32)>) -> (r: Vec<(String, i32)>)
    ensures
        entries(r@) == entries(v@),
{
    let mut r: Vec<(String, i32)> = Vec::new();
    let mut i: usize = 0;
    while i < v.len()
        invariant
            0 <= i <= v@.len(),
            r@.len() == i,
            forall|j: int| 0 <= j < i ==> entries(r@)[j] == entries(v@)[j],
        decreases v@.len() - i,
    {
        r.push((v[i].0.clone(), v[i].1));
        i = i + 1;
    }
    assert(entries(r@) =~= entries(v@));
    r
}

/// Sets the value named `key`, adding the entry where the name is new.
pub fn table_set(v: &mut Vec<(String, i32)>, key: String, val: i32)
    requires
        distinct_names(entries(old(v)@)),
    ensures
        distinct_names(entries(final(v)@)),
        as_map(entries(final(v)@)) == as_map(entries(old(v)@)).insert(key@, val),
{
    let ghost s = entries(v@);
    match find_name(v, &key) {
        Some(i) => {
            proof {
                lemma_as_map_update(s, i as int, val);
            }
            v.set(i, (key, val));
            assert(entries(v@) =~= s.update(i as int, (s[i as int].0, val)));
        },
        None => {
            proof {
                lemma_as_map_push(s, key@, val);
            }
            v.push((key, val));
            assert(entries(v@) =~= s.push((key@, val)));
        },
    }
}

/// Drops the entry named `key` and returns its value, if there was one.
pub fn table_remove(v: &mut Vec<(String, i32)>, key: &String) -> (r: Option<i32>)
    requires
        distinct_names(entries(old(v)@)),
    ensures
        distinct_names(entries(final(v)@)),
        as_map(entries(final(v)@)) == as_map(entries(old(v)@)).remove(key@),
        r == (if as_map(entries(old(v)@)).contains_key(key@) {
            Some(as_map(entries(old(v)@))[key@])
        } else {
            None::<i32>
        }),
{
    let ghost s = entries(v@);
    match find_name(v, key) {
        Some(i) => {
            proof {
                lemma_as_map_remove(s, i as int);
                lemma_as_map_at(s, i as int);
            }
            let (_, val) = v.remove(i);
            assert(entries(v@) =~= s.remove(i as int));
            Some(val)
        },
        None => {
            assert(as_map(s).remove(key@) =~= as_map(s));
            None
        },
    }
}

/// The value named `key`, if any.
pub fn table_get(v: &Vec<(String, i32)>, key: &String) -> (r: Option<i32>)
    requires
        distinct_names(entries(v@)),
    ensures
        r == (if as_map(entries(v@)).contains_key(key@) {
            Some(as_map(entries(v@))[key@])
        } else {
            None::<i32>
        }),
{
    match find_name(v, key) {
        Some(i) => {
            proof {
                lemma_as_map_at(entries(v@), i as int);
            }
            Some(v[i].1)
        },
        None => None,
    }
}

} // verus!
