//! Keyed tables of text: a `Vec` of `(key, value)` rows whose keys are
//! distinct, viewed as a finite map from key text to value text.

use vstd::prelude::*;

verus! {

/// A table row: a key and the text bound to it.
pub type Row = (String, String);

/// No key occurs in two rows.
pub open spec fn keys_unique(rows: Seq<Row>) -> bool {
    forall|i: int, j: int| 0 <= i < rows.len() && 0 <= j < rows.len() && i != j
        ==> #[trigger] rows[i].0@ != #[trigger] rows[j].0@
}

/// Some row has key `k`.
pub open spec fn has_key(rows: Seq<Row>, k: Seq<char>) -> bool {
    exists|i: int| 0 <= i < rows.len() && #[trigger] rows[i].0@ == k
}

/// The map that a table stands for: each key to the value of its row.
pub open spec fn table_map(rows: Seq<Row>) -> Map<Seq<char>, Seq<char>> {
    Map::new(
        |k: Seq<char>| has_key(rows, k),
        |k: Seq<char>| rows[choose|i: int| 0 <= i < rows.len() && #[trigger] rows[i].0@ == k].1@,
    )
}

/// The row at `i` of a table with distinct keys is an entry of its map.
pub proof fn lemma_row_in_map(rows: Seq<Row>, i: int)
    requires
        keys_unique(rows),
        0 <= i < rows.len(),
    ensures
        table_map(rows).contains_key(rows[i].0@),
        table_map(rows)[rows[i].0@] == rows[i].1@,
{
    let k = rows[i].0@;
    assert(has_key(rows, k));
    let j = choose|j: int| 0 <= j < rows.len() && #[trigger] rows[j].0@ == k;
    assert(j == i);
}

/// Every row of a table with distinct keys is an entry of its map.
pub proof fn lemma_rows_in_map(rows: Seq<Row>)
    requires
        keys_unique(rows),
    ensures
        forall|i: int|
            0 <= i < rows.len() ==> table_map(rows).contains_key(#[trigger] rows[i].0@)
                && table_map(rows)[rows[i].0@] == rows[i].1@,
{
    assert forall|i: int| 0 <= i < rows.len() implies table_map(rows).contains_key(
        #[trigger] rows[i].0@,
    ) && table_map(rows)[rows[i].0@] == rows[i].1@ by {
        lemma_row_in_map(rows, i);
    }
}

/// The position of the row with key `key`, if there is one.
pub fn find(rows: &Vec<Row>, key: &String) -> (r: Option<usize>)
    ensures
        match r {
            Some(i) => i < rows.len() && rows@[i as int].0@ == key@,
            None => !has_key(rows@, key@),
        },
{
    let mut i: usize = 0;
    while i < rows.len()
        invariant
            0 <= i <= rows.len(),
            forall|j: int| 0 <= j < i ==> #[trigger] rows@[j].0@ != key@,
        decreases rows.len() - i,
    {
        if rows[i].0 == *key {
            return Some(i);
        }
        i = i + 1;
    }
    None
}

/// The value bound to `key`, if any.
pub fn lookup(rows: &Vec<Row>, key: &String) -> (r: Option<String>)
    requires
        keys_unique(rows@),
    ensures
        r matches Some(v) ==> table_map(rows@).contains_key(key@) && v@ == table_map(rows@)[key@],
        r is None ==> !table_map(rows@).contains_key(key@),
{
    match find(rows, key) {
        Some(i) => {
            proof {
                lemma_row_in_map(rows@, i as int);
            }
            Some(rows[i].1.clone())
        },
        None => None,
    }
}

/// Binds `key` to `value`, replacing the row that held `key` if there is one.
pub fn put(rows: &mut Vec<Row>, key: String, value: String)
    requires
        keys_unique(old(rows)@),
    ensures
        keys_unique(final(rows)@),
        table_map(final(rows)@) == table_map(old(rows)@).insert(key@, value@),
{
    let ghost before = rows@;
    let ghost k = key@;
    let ghost v = value@;
    match find(rows, &key) {
        Some(i) => {
            rows.set(i, (key, value));
            proof {
                let after = rows@;
                assert(after == before.update(i as int, after[i as int]));
                lemma_rows_in_map(before);
                lemma_rows_in_map(after);
                assert forall|m: Seq<char>| #[trigger] has_key(after, m) <==> has_key(before, m)
                    || m == k by {
                    if has_key(after, m) {
                        let j = choose|j: int| 0 <= j < after.len() && #[trigger] after[j].0@ == m;
                        if j != i {
                            assert(before[j].0@ == m);
                        }
                    }
                    if has_key(before, m) {
                        let j = choose|j: int| 0 <= j < before.len() && #[trigger] before[j].0@ == m;
                        assert(after[j].0@ == m);
                    }
                    if m == k {
                        assert(after[i as int].0@ == m);
                    }
                }
                assert(table_map(after) =~= table_map(before).insert(k, v));
            }
        },
        None => {
            rows.push((key, value));
            proof {
                let after = rows@;
                let n = before.len() as int;
                lemma_rows_in_map(before);
                lemma_rows_in_map(after);
                assert forall|m: Seq<char>| #[trigger] has_key(after, m) <==> has_key(before, m)
                    || m == k by {
                    if has_key(after, m) {
                        let j = choose|j: int| 0 <= j < after.len() && #[trigger] after[j].0@ == m;
                        if j != n {
                            assert(before[j].0@ == m);
                        }
                    }
                    if has_key(before, m) {
                        let j = choose|j: int| 0 <= j < before.len() && #[trigger] before[j].0@ == m;
                        assert(after[j].0@ == m);
                    }
                    if m == k {
                        assert(after[n].0@ == m);
                    }
                }
                assert(table_map(after) =~= table_map(before).insert(k, v));
            }
        },
    }
}

/// Removes the row with key `key`, if there is one.
pub fn delete(rows: &mut Vec<Row>, key: &String)
    requires
        keys_unique(old(rows)@),
    ensures
        keys_unique(final(rows)@),
        table_map(final(rows)@) == table_map(old(rows)@).remove(key@),
{
    let ghost before = rows@;
    let ghost k = key@;
    if let Some(i) = find(rows, key) {
        rows.remove(i);
        proof {
            let after = rows@;
            assert(after == before.remove(i as int));
            assert forall|a: int, b: int|
                0 <= a < after.len() && 0 <= b < after.len() && a != b implies #[trigger] after[a].0@
                != #[trigger] after[b].0@ by {
                let a2 = if a < i { a } else { a + 1 };
                let b2 = if b < i { b } else { b + 1 };
                assert(after[a] == before[a2]);
                assert(after[b] == before[b2]);
            }
            lemma_rows_in_map(before);
            lemma_rows_in_map(after);
            assert forall|m: Seq<char>| #[trigger] has_key(after, m) <==> has_key(before, m) && m
                != k by {
                if has_key(after, m) {
                    let j = choose|j: int| 0 <= j < after.len() && #[trigger] after[j].0@ == m;
                    let j2 = if j < i { j } else { j + 1 };
                    assert(after[j] == before[j2]);
                    assert(before[j2].0@ == m);
                }
                if has_key(before, m) && m != k {
                    let j = choose|j: int| 0 <= j < before.len() && #[trigger] before[j].0@ == m;
                    let j2 = if j < i { j } else { j - 1 };
                    assert(after[j2] == before[j]);
                    assert(after[j2].0@ == m);
                }
            }
            assert(table_map(after) =~= table_map(before).remove(k));
        }
    } else {
        assert(table_map(before) =~= table_map(before).remove(k));
    }
}

/// The map that a list of pairs builds when each pair is bound in turn, so
/// that a later pair for a key overrides an earlier one.
pub open spec fn pairs_map(pairs: Seq<Row>) -> Map<Seq<char>, Seq<char>>
    decreases pairs.len(),
{
    if pairs.len() == 0 {
        Map::empty()
    } else {
        pairs_map(pairs.drop_last()).insert(pairs.last().0@, pairs.last().1@)
    }
}

/// On distinct keys, binding the pairs in turn builds the table's map.
pub proof fn lemma_pairs_map_of_table(rows: Seq<Row>)
    requires
        keys_unique(rows),
    ensures
        pairs_map(rows) == table_map(rows),
    decreases rows.len(),
{
    if rows.len() == 0 {
        assert(table_map(rows) =~= Map::empty());
    } else {
        let init = rows.drop_last();
        let n = rows.len() - 1;
        assert forall|a: int, b: int|
            0 <= a < init.len() && 0 <= b < init.len() && a != b implies #[trigger] init[a].0@
            != #[trigger] init[b].0@ by {
            assert(init[a] == rows[a] && init[b] == rows[b]);
        }
        lemma_pairs_map_of_table(init);
        lemma_rows_in_map(rows);
        lemma_rows_in_map(init);
        let k = rows[n].0@;
        assert forall|m: Seq<char>| #[trigger] has_key(rows, m) <==> has_key(init, m) || m == k by {
            if has_key(rows, m) {
                let j = choose|j: int| 0 <= j < rows.len() && #[trigger] rows[j].0@ == m;
                if j != n {
                    assert(init[j].0@ == m);
                }
            }
            if has_key(init, m) {
                let j = choose|j: int| 0 <= j < init.len() && #[trigger] init[j].0@ == m;
                assert(rows[j].0@ == m);
            }
            if m == k {
                assert(rows[n].0@ == m);
            }
        }
        assert(table_map(rows) =~= table_map(init).insert(k, rows[n].1@));
    }
}

/// A table binding each key of `pairs` to the value of its last pair.
pub fn table_from_pairs(pairs: Vec<Row>) -> (rows: Vec<Row>)
    ensures
        keys_unique(rows@),
        table_map(rows@) == pairs_map(pairs@),
{
    let mut rows: Vec<Row> = Vec::new();
    let mut i: usize = 0;
    assert(table_map(rows@) =~= Map::empty());
    assert(pairs@.subrange(0, 0) =~= Seq::<Row>::empty());
    while i < pairs.len()
        invariant
            i <= pairs@.len(),
            keys_unique(rows@),
            table_map(rows@) == pairs_map(pairs@.subrange(0, i as int)),
        decreases pairs@.len() - i,
    {
        let key = pairs[i].0.clone();
        let value = pairs[i].1.clone();
        put(&mut rows, key, value);
        assert(pairs@.subrange(0, i + 1).drop_last() =~= pairs@.subrange(0, i as int));
        i = i + 1;
    }
    assert(pairs@.subrange(0, i as int) =~= pairs@);
    rows
}

/// A copy of a table, row for row.
pub fn copy_table(rows: &Vec<Row>) -> (r: Vec<Row>)
    ensures
        r@.len() == rows@.len(),
        forall|i: int| 0 <= i < rows@.len() ==> #[trigger] r@[i] == rows@[i],
{
    let mut r: Vec<Row> = Vec::new();
    let mut i: usize = 0;
    while i < rows.len()
        invariant
            i <= rows@.len(),
            r@.len() == i,
            forall|j: int| 0 <= j < i ==> #[trigger] r@[j] == rows@[j],
        decreases rows@.len() - i,
    {
        r.push((rows[i].0.clone(), rows[i].1.clone()));
        i = i + 1;
    }
    r
}

} // verus!
