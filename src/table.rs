//! Keyed rows: a sequence of `(key, value)` pairs read as a finite map.
use vstd::prelude::*;

verus! {

/// Some row of `rows` carries the key `k`.
pub open spec fn has_key<K, V>(rows: Seq<(K, V)>, k: K) -> bool {
    exists|i: int| 0 <= i < rows.len() && (#[trigger] rows[i]).0 == k
}

/// No two rows share a key.
pub open spec fn keys_unique<K, V>(rows: Seq<(K, V)>) -> bool {
    forall|i: int, j: int|
        0 <= i < rows.len() && 0 <= j < rows.len() && (#[trigger] rows[i]).0 == (#[trigger] rows[j]).0
            ==> i == j
}

/// The map that a sequence of rows with unique keys stands for.
pub open spec fn table_view<K, V>(rows: Seq<(K, V)>) -> Map<K, V> {
    Map::new(
        |k: K| has_key(rows, k),
        |k: K| rows[choose|i: int| 0 <= i < rows.len() && (#[trigger] rows[i]).0 == k].1,
    )
}

/// The row at index `i` is what the map holds under its key.
pub proof fn lemma_table_index<K, V>(rows: Seq<(K, V)>, i: int)
    requires
        keys_unique(rows),
        0 <= i < rows.len(),
    ensures
        table_view(rows).contains_key(rows[i].0),
        table_view(rows)[rows[i].0] == rows[i].1,
{
    let k = rows[i].0;
    assert(has_key(rows, k));
    let j = choose|j: int| 0 <= j < rows.len() && (#[trigger] rows[j]).0 == k;
    assert(rows[j].0 == rows[i].0);
}

/// Appending a row under a fresh key inserts that key into the map.
pub proof fn lemma_table_push<K, V>(rows: Seq<(K, V)>, k: K, v: V)
    requires
        keys_unique(rows),
        !has_key(rows, k),
    ensures
        keys_unique(rows.push((k, v))),
        table_view(rows.push((k, v))) == table_view(rows).insert(k, v),
{
    let r2 = rows.push((k, v));
    assert forall|i: int, j: int|
        0 <= i < r2.len() && 0 <= j < r2.len() && (#[trigger] r2[i]).0 == (#[trigger] r2[j]).0
        implies i == j by {
        if i < rows.len() && j < rows.len() {
            assert(rows[i] == r2[i] && rows[j] == r2[j]);
        } else if i < rows.len() {
            assert(rows[i] == r2[i]);
        } else if j < rows.len() {
            assert(rows[j] == r2[j]);
        }
    }
    let m2 = table_view(r2);
    let m1 = table_view(rows).insert(k, v);
    assert forall|x: K| #[trigger] m2.contains_key(x) <==> m1.contains_key(x) by {
        if has_key(r2, x) {
            let i = choose|i: int| 0 <= i < r2.len() && (#[trigger] r2[i]).0 == x;
            if i < rows.len() {
                assert(rows[i] == r2[i]);
            }
        }
        if has_key(rows, x) {
            let i = choose|i: int| 0 <= i < rows.len() && (#[trigger] rows[i]).0 == x;
            assert(rows[i] == r2[i]);
        }
        if x == k {
            assert(r2[rows.len() as int].0 == k);
        }
    }
    assert forall|x: K| #[trigger] m2.contains_key(x) implies m2[x] == m1[x] by {
        let i = choose|i: int| 0 <= i < r2.len() && (#[trigger] r2[i]).0 == x;
        lemma_table_index(r2, i);
        if i < rows.len() {
            assert(rows[i] == r2[i]);
            lemma_table_index(rows, i);
        }
    }
    assert(m2 =~= m1);
}

/// Removing the row at index `i` removes its key from the map.
pub proof fn lemma_table_remove<K, V>(rows: Seq<(K, V)>, i: int)
    requires
        keys_unique(rows),
        0 <= i < rows.len(),
    ensures
        keys_unique(rows.remove(i)),
        table_view(rows.remove(i)) == table_view(rows).remove(rows[i].0),
{
    let r2 = rows.remove(i);
    let k = rows[i].0;
    assert forall|a: int| 0 <= a < r2.len() implies #[trigger] r2[a] == rows[if a < i { a } else { a + 1 }] by {}
    assert forall|a: int, b: int|
        0 <= a < r2.len() && 0 <= b < r2.len() && (#[trigger] r2[a]).0 == (#[trigger] r2[b]).0
        implies a == b by {
        let a1 = if a < i { a } else { a + 1 };
        let b1 = if b < i { b } else { b + 1 };
        assert(r2[a] == rows[a1] && r2[b] == rows[b1]);
    }
    let m2 = table_view(r2);
    let m1 = table_view(rows).remove(k);
    assert forall|x: K| #[trigger] m2.contains_key(x) <==> m1.contains_key(x) by {
        if has_key(r2, x) {
            let a = choose|a: int| 0 <= a < r2.len() && (#[trigger] r2[a]).0 == x;
            let a1 = if a < i { a } else { a + 1 };
            assert(r2[a] == rows[a1]);
            assert(a1 != i);
        }
        if has_key(rows, x) && x != k {
            let a = choose|a: int| 0 <= a < rows.len() && (#[trigger] rows[a]).0 == x;
            assert(a != i);
            let a2 = if a < i { a } else { a - 1 };
            assert(r2[a2] == rows[a]);
        }
    }
    assert forall|x: K| #[trigger] m2.contains_key(x) implies m2[x] == m1[x] by {
        let a = choose|a: int| 0 <= a < r2.len() && (#[trigger] r2[a]).0 == x;
        let a1 = if a < i { a } else { a + 1 };
        assert(r2[a] == rows[a1]);
        lemma_table_index(r2, a);
        lemma_table_index(rows, a1);
    }
    assert(m2 =~= m1);
}

/// The first `i + 1` rows stand for the map of the first `i` rows with row `i` added.
pub proof fn lemma_table_take<K, V>(rows: Seq<(K, V)>, i: int)
    requires
        keys_unique(rows),
        0 <= i < rows.len(),
    ensures
        keys_unique(rows.take(i)),
        !has_key(rows.take(i), rows[i].0),
        rows.take(i + 1) == rows.take(i).push(rows[i]),
        table_view(rows.take(i + 1)) == table_view(rows.take(i)).insert(rows[i].0, rows[i].1),
{
    let t = rows.take(i);
    assert(rows.take(i + 1) =~= t.push(rows[i]));
    assert forall|a: int, b: int|
        0 <= a < t.len() && 0 <= b < t.len() && (#[trigger] t[a]).0 == (#[trigger] t[b]).0
        implies a == b by {
        assert(t[a] == rows[a] && t[b] == rows[b]);
    }
    if has_key(t, rows[i].0) {
        let a = choose|a: int| 0 <= a < t.len() && (#[trigger] t[a]).0 == rows[i].0;
        assert(t[a] == rows[a]);
    }
    lemma_table_push(t, rows[i].0, rows[i].1);
}

/// The whole sequence is its longest prefix.
pub proof fn lemma_take_all<K, V>(rows: Seq<(K, V)>)
    ensures
        rows.take(rows.len() as int) == rows,
{
    assert(rows.take(rows.len() as int) =~= rows);
}

} // verus!
