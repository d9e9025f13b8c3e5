use vstd::prelude::*;
use crate::grammar::letter::{Letter, SpecLetter};

verus! {

/// The map that a list of `(key, value)` entries stands for: a later entry for a key
/// replaces an earlier one, as repeated inserts into a map do.
pub open spec fn assoc_map<V>(row: Seq<(SpecLetter, V)>) -> Map<SpecLetter, V>
    decreases row.len(),
{
    if row.len() == 0 {
        Map::empty()
    } else {
        assoc_map(row.drop_last()).insert(row.last().0, row.last().1)
    }
}

/// Reading a table row right after setting an entry gives back the value set, and every
/// other key reads as before (the rows of the ACTION, GOTO and LL(1) tables are such maps).
pub proof fn law_read_after_write<V>(before: Seq<(SpecLetter, V)>, after: Seq<(SpecLetter, V)>, k: SpecLetter, v: V, j: SpecLetter)
    requires
        assoc_map(after) == assoc_map(before).insert(k, v),
    ensures
        assoc_map(after).dom().contains(k),
        assoc_map(after)[k] == v,
        j != k ==> (assoc_map(after).dom().contains(j) <==> assoc_map(before).dom().contains(j)),
        j != k && assoc_map(before).dom().contains(j) ==> assoc_map(after)[j] == assoc_map(before)[j],
{
}

/// The keys of a list of entries.
pub open spec fn row_keys<T>(row: Seq<(Letter, T)>) -> Seq<SpecLetter> {
    row.map_values(|e: (Letter, T)| e.0@)
}

pub proof fn lemma_assoc_push<V>(row: Seq<(SpecLetter, V)>, k: SpecLetter, v: V)
    ensures
        assoc_map(row.push((k, v))) == assoc_map(row).insert(k, v),
{
    assert(row.push((k, v)).drop_last() =~= row);
}

/// The value of a key is that of its last entry.
pub proof fn lemma_assoc_get<V>(row: Seq<(SpecLetter, V)>, i: int)
    requires
        0 <= i < row.len(),
        forall|j: int| i < j < row.len() ==> (#[trigger] row[j]).0 != row[i].0,
    ensures
        assoc_map(row).dom().contains(row[i].0),
        assoc_map(row)[row[i].0] == row[i].1,
    decreases row.len(),
{
    if i < row.len() - 1 {
        let r = row.drop_last();
        assert forall|j: int| i < j < r.len() implies (#[trigger] r[j]).0 != r[i].0 by {
            assert(r[j] == row[j]);
        }
        lemma_assoc_get(r, i);
        assert(row.last().0 != row[i].0) by {
            assert(row[row.len() - 1] == row.last());
        }
    }
}

/// A key without an entry is not in the map.
pub proof fn lemma_assoc_absent<V>(row: Seq<(SpecLetter, V)>, k: SpecLetter)
    requires
        forall|j: int| 0 <= j < row.len() ==> (#[trigger] row[j]).0 != k,
    ensures
        !assoc_map(row).dom().contains(k),
    decreases row.len(),
{
    if row.len() > 0 {
        let r = row.drop_last();
        assert forall|j: int| 0 <= j < r.len() implies (#[trigger] r[j]).0 != k by {
            assert(r[j] == row[j]);
        }
        lemma_assoc_absent(r, k);
        assert(row[row.len() - 1] == row.last());
    }
}

/// Replacing the last entry of a key is inserting into the map.
pub proof fn lemma_assoc_update<V>(row: Seq<(SpecLetter, V)>, i: int, v: V)
    requires
        0 <= i < row.len(),
        forall|j: int| i < j < row.len() ==> (#[trigger] row[j]).0 != row[i].0,
    ensures
        assoc_map(row.update(i, (row[i].0, v))) == assoc_map(row).insert(row[i].0, v),
    decreases row.len(),
{
    let k = row[i].0;
    let nrow = row.update(i, (k, v));
    if i == row.len() - 1 {
        assert(nrow.drop_last() =~= row.drop_last());
        assert(assoc_map(nrow) =~= assoc_map(row).insert(k, v));
    } else {
        let r = row.drop_last();
        assert forall|j: int| i < j < r.len() implies (#[trigger] r[j]).0 != r[i].0 by {
            assert(r[j] == row[j]);
        }
        lemma_assoc_update(r, i, v);
        assert(nrow.drop_last() =~= r.update(i, (k, v)));
        assert(row.last().0 != k) by {
            assert(row[row.len() - 1] == row.last());
        }
        assert(nrow.last() == row.last());
        assert(assoc_map(nrow) =~= assoc_map(row).insert(k, v));
    }
}

/// The domain of the map is the set of keys.
pub proof fn lemma_assoc_dom<V>(row: Seq<(SpecLetter, V)>)
    ensures
        assoc_map(row).dom() == row.map_values(|e: (SpecLetter, V)| e.0).to_set(),
    decreases row.len(),
{
    let ks = row.map_values(|e: (SpecLetter, V)| e.0);
    if row.len() > 0 {
        lemma_assoc_dom(row.drop_last());
        let ks0 = row.drop_last().map_values(|e: (SpecLetter, V)| e.0);
        assert(ks =~= ks0.push(row.last().0));
        ks0.lemma_push_to_set_commute(row.last().0);
    }
    assert(assoc_map(row).dom() =~= ks.to_set());
}

/// The index of the last entry for `k`.
pub fn last_key_index<T>(row: &Vec<(Letter, T)>, k: &Letter) -> (res: Option<usize>)
    ensures
        match res {
            Some(i) => i < row@.len() && row@[i as int].0@ == k@ && forall|j: int|
                i < j < row@.len() ==> (#[trigger] row@[j]).0@ != k@,
            None => forall|j: int| 0 <= j < row@.len() ==> (#[trigger] row@[j]).0@ != k@,
        },
{
    let mut i = row.len();
    while i > 0
        invariant
            i <= row@.len(),
            forall|j: int| i <= j < row@.len() ==> (#[trigger] row@[j]).0@ != k@,
        decreases i,
    {
        i = i - 1;
        if row[i].0 == *k {
            return Some(i);
        }
    }
    None
}

} // verus!
