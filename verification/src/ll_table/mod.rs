use vstd::prelude::*;
use crate::grammar::letter::{Letter, SpecLetter};
use crate::grammar::rule::{Rule, SpecRule};
use crate::utils::assoc::{assoc_map, last_key_index, lemma_assoc_push, lemma_assoc_get, lemma_assoc_absent, lemma_assoc_update};

pub mod analysis;

verus! {

/// The abstract value of an LL table entry.
pub enum SpecLLItem {
    Error,
    Action(SpecRule),
}

/// An entry of the LL(1) table: no production, or the production to expand by.
#[derive(Debug)]
pub enum LLTableItem {
    Error,
    Action(Rule),
}

impl View for LLTableItem {
    type V = SpecLLItem;

    open spec fn view(&self) -> SpecLLItem {
        match self {
            LLTableItem::Error => SpecLLItem::Error,
            LLTableItem::Action(r) => SpecLLItem::Action(r@),
        }
    }
}

impl LLTableItem {
    pub fn is_err(&self) -> (res: bool)
        ensures
            res == (self@ is Error),
    {
        match self {
            LLTableItem::Error => true,
            _ => false,
        }
    }

    /// The production of an entry that has one.
    pub fn value(&self) -> (res: &Rule)
        requires
            self@ is Action,
        ensures
            SpecLLItem::Action(res@) == self@,
    {
        match self {
            LLTableItem::Action(r) => r,
            LLTableItem::Error => vstd::pervasive::unreached(),
        }
    }
}

/// The abstract value of a row.
pub open spec fn ll_row_view(row: Seq<(Letter, LLTableItem)>) -> Seq<(SpecLetter, SpecLLItem)> {
    row.map_values(|e: (Letter, LLTableItem)| (e.0@, e.1@))
}

/// A row as a map from terminals and the end marker.
pub open spec fn ll_row_map(row: Seq<(Letter, LLTableItem)>) -> Map<SpecLetter, SpecLLItem> {
    assoc_map(ll_row_view(row))
}

/// Sets the entry of `k`, as a map insert.
pub fn ll_put(row: &mut Vec<(Letter, LLTableItem)>, k: Letter, v: LLTableItem)
    ensures
        ll_row_map(final(row)@) == ll_row_map(old(row)@).insert(k@, v@),
{
    let ghost old_view = ll_row_view(row@);
    let ghost vv = v@;
    match last_key_index(row, &k) {
        Some(i) => {
            proof {
                assert forall|j: int| i < j < old_view.len() implies (#[trigger] old_view[j]).0 != old_view[i as int].0 by {
                    assert(old_view[j].0 == row@[j].0@);
                }
                lemma_assoc_update(old_view, i as int, vv);
            }
            row.set(i, (k, v));
            proof {
                assert(ll_row_view(row@) =~= old_view.update(i as int, (old_view[i as int].0, vv)));
            }
        },
        None => {
            let ghost kv = k@;
            row.push((k, v));
            proof {
                lemma_assoc_push(old_view, kv, vv);
                assert(ll_row_view(row@) =~= old_view.push((kv, vv)));
            }
        },
    }
}

/// Whether the row has an entry for `k`.
pub fn ll_has(row: &Vec<(Letter, LLTableItem)>, k: &Letter) -> (res: bool)
    ensures
        res == ll_row_map(row@).dom().contains(k@),
{
    let ghost vw = ll_row_view(row@);
    match last_key_index(row, k) {
        Some(i) => {
            proof {
                assert forall|j: int| i < j < vw.len() implies (#[trigger] vw[j]).0 != vw[i as int].0 by {
                    assert(vw[j].0 == row@[j].0@);
                }
                lemma_assoc_get(vw, i as int);
            }
            true
        },
        None => {
            proof {
                assert forall|j: int| 0 <= j < vw.len() implies (#[trigger] vw[j]).0 != k@ by {
                    assert(vw[j].0 == row@[j].0@);
                }
                lemma_assoc_absent(vw, k@);
            }
            false
        },
    }
}

/// An LL(1) parse table: for each non terminal, its row.
#[derive(Debug)]
pub struct LLTable {
    pub data: Vec<(Letter, Vec<(Letter, LLTableItem)>)>,
}

impl LLTable {
    /// The non terminals of the table, in order.
    pub open spec fn keys(&self) -> Seq<SpecLetter> {
        self.data@.map_values(|e: (Letter, Vec<(Letter, LLTableItem)>)| e.0@)
    }

    /// The row of the `i`-th non terminal as a map.
    pub open spec fn row(&self, i: int) -> Map<SpecLetter, SpecLLItem> {
        ll_row_map(self.data@[i].1@)
    }
}

} // verus!
