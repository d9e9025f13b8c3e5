use vstd::prelude::*;

pub mod analysis;
use crate::grammar::letter::{Letter, SpecLetter};
use crate::grammar::rule::{Rule, SpecRule};
use crate::utils::assoc::{assoc_map, last_key_index, lemma_assoc_push, lemma_assoc_get, lemma_assoc_absent, lemma_assoc_update};

verus! {

/// An entry of the GOTO table: no transition, or the next state.
#[derive(Debug, Clone, Copy)]
pub enum GotoTableItem {
    Error,
    Step(usize),
}

impl GotoTableItem {
    /// The next state.
    pub fn get_state(&self) -> (res: usize)
        requires
            *self is Step,
        ensures
            res == self->Step_0,
    {
        match self {
            GotoTableItem::Step(x) => *x,
            GotoTableItem::Error => 0,
        }
    }
}

/// The abstract value of an ACTION table entry.
pub enum SpecAction {
    Step(usize),
    Reduce(SpecRule),
    Accept,
    Error,
}

/// An entry of the ACTION table: shift to a state, reduce by a production, accept, or fail.
#[derive(Debug)]
pub enum ActionTableItem {
    Step(usize),
    Reduce(Rule),
    Accept,
    Error,
}

impl View for ActionTableItem {
    type V = SpecAction;

    open spec fn view(&self) -> SpecAction {
        match self {
            ActionTableItem::Step(s) => SpecAction::Step(*s),
            ActionTableItem::Reduce(r) => SpecAction::Reduce(r@),
            ActionTableItem::Accept => SpecAction::Accept,
            ActionTableItem::Error => SpecAction::Error,
        }
    }
}

impl Clone for ActionTableItem {
    fn clone(&self) -> (res: Self)
        ensures
            res@ == self@,
    {
        match self {
            ActionTableItem::Step(s) => ActionTableItem::Step(*s),
            ActionTableItem::Reduce(r) => ActionTableItem::Reduce(r.clone()),
            ActionTableItem::Accept => ActionTableItem::Accept,
            ActionTableItem::Error => ActionTableItem::Error,
        }
    }
}

/// The abstract value of a row of the GOTO table.
pub open spec fn goto_row_view(row: Seq<(Letter, GotoTableItem)>) -> Seq<(SpecLetter, GotoTableItem)> {
    row.map_values(|e: (Letter, GotoTableItem)| (e.0@, e.1))
}

/// The abstract value of a row of the ACTION table.
pub open spec fn action_row_view(row: Seq<(Letter, ActionTableItem)>) -> Seq<(SpecLetter, SpecAction)> {
    row.map_values(|e: (Letter, ActionTableItem)| (e.0@, e.1@))
}

/// The GOTO row as a map from non terminals.
pub open spec fn goto_map(row: Seq<(Letter, GotoTableItem)>) -> Map<SpecLetter, GotoTableItem> {
    assoc_map(goto_row_view(row))
}

/// The ACTION row as a map from terminals and the end marker.
pub open spec fn action_map(row: Seq<(Letter, ActionTableItem)>) -> Map<SpecLetter, SpecAction> {
    assoc_map(action_row_view(row))
}

/// Sets the GOTO entry of `k`, as a map insert.
pub fn goto_put(row: &mut Vec<(Letter, GotoTableItem)>, k: Letter, v: GotoTableItem)
    ensures
        goto_map(final(row)@) == goto_map(old(row)@).insert(k@, v),
{
    let ghost old_view = goto_row_view(row@);
    match last_key_index(row, &k) {
        Some(i) => {
            proof {
                assert forall|j: int| i < j < old_view.len() implies (#[trigger] old_view[j]).0 != old_view[i as int].0 by {
                    assert(old_view[j].0 == row@[j].0@);
                }
                lemma_assoc_update(old_view, i as int, v);
            }
            row.set(i, (k, v));
            proof {
                assert(goto_row_view(row@) =~= old_view.update(i as int, (old_view[i as int].0, v)));
            }
        },
        None => {
            let ghost kv = k@;
            row.push((k, v));
            proof {
                lemma_assoc_push(old_view, kv, v);
                assert(goto_row_view(row@) =~= old_view.push((kv, v)));
            }
        },
    }
}

/// Sets the ACTION entry of `k`, as a map insert.
pub fn action_put(row: &mut Vec<(Letter, ActionTableItem)>, k: Letter, v: ActionTableItem)
    ensures
        action_map(final(row)@) == action_map(old(row)@).insert(k@, v@),
{
    let ghost old_view = action_row_view(row@);
    let ghost vv = v@;
    match last_key_index(row, &k) {
        Some(i) => {
            proof {
                assert forall|j: int| i < j < old_view.len() implies (#[trigger] old_view[j]).0 != old_view[i as int].0 by {
                    assert(old_view[j].0 == row@[j].0@);
                }
                lemma_assoc_update(old_view, i as int, vv);
            }
            row.set(i, (k, v));
            proof {
                assert(action_row_view(row@) =~= old_view.update(i as int, (old_view[i as int].0, vv)));
            }
        },
        None => {
            let ghost kv = k@;
            row.push((k, v));
            proof {
                lemma_assoc_push(old_view, kv, vv);
                assert(action_row_view(row@) =~= old_view.push((kv, vv)));
            }
        },
    }
}

/// The GOTO entry of `k`, if the row has one.
pub fn goto_get(row: &Vec<(Letter, GotoTableItem)>, k: &Letter) -> (res: Option<GotoTableItem>)
    ensures
        match res {
            Some(v) => goto_map(row@).dom().contains(k@) && goto_map(row@)[k@] == v,
            None => !goto_map(row@).dom().contains(k@),
        },
{
    let ghost vw = goto_row_view(row@);
    match last_key_index(row, k) {
        Some(i) => {
            proof {
                assert forall|j: int| i < j < vw.len() implies (#[trigger] vw[j]).0 != vw[i as int].0 by {
                    assert(vw[j].0 == row@[j].0@);
                }
                lemma_assoc_get(vw, i as int);
            }
            Some(row[i].1)
        },
        None => {
            proof {
                assert forall|j: int| 0 <= j < vw.len() implies (#[trigger] vw[j]).0 != k@ by {
                    assert(vw[j].0 == row@[j].0@);
                }
                lemma_assoc_absent(vw, k@);
            }
            None
        },
    }
}

/// The ACTION entry of `k`, if the row has one.
pub fn action_get<'a>(row: &'a Vec<(Letter, ActionTableItem)>, k: &Letter) -> (res: Option<&'a ActionTableItem>)
    ensures
        match res {
            Some(v) => action_map(row@).dom().contains(k@) && action_map(row@)[k@] == v@,
            None => !action_map(row@).dom().contains(k@),
        },
{
    let ghost vw = action_row_view(row@);
    match last_key_index(row, k) {
        Some(i) => {
            proof {
                assert forall|j: int| i < j < vw.len() implies (#[trigger] vw[j]).0 != vw[i as int].0 by {
                    assert(vw[j].0 == row@[j].0@);
                }
                lemma_assoc_get(vw, i as int);
            }
            Some(&row[i].1)
        },
        None => {
            proof {
                assert forall|j: int| 0 <= j < vw.len() implies (#[trigger] vw[j]).0 != k@ by {
                    assert(vw[j].0 == row@[j].0@);
                }
                lemma_assoc_absent(vw, k@);
            }
            None
        },
    }
}

/// An LR parse table: for each state an ACTION row and a GOTO row.
#[derive(Debug)]
pub struct LRTable {
    pub goto: Vec<Vec<(Letter, GotoTableItem)>>,
    pub action: Vec<Vec<(Letter, ActionTableItem)>>,
}

impl LRTable {
    /// The GOTO rows as maps.
    pub open spec fn goto_maps(&self) -> Seq<Map<SpecLetter, GotoTableItem>> {
        self.goto@.map_values(|r: Vec<(Letter, GotoTableItem)>| goto_map(r@))
    }

    /// The ACTION rows as maps.
    pub open spec fn action_maps(&self) -> Seq<Map<SpecLetter, SpecAction>> {
        self.action@.map_values(|r: Vec<(Letter, ActionTableItem)>| action_map(r@))
    }
}

/// An LALR(1) parse table: the rows of the merged states, and for each merged state
/// the LR(1) states it was made of.
#[derive(Debug)]
pub struct LALRTable {
    pub goto: Vec<Vec<(Letter, GotoTableItem)>>,
    pub action: Vec<Vec<(Letter, ActionTableItem)>>,
    pub state_map: Vec<Vec<usize>>,
}

impl LALRTable {
    pub open spec fn goto_maps(&self) -> Seq<Map<SpecLetter, GotoTableItem>> {
        self.goto@.map_values(|r: Vec<(Letter, GotoTableItem)>| goto_map(r@))
    }

    pub open spec fn action_maps(&self) -> Seq<Map<SpecLetter, SpecAction>> {
        self.action@.map_values(|r: Vec<(Letter, ActionTableItem)>| action_map(r@))
    }

    /// The parse table without the map of merged states.
    pub fn into_lr_table(self) -> (res: LRTable)
        ensures
            res.goto_maps() == self.goto_maps(),
            res.action_maps() == self.action_maps(),
    {
        let res = LRTable { goto: self.goto, action: self.action };
        assert(res.goto_maps() =~= self.goto_maps());
        assert(res.action_maps() =~= self.action_maps());
        res
    }
}

} // verus!
