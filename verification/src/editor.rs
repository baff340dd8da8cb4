//! The ragdoll editor: the order in which selections are saved, from the one
//! without parents along their joints.
use vstd::prelude::*;

verus! {

/// What ordering a selection depends on: its sprite entity, the entities its
/// joints lead to (in the joints' order), and whether it has parents.
pub struct SelectionLinks {
    pub entity: u64,
    pub children: Vec<u64>,
    pub has_parents: bool,
}

/// The first selection from index `j` on whose entity is `e`.
pub open spec fn entity_index_from(sel: Seq<SelectionLinks>, e: u64, j: int) -> Option<int>
    decreases sel.len() - j,
{
    if j < 0 || j >= sel.len() {
        Option::None
    } else if sel[j].entity == e {
        Option::Some(j)
    } else {
        entity_index_from(sel, e, j + 1)
    }
}

/// The first selection whose entity is `e`.
pub open spec fn entity_index(sel: Seq<SelectionLinks>, e: u64) -> Option<int> {
    entity_index_from(sel, e, 0)
}

/// The first selection from index `j` on without parents.
pub open spec fn first_root_from(sel: Seq<SelectionLinks>, j: int) -> Option<int>
    decreases sel.len() - j,
{
    if j < 0 || j >= sel.len() {
        Option::None
    } else if !sel[j].has_parents {
        Option::Some(j)
    } else {
        first_root_from(sel, j + 1)
    }
}

/// The first selection without parents.
pub open spec fn first_root(sel: Seq<SelectionLinks>) -> Option<int> {
    first_root_from(sel, 0)
}

/// Following the joints `children` of one selection, in order; the state holds
/// the entities reached so far, the selections reached in this pass, and whether
/// every entity reached has a selection. An entity already reached is skipped.
pub open spec fn follow_joints(sel: Seq<SelectionLinks>, st: (Set<u64>, Seq<usize>, bool), children: Seq<u64>)
    -> (Set<u64>, Seq<usize>, bool)
    decreases children.len(),
{
    if children.len() == 0 {
        st
    } else {
        let prev = follow_joints(sel, st, children.drop_last());
        let c = children.last();
        if prev.0.contains(c) {
            prev
        } else {
            match entity_index(sel, c) {
                Option::Some(i) => (prev.0.insert(c), prev.1.push(i as usize), prev.2),
                Option::None => (prev.0, prev.1, false),
            }
        }
    }
}

/// One pass over the selections reached in the pass before.
pub open spec fn joints_round(sel: Seq<SelectionLinks>, reached: Set<u64>, starters: Seq<usize>)
    -> (Set<u64>, Seq<usize>, bool)
    decreases starters.len(),
{
    if starters.len() == 0 {
        (reached, Seq::empty(), true)
    } else {
        let prev = joints_round(sel, reached, starters.drop_last());
        follow_joints(sel, prev, sel[starters.last() as int].children@)
    }
}

/// The selections whose entity has not been reached.
pub open spec fn entities_unreached(sel: Seq<SelectionLinks>, reached: Set<u64>) -> nat
    decreases sel.len(),
{
    if sel.len() == 0 {
        0
    } else {
        entities_unreached(sel.drop_last(), reached) + if reached.contains(sel.last().entity) { 0nat } else { 1nat }
    }
}

/// The passes from `starters` on: the selections reached, in order, and whether
/// every entity reached has a selection. Passes go on while a pass reaches new
/// selections.
pub open spec fn joints_order(sel: Seq<SelectionLinks>, reached: Set<u64>, starters: Seq<usize>) -> (Seq<usize>, bool)
    decreases entities_unreached(sel, reached),
{
    let r = joints_round(sel, reached, starters);
    if r.1.len() == 0 || entities_unreached(sel, r.0) >= entities_unreached(sel, reached) {
        (r.1, r.2)
    } else {
        let rest = joints_order(sel, r.0, r.1);
        (r.1 + rest.0, r.2 && rest.1)
    }
}

/// The order of the selections: the first one without parents, then the
/// selections reached along the joints, pass by pass.
pub open spec fn selection_order(sel: Seq<SelectionLinks>) -> Seq<usize> {
    let root = first_root(sel).unwrap();
    seq![root as usize] + joints_order(sel, Set::empty(), seq![root as usize]).0
}

/// The selections can be ordered: one has no parents, every entity reached
/// along the joints has a selection, and no more selections are reached than
/// there are.
pub open spec fn sortable(sel: Seq<SelectionLinks>) -> bool {
    &&& first_root(sel) is Some
    &&& joints_order(sel, Set::empty(), seq![first_root(sel).unwrap() as usize]).1
    &&& selection_order(sel).len() <= sel.len()
}

proof fn lemma_unreached_insert(sel: Seq<SelectionLinks>, v: Set<u64>, e: u64, i: int)
    requires
        0 <= i < sel.len(),
        sel[i].entity == e,
        !v.contains(e),
    ensures
        entities_unreached(sel, v.insert(e)) < entities_unreached(sel, v),
    decreases sel.len(),
{
    if i < sel.len() - 1 {
        lemma_unreached_insert(sel.drop_last(), v, e, i);
        lemma_unreached_mono(sel.drop_last(), v, e);
    } else {
        lemma_unreached_mono(sel.drop_last(), v, e);
    }
}

proof fn lemma_unreached_mono(sel: Seq<SelectionLinks>, v: Set<u64>, e: u64)
    ensures
        entities_unreached(sel, v.insert(e)) <= entities_unreached(sel, v),
    decreases sel.len(),
{
    if sel.len() > 0 {
        lemma_unreached_mono(sel.drop_last(), v, e);
    }
}

proof fn lemma_entity_index_found(sel: Seq<SelectionLinks>, e: u64, j: int)
    requires
        0 <= j,
    ensures
        entity_index_from(sel, e, j) matches Option::Some(i) ==> j <= i < sel.len() && sel[i].entity == e,
    decreases sel.len() - j,
{
    if j < sel.len() && sel[j].entity != e {
        lemma_entity_index_found(sel, e, j + 1);
    }
}

proof fn lemma_first_root_found(sel: Seq<SelectionLinks>, j: int)
    requires
        0 <= j,
    ensures
        first_root_from(sel, j) matches Option::Some(i) ==> j <= i < sel.len(),
    decreases sel.len() - j,
{
    if j < sel.len() && sel[j].has_parents {
        lemma_first_root_found(sel, j + 1);
    }
}

/// Following joints only adds entities, reaches valid selections, and reaches a
/// new selection only by reaching a new entity.
proof fn lemma_follow_progress(sel: Seq<SelectionLinks>, st: (Set<u64>, Seq<usize>, bool), children: Seq<u64>)
    requires
        forall|i: int| 0 <= i < st.1.len() ==> (#[trigger] st.1[i]) < sel.len(),
    ensures
        ({
            let r = follow_joints(sel, st, children);
            &&& entities_unreached(sel, r.0) <= entities_unreached(sel, st.0)
            &&& r.1.len() >= st.1.len()
            &&& r.1.len() > st.1.len() ==> entities_unreached(sel, r.0) < entities_unreached(sel, st.0)
            &&& forall|i: int| 0 <= i < r.1.len() ==> (#[trigger] r.1[i]) < sel.len()
            &&& r.1.take(st.1.len() as int) == st.1
            &&& st.0.subset_of(r.0)
            &&& (!st.2 ==> !r.2)
        }),
    decreases children.len(),
{
    if children.len() > 0 {
        let prev = follow_joints(sel, st, children.drop_last());
        lemma_follow_progress(sel, st, children.drop_last());
        let c = children.last();
        if !prev.0.contains(c) {
            lemma_entity_index_found(sel, c, 0);
            if let Option::Some(i) = entity_index(sel, c) {
                lemma_unreached_insert(sel, prev.0, c, i);
                let r = follow_joints(sel, st, children);
                assert(r.1 == prev.1.push(i as usize));
                assert forall|k: int| 0 <= k < r.1.len() implies (#[trigger] r.1[k]) < sel.len() by {
                    if k < prev.1.len() {
                        assert(r.1[k] == prev.1[k]);
                    }
                }
                assert(r.1.take(st.1.len() as int) =~= prev.1.take(st.1.len() as int));
            }
        }
    }
}

/// A pass reaches valid selections, only adds entities, and reaches new
/// selections only by reaching new entities.
proof fn lemma_round_progress(sel: Seq<SelectionLinks>, reached: Set<u64>, starters: Seq<usize>)
    ensures
        ({
            let r = joints_round(sel, reached, starters);
            &&& entities_unreached(sel, r.0) <= entities_unreached(sel, reached)
            &&& r.1.len() > 0 ==> entities_unreached(sel, r.0) < entities_unreached(sel, reached)
            &&& forall|i: int| 0 <= i < r.1.len() ==> (#[trigger] r.1[i]) < sel.len()
        }),
    decreases starters.len(),
{
    if starters.len() > 0 {
        let prev = joints_round(sel, reached, starters.drop_last());
        lemma_round_progress(sel, reached, starters.drop_last());
        lemma_follow_progress(sel, prev, sel[starters.last() as int].children@);
    }
}

/// Where the entity `e` has a selection, if it has one.
fn find_entity(selections: &Vec<SelectionLinks>, e: u64) -> (r: Option<usize>)
    ensures
        match r {
            Option::Some(i) => entity_index(selections@, e) == Option::Some(i as int),
            Option::None => entity_index(selections@, e) is None,
        },
{
    let mut j: usize = 0;
    while j < selections.len()
        invariant
            j <= selections@.len(),
            entity_index(selections@, e) == entity_index_from(selections@, e, j as int),
        decreases selections@.len() - j,
    {
        if selections[j].entity == e {
            return Some(j);
        }
        j = j + 1;
    }
    None
}

fn contains_entity(v: &Vec<u64>, e: u64) -> (r: bool)
    ensures
        r == v@.contains(e),
{
    let mut i: usize = 0;
    while i < v.len()
        invariant
            i <= v@.len(),
            forall|k: int| 0 <= k < i ==> v@[k] != e,
        decreases v@.len() - i,
    {
        if v[i] == e {
            return true;
        }
        i = i + 1;
    }
    false
}

/// The slots of a selection order: slot `i` names the selection saved `i`-th,
/// the slots past the order are empty.
pub open spec fn order_slots(sel: Seq<SelectionLinks>) -> Seq<Option<usize>> {
    Seq::new(sel.len(), |i: int| if i < selection_order(sel).len() {
        Option::Some(selection_order(sel)[i])
    } else {
        Option::None
    })
}

/// The order in which the selections are saved (see `selection_order`), one
/// slot per selection, or none when they cannot be ordered (see `sortable`).
pub fn try_sort_selections(selections: &Vec<SelectionLinks>) -> (r: Option<Vec<Option<usize>>>)
    ensures
        r is Some == sortable(selections@),
        r matches Option::Some(v) ==> v@ == order_slots(selections@),
{
    let ghost sel = selections@;
    let mut j: usize = 0;
    while j < selections.len() && selections[j].has_parents
        invariant
            j <= sel.len(),
            sel == selections@,
            first_root(sel) == first_root_from(sel, j as int),
        decreases sel.len() - j,
    {
        j = j + 1;
    }
    if j >= selections.len() {
        return None;
    }
    proof {
        lemma_first_root_found(sel, 0);
    }
    let root = j;
    assert(first_root(sel) == Option::Some(root as int));
    let mut order: Vec<usize> = Vec::new();
    order.push(root);
    let mut visited: Vec<u64> = Vec::new();
    let mut starters: Vec<usize> = Vec::new();
    starters.push(root);
    let ghost full = joints_order(sel, Set::empty(), seq![root]);
    proof {
        assert(starters@ =~= seq![root]);
        assert(visited@.to_set() =~= Set::<u64>::empty());
        assert(order@ =~= seq![root]);
    }
    loop
        invariant_except_break
            forall|i: int| 0 <= i < starters@.len() ==> (#[trigger] starters@[i]) < sel.len(),
            order@ + joints_order(sel, visited@.to_set(), starters@).0 == seq![root] + full.0,
            full.1 == joints_order(sel, visited@.to_set(), starters@).1,
        invariant
            sel == selections@,
            first_root(sel) == Option::Some(root as int),
            full == joints_order(sel, Set::empty(), seq![root]),
        ensures
            order@ == seq![root] + full.0,
            full.1,
        decreases entities_unreached(sel, visited@.to_set()),
    {
        let ghost v0 = visited@.to_set();
        let ghost cur = starters@;
        let ghost order0 = order@;
        let mut next: Vec<usize> = Vec::new();
        let mut i: usize = 0;
        while i < starters.len()
            invariant
                sel == selections@,
                first_root(sel) == Option::Some(root as int),
                full == joints_order(sel, Set::empty(), seq![root]),
                full.1 == joints_order(sel, v0, cur).1,
                cur == starters@,
                forall|k: int| 0 <= k < cur.len() ==> (#[trigger] cur[k]) < sel.len(),
                i <= cur.len(),
                order@ == order0 + next@,
                ({
                    let r = joints_round(sel, v0, cur.take(i as int));
                    &&& visited@.to_set() == r.0
                    &&& next@ == r.1
                    &&& r.2
                }),
            decreases cur.len() - i,
        {
            proof {
                assert(cur.take(i + 1).drop_last() =~= cur.take(i as int));
            }
            let s = starters[i];
            let kids = &selections[s].children;
            let ghost st0 = (visited@.to_set(), next@, true);
            let mut k: usize = 0;
            while k < kids.len()
                invariant
                    sel == selections@,
                    first_root(sel) == Option::Some(root as int),
                    full == joints_order(sel, Set::empty(), seq![root]),
                    full.1 == joints_order(sel, v0, cur).1,
                    cur == starters@,
                    i < cur.len(),
                    s == cur[i as int],
                    st0 == joints_round(sel, v0, cur.take(i as int)),
                    kids@ == sel[s as int].children@,
                    k <= kids@.len(),
                    order@ == order0 + next@,
                    ({
                        let r = follow_joints(sel, st0, kids@.take(k as int));
                        &&& visited@.to_set() == r.0
                        &&& next@ == r.1
                        &&& r.2
                    }),
                decreases kids@.len() - k,
            {
                let c = kids[k];
                proof {
                    assert(kids@.take(k + 1).drop_last() =~= kids@.take(k as int));
                    assert(kids@.take(k + 1).last() == c);
                }
                if !contains_entity(&visited, c) {
                    let found = find_entity(selections, c);
                    match found {
                        Some(idx) => {
                            let ghost vb = visited@;
                            visited.push(c);
                            next.push(idx);
                            order.push(idx);
                            proof {
                                vb.lemma_push_to_set_commute(c);
                                assert(order@ =~= order0 + next@);
                            }
                        },
                        None => {
                            proof {
                                assert(!follow_joints(sel, st0, kids@.take(k + 1)).2);
                                if follow_joints(sel, st0, kids@).2 {
                                    lemma_follow_prefix_ok(sel, st0, kids@, k + 1);
                                }
                                let t = cur.take(i + 1);
                                assert(t.drop_last() =~= cur.take(i as int));
                                assert(t.last() == s);
                                assert(joints_round(sel, v0, t) == follow_joints(
                                    sel,
                                    joints_round(sel, v0, t.drop_last()),
                                    sel[t.last() as int].children@,
                                ));
                                assert(!follow_joints(sel, st0, kids@).2);
                                assert(!joints_round(sel, v0, t).2);
                                if joints_round(sel, v0, cur).2 {
                                    lemma_round_prefix_ok(sel, v0, cur, i + 1);
                                }
                                assert(!full.1);
                            }
                            return None;
                        },
                    }
                }
                k = k + 1;
            }
            proof {
                assert(kids@.take(k as int) =~= kids@);
                assert(cur.take(i + 1).last() == s);
            }
            i = i + 1;
        }
        proof {
            assert(cur.take(i as int) =~= cur);
            lemma_round_progress(sel, v0, cur);
        }
        if next.len() == 0 {
            proof {
                assert(joints_order(sel, v0, cur).0 =~= Seq::<usize>::empty());
                assert(order@ =~= seq![root] + full.0);
            }
            break;
        }
        proof {
            let r = joints_round(sel, v0, cur);
            let rest = joints_order(sel, r.0, r.1);
            assert(visited@.to_set() == r.0);
            assert(next@ == r.1);
            assert(r.1.len() > 0);
            assert(entities_unreached(sel, r.0) < entities_unreached(sel, v0));
            assert(joints_order(sel, v0, cur) == (r.1 + rest.0, r.2 && rest.1));
            assert(order0 + (r.1 + rest.0) =~= order@ + rest.0);
            assert(order@ + joints_order(sel, visited@.to_set(), next@).0 == seq![root] + full.0);
        }
        starters = next;
    }
    if order.len() > selections.len() {
        return None;
    }
    let mut r: Vec<Option<usize>> = Vec::new();
    let mut i: usize = 0;
    while i < selections.len()
        invariant
            i <= sel.len(),
            sel == selections@,
            order@ == selection_order(sel),
            order@.len() <= sel.len(),
            r@.len() == i,
            forall|k: int| 0 <= k < i ==> #[trigger] r@[k] == order_slots(sel)[k],
        decreases sel.len() - i,
    {
        if i < order.len() {
            r.push(Some(order[i]));
        } else {
            r.push(None);
        }
        i = i + 1;
    }
    assert(r@ =~= order_slots(sel));
    Some(r)
}

/// The order in which the selections are saved (see `selection_order`), one
/// slot per selection: slot `i` names the selection saved `i`-th, and the slots
/// past the order hold an empty selection.
pub fn sort_selections(selections: &Vec<SelectionLinks>) -> (r: Vec<Option<usize>>)
    requires
        sortable(selections@),
    ensures
        r@ == order_slots(selections@),
{
    match try_sort_selections(selections) {
        Some(v) => v,
        None => Vec::new(),
    }
}

/// A pass whose every entity has a selection has every part of it so.
proof fn lemma_round_prefix_ok(sel: Seq<SelectionLinks>, v: Set<u64>, starters: Seq<usize>, n: int)
    requires
        0 <= n <= starters.len(),
        joints_round(sel, v, starters).2,
    ensures
        joints_round(sel, v, starters.take(n)).2,
    decreases starters.len(),
{
    if n < starters.len() {
        let prev = joints_round(sel, v, starters.drop_last());
        lemma_follow_flag(sel, prev, sel[starters.last() as int].children@);
        lemma_round_prefix_ok(sel, v, starters.drop_last(), n);
        assert(starters.drop_last().take(n) =~= starters.take(n));
    } else {
        assert(starters.take(n) =~= starters);
    }
}

/// Following joints never clears a failure.
proof fn lemma_follow_flag(sel: Seq<SelectionLinks>, st: (Set<u64>, Seq<usize>, bool), children: Seq<u64>)
    ensures
        follow_joints(sel, st, children).2 ==> st.2,
    decreases children.len(),
{
    if children.len() > 0 {
        lemma_follow_flag(sel, st, children.drop_last());
    }
}

/// Following joints without failure has every prefix without failure.
proof fn lemma_follow_prefix_ok(sel: Seq<SelectionLinks>, st: (Set<u64>, Seq<usize>, bool), children: Seq<u64>, n: int)
    requires
        0 <= n <= children.len(),
        follow_joints(sel, st, children).2,
    ensures
        follow_joints(sel, st, children.take(n)).2,
    decreases children.len(),
{
    if n < children.len() {
        let prev = follow_joints(sel, st, children.drop_last());
        lemma_follow_prefix_ok(sel, st, children.drop_last(), n);
        assert(children.drop_last().take(n) =~= children.take(n));
    } else {
        assert(children.take(n) =~= children);
    }
}


/// The file button of the editor's top bar, and whether its window is open.
pub struct FileButton {
    pub is_opened: bool,
}

impl FileButton {
    /// Pressing the button: it asks to open the file window when it was closed
    /// and to close it when it was open; the button's state follows.
    pub fn press(&mut self) -> (to_open: bool)
        ensures
            to_open == !old(self).is_opened,
            final(self).is_opened == !old(self).is_opened,
    {
        let to_open = !self.is_opened;
        self.is_opened = !self.is_opened;
        to_open
    }
}

} // verus!
