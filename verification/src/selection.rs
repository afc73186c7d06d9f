//! Selection of blocks in the sidebar tree: a single selection, a
//! multi-selection made with the platform key, dragging and dropping.
use vstd::prelude::*;

verus! {

/// An item being dragged: a tab or a tree entry.
pub struct DraggedItem {
    pub label: Option<String>,
    pub owner_pane_id: Option<u128>,
    pub block_id: Option<u128>,
    pub selections: Vec<u128>,
}

/// The blocks a drag carries: its own block first, if any, then the
/// multi-selection it was started from.
pub open spec fn spec_collect_selections(block_id: Option<u128>, selections: Seq<u128>) -> Seq<u128> {
    match block_id {
        Some(b) => seq![b] + selections,
        None => selections,
    }
}

/// The blocks that a drag or drop moves.
pub fn collect_selections(dragged: &DraggedItem) -> (blocks: Vec<u128>)
    ensures
        blocks@ == spec_collect_selections(dragged.block_id, dragged.selections@),
{
    let mut blocks_to_drag: Vec<u128> = Vec::new();
    if let Some(dragged_block) = dragged.block_id {
        blocks_to_drag.push(dragged_block);
    }
    let mut i: usize = 0;
    while i < dragged.selections.len()
        invariant
            i <= dragged.selections@.len(),
            blocks_to_drag@ == spec_collect_selections(
                dragged.block_id,
                dragged.selections@.take(i as int),
            ),
        decreases dragged.selections@.len() - i,
    {
        blocks_to_drag.push(dragged.selections[i]);
        i = i + 1;
        proof {
            assert(dragged.selections@.take(i as int) =~= dragged.selections@.take(i - 1).push(
                dragged.selections@[i - 1],
            ));
        }
    }
    proof {
        assert(dragged.selections@.take(i as int) =~= dragged.selections@);
    }
    blocks_to_drag
}

/// A request to give blocks a new parent (`None`: move them to the root).
pub struct ParentUpdate {
    pub new_parent: Option<u128>,
    pub block_ids: Vec<u128>,
}

/// The abstract state of a tree selection.
pub struct SelectionModel {
    pub selected: Option<u128>,
    pub multi: Set<u128>,
    pub dragged_target: Option<u128>,
}

/// The selection state of a sidebar tree.
pub struct TreeSelection {
    /// The block selected with a plain (right) click.
    pub selected_block: Option<u128>,
    /// The blocks selected with the platform key held, without duplicates.
    pub selected_blocks: Vec<u128>,
    /// The block a dragged item currently hovers over.
    pub dragged_target_block: Option<u128>,
}

impl TreeSelection {
    pub closed spec fn multi_seq(&self) -> Seq<u128> {
        self.selected_blocks@
    }

    pub closed spec fn model(&self) -> SelectionModel {
        SelectionModel {
            selected: self.selected_block,
            multi: self.multi_seq().to_set(),
            dragged_target: self.dragged_target_block,
        }
    }

    /// The multi-selection holds no block twice.
    pub closed spec fn well_formed(&self) -> bool {
        self.multi_seq().no_duplicates()
    }

    /// Nothing selected.
    pub fn new() -> (s: TreeSelection)
        ensures
            s.well_formed(),
            s.model() == (SelectionModel { selected: None, multi: Set::empty(), dragged_target: None }),
    {
        let s = TreeSelection { selected_block: None, selected_blocks: Vec::new(), dragged_target_block: None };
        proof {
            assert(s.multi_seq().to_set() =~= Set::empty());
        }
        s
    }

    /// The multi-selected blocks, each once.
    pub fn selected_blocks(&self) -> (v: Vec<u128>)
        requires
            self.well_formed(),
        ensures
            v@.to_set() == self.model().multi,
            v@.no_duplicates(),
    {
        self.selected_blocks.clone()
    }

    /// Whether the block is multi-selected.
    pub fn is_multi_selected(&self, block_id: u128) -> (b: bool)
        ensures
            b == self.model().multi.contains(block_id),
    {
        position_of(&self.selected_blocks, block_id).is_some()
    }

    /// Empty the multi-selection.
    fn clear_multi(&mut self)
        ensures
            final(self).multi_seq() == Seq::<u128>::empty(),
            final(self).selected_block == old(self).selected_block,
            final(self).dragged_target_block == old(self).dragged_target_block,
    {
        self.selected_blocks.clear();
    }

    /// A click on a block. With the platform key and the left button, a single
    /// selection is turned into a multi-selection and the block's membership in it
    /// is toggled; multi-selecting the singly selected block only deselects it.
    /// Other clicks change nothing.
    pub fn click(&mut self, block_id: u128, platform_key: bool, right_click: bool)
        requires
            old(self).well_formed(),
        ensures
            final(self).well_formed(),
            final(self).model() == spec_click(old(self).model(), block_id, platform_key, right_click),
    {
        if platform_key && !right_click {
            if let Some(selected) = self.selected_block {
                self.selected_block = None;
                if selected == block_id {
                    return;
                }
                if position_of(&self.selected_blocks, selected).is_none() {
                    push_distinct(&mut self.selected_blocks, selected);
                } else {
                    proof {
                        assert(self.selected_blocks@.to_set().insert(selected) =~= self.selected_blocks@.to_set());
                    }
                }
            }
            let ghost before = self.selected_blocks@;
            let found = position_of(&self.selected_blocks, block_id);
            if let Some(i) = found {
                self.selected_blocks.remove(i);
                proof {
                    assert(before[i as int] == block_id);
                    lemma_remove_distinct(before, i as int);
                }
            } else {
                push_distinct(&mut self.selected_blocks, block_id);
            }
        }
    }

    /// A right click on a block selects it alone, unless a multi-selection exists,
    /// which it keeps.
    pub fn right_click(&mut self, block_id: u128)
        requires
            old(self).well_formed(),
        ensures
            final(self).well_formed(),
            final(self).model() == spec_right_click(old(self).model(), block_id),
    {
        if !self.selected_blocks.is_empty() {
            proof {
                assert(self.multi_seq().to_set().contains(self.multi_seq()[0]));
            }
            return;
        }
        proof {
            assert(old(self).multi_seq().to_set() =~= Set::empty());
        }
        self.clear_multi();
        self.selected_block = Some(block_id);
        proof {
            assert(self.multi_seq().to_set() =~= Set::empty());
        }
    }

    /// A dragged item hovers over a block.
    pub fn drag_move(&mut self, block_id: u128)
        ensures
            final(self).multi_seq() == old(self).multi_seq(),
            final(self).selected_block == old(self).selected_block,
            final(self).dragged_target_block == Some(block_id),
    {
        self.dragged_target_block = Some(block_id);
    }

    /// Opening a block clears the selection.
    pub fn clear_for_open(&mut self)
        ensures
            final(self).well_formed(),
            final(self).model() == (SelectionModel {
                selected: None,
                multi: Set::empty(),
                dragged_target: old(self).dragged_target_block,
            }),
    {
        self.clear_multi();
        self.selected_block = None;
        proof {
            assert(self.multi_seq().to_set() =~= Set::empty());
        }
    }

    /// The blocks to delete: the multi-selection when there is one, otherwise the
    /// single selection. They leave the selection.
    pub fn take_blocks_to_delete(&mut self) -> (to_delete: Vec<u128>)
        requires
            old(self).well_formed(),
        ensures
            final(self).well_formed(),
            to_delete@.no_duplicates(),
            old(self).model().multi.len() > 0 ==> {
                &&& to_delete@.to_set() == old(self).model().multi
                &&& final(self).model() == (SelectionModel {
                    selected: old(self).selected_block,
                    multi: Set::empty(),
                    dragged_target: old(self).dragged_target_block,
                })
            },
            old(self).model().multi.len() == 0 ==> {
                &&& to_delete@ == (match old(self).selected_block {
                    Some(b) => seq![b],
                    None => Seq::<u128>::empty(),
                })
                &&& final(self).model() == (SelectionModel {
                    selected: None,
                    multi: Set::empty(),
                    dragged_target: old(self).dragged_target_block,
                })
            },
    {
        proof {
            self.selected_blocks@.unique_seq_to_set();
        }
        let mut to_delete: Vec<u128> = Vec::new();
        if !self.selected_blocks.is_empty() {
            to_delete = self.selected_blocks.clone();
            self.clear_multi();
        } else {
            if let Some(block) = self.selected_block {
                to_delete.push(block);
            }
            self.selected_block = None;
            proof {
                assert(to_delete@ == (match old(self).selected_block {
                    Some(b) => seq![b],
                    None => Seq::<u128>::empty(),
                }));
            }
        }
        proof {
            assert(self.multi_seq().to_set() =~= Set::empty());
        }
        to_delete
    }

    /// A dragged item is dropped on a block (`Some`) or on the root entry (`None`).
    /// Dropping a block on itself does nothing; otherwise the drop target and the
    /// selection are cleared and the dragged blocks are moved under the target.
    pub fn drop_on(&mut self, target: Option<u128>, dragged: &DraggedItem) -> (update: Option<ParentUpdate>)
        ensures
            (target is Some && dragged.block_id == target) ==> update is None && *final(self) == *old(self),
            !(target is Some && dragged.block_id == target) ==> {
                &&& update matches Some(u) && u.new_parent == target && u.block_ids@
                    == spec_collect_selections(dragged.block_id, dragged.selections@)
                &&& final(self).well_formed()
                &&& final(self).model() == (SelectionModel {
                    selected: None,
                    multi: Set::empty(),
                    dragged_target: None,
                })
            },
    {
        if target.is_some() && dragged.block_id == target {
            return None;
        }
        let blocks_to_drag = collect_selections(dragged);
        self.dragged_target_block = None;
        self.selected_block = None;
        self.clear_multi();
        proof {
            assert(self.multi_seq().to_set() =~= Set::empty());
        }
        Some(ParentUpdate { new_parent: target, block_ids: blocks_to_drag })
    }

    /// The blocks that dragging an entry carries along: the single selection if
    /// there is one, otherwise the multi-selection.
    pub fn drag_selection(&self) -> (v: Vec<u128>)
        requires
            self.well_formed(),
        ensures
            self.selected_block matches Some(b) ==> v@ == seq![b],
            self.selected_block is None ==> v@.to_set() == self.model().multi && v@.no_duplicates(),
    {
        match self.selected_block {
            Some(b) => {
                let mut v: Vec<u128> = Vec::new();
                v.push(b);
                proof {
                    assert(v@ =~= seq![b]);
                }
                v
            },
            None => self.selected_blocks.clone(),
        }
    }

    /// The parent for a block created from the sidebar: the selected block, if any.
    pub fn parent_for_new_block(&self) -> (p: Option<u128>)
        ensures
            p == self.selected_block,
    {
        self.selected_block
    }
}

/// The selection after a click (see `TreeSelection::click`).
pub open spec fn spec_click(s: SelectionModel, block_id: u128, platform_key: bool, right_click: bool) -> SelectionModel {
    if platform_key && !right_click {
        if s.selected == Some(block_id) {
            SelectionModel { selected: None, multi: s.multi, dragged_target: s.dragged_target }
        } else {
            let base = match s.selected {
                Some(b) => s.multi.insert(b),
                None => s.multi,
            };
            if base.contains(block_id) {
                SelectionModel { selected: None, multi: base.remove(block_id), dragged_target: s.dragged_target }
            } else {
                SelectionModel { selected: None, multi: base.insert(block_id), dragged_target: s.dragged_target }
            }
        }
    } else {
        s
    }
}

/// The selection after a right click (see `TreeSelection::right_click`).
pub open spec fn spec_right_click(s: SelectionModel, block_id: u128) -> SelectionModel {
    if s.multi.len() > 0 {
        s
    } else {
        SelectionModel { selected: Some(block_id), multi: s.multi, dragged_target: s.dragged_target }
    }
}

/// Append `x`, which `v` does not hold.
fn push_distinct(v: &mut Vec<u128>, x: u128)
    requires
        old(v)@.no_duplicates(),
        !old(v)@.contains(x),
    ensures
        final(v)@ == old(v)@.push(x),
        final(v)@.no_duplicates(),
        final(v)@.to_set() == old(v)@.to_set().insert(x),
{
    let ghost before = v@;
    v.push(x);
    proof {
        assert forall|y: u128| #[trigger] v@.to_set().contains(y) <==> before.to_set().insert(x).contains(y) by {
            if before.contains(y) {
                let j = choose|j: int| 0 <= j < before.len() && before[j] == y;
                assert(v@[j] == y);
            }
            if y == x {
                assert(v@[before.len() as int] == y);
            }
        }
        assert(v@.to_set() =~= before.to_set().insert(x));
        assert forall|a: int, b: int| 0 <= a < b < v@.len() implies v@[a] != v@[b] by {
            if b == before.len() {
                assert(before.contains(v@[a]));
            }
        }
    }
}

/// The first position of `x` in `v`, if any.
fn position_of(v: &Vec<u128>, x: u128) -> (r: Option<usize>)
    ensures
        r matches Some(i) ==> i < v.len() && v@[i as int] == x,
        r is None ==> !v@.contains(x),
{
    let mut i: usize = 0;
    while i < v.len()
        invariant
            i <= v@.len(),
            forall|k: int| 0 <= k < i ==> v@[k] != x,
        decreases v@.len() - i,
    {
        if v[i] == x {
            return Some(i);
        }
        i = i + 1;
    }
    None
}

proof fn lemma_remove_distinct(s: Seq<u128>, i: int)
    requires
        s.no_duplicates(),
        0 <= i < s.len(),
    ensures
        s.remove(i).no_duplicates(),
        s.remove(i).to_set() == s.to_set().remove(s[i]),
{
    let r = s.remove(i);
    assert forall|a: int, b: int| 0 <= a < b < r.len() implies r[a] != r[b] by {
        let a2 = if a < i { a } else { a + 1 };
        let b2 = if b < i { b } else { b + 1 };
        assert(r[a] == s[a2] && r[b] == s[b2]);
    }
    assert forall|x: u128| r.to_set().contains(x) <==> s.to_set().remove(s[i]).contains(x) by {
        if r.contains(x) {
            let j = choose|j: int| 0 <= j < r.len() && r[j] == x;
            let j2 = if j < i { j } else { j + 1 };
            assert(s[j2] == x);
            assert(j2 != i);
        }
        if s.contains(x) && x != s[i] {
            let j = choose|j: int| 0 <= j < s.len() && s[j] == x;
            if j < i {
                assert(r[j] == x);
            } else {
                assert(j != i);
                assert(r[j - 1] == x);
            }
        }
    }
    assert(r.to_set() =~= s.to_set().remove(s[i]));
}

/// Law: a platform-key left click leaves no single selection; every other block
/// stays in or out of the multi-selection as it was, except that a block that was
/// singly selected joins it; the clicked block changes membership, unless it was
/// the singly selected one, which is only deselected. Any other click changes
/// nothing.
pub proof fn law_click_toggles_only_the_clicked_block(s: SelectionModel, block_id: u128, platform_key: bool, right_click: bool)
    ensures
        !(platform_key && !right_click) ==> spec_click(s, block_id, platform_key, right_click) == s,
        platform_key && !right_click ==> ({
            let t = spec_click(s, block_id, platform_key, right_click);
            &&& t.selected is None
            &&& t.dragged_target == s.dragged_target
            &&& forall|x: u128| x != block_id ==> (#[trigger] t.multi.contains(x) <==> (s.multi.contains(x) || s.selected == Some(x)))
            &&& s.selected == Some(block_id) ==> (t.multi.contains(block_id) <==> s.multi.contains(block_id))
            &&& s.selected != Some(block_id) ==> (t.multi.contains(block_id) <==> !s.multi.contains(block_id))
        }),
{
}

/// Law: with the platform key held, multi-selecting a block twice leaves the
/// multi-selection as it was (when no block was singly selected).
pub proof fn law_multi_select_toggles(s: SelectionModel, block_id: u128)
    requires
        s.selected is None,
    ensures
        spec_click(spec_click(s, block_id, true, false), block_id, true, false).multi == s.multi,
{
    if s.multi.contains(block_id) {
        assert(s.multi.remove(block_id).insert(block_id) =~= s.multi);
    } else {
        assert(s.multi.insert(block_id).remove(block_id) =~= s.multi);
    }
}

/// Law: a right click with nothing multi-selected selects the block alone, and a
/// following platform-key click on it deselects it without touching the
/// multi-selection.
pub proof fn law_right_click_then_multi_click_deselects(s: SelectionModel, block_id: u128)
    requires
        s.multi.len() == 0,
    ensures
        spec_right_click(s, block_id).selected == Some(block_id),
        spec_click(spec_right_click(s, block_id), block_id, true, false)
            == (SelectionModel { selected: None, multi: s.multi, dragged_target: s.dragged_target }),
{
}

} // verus!
