//! The tabs of a pane: which blocks are open, which one is selected, and
//! whether each open tab has unsaved edits.
use std::collections::HashMap;
use vstd::std_specs::iter::IteratorSpec;
use vstd::prelude::*;
use crate::states::{first_holder, held_by_some_server, ServerBlocks, States};

verus! {

broadcast use vstd::std_specs::hash::group_hash_axioms;

/// A request that a pane sends to the workspace about keyboard focus.
#[derive(Clone, Copy, Debug, PartialEq, Eq)]
pub enum PaneEvent {
    /// The focus should leave this pane.
    ReleaseFocus,
    /// The focus should move to this pane.
    RequestFocus,
}

/// Some open tab has edits that were not saved.
pub open spec fn exists_unsaved(m: Map<u128, bool>) -> bool {
    exists|k: u128| m.contains_key(k) && !m[k]
}

/// What a window's "edited" flag must be set to after a tab's state changed:
/// `Some(false)` once no tab is unsaved, otherwise `marked` (set to `Some(true)`
/// when a tab has just become unsaved) or no change.
pub open spec fn edited_update(after: Map<u128, bool>, marked: bool) -> Option<bool> {
    if exists_unsaved(after) {
        if marked {
            Some(true)
        } else {
            None
        }
    } else {
        Some(false)
    }
}

/// The save state of each open tab, by block id: `true` when its content has
/// been saved since it was last edited.
pub struct TabStates {
    saved: HashMap<u128, bool>,
}

impl View for TabStates {
    type V = Map<u128, bool>;

    closed spec fn view(&self) -> Map<u128, bool> {
        self.saved@
    }
}

impl TabStates {
    /// No open tab.
    pub fn new() -> (s: TabStates)
        ensures
            s@ == Map::<u128, bool>::empty(),
    {
        TabStates { saved: HashMap::new() }
    }

    /// Whether a tab is open for the block.
    pub fn does_tab_exist(&self, block_id: &u128) -> (b: bool)
        ensures
            b == self@.contains_key(*block_id),
    {
        self.saved.contains_key(block_id)
    }

    /// Whether the block's tab is open and saved; `false` when it is not open.
    pub fn has_tab_saved(&self, block_id: &u128) -> (b: bool)
        ensures
            b == (self@.contains_key(*block_id) && self@[*block_id]),
    {
        match self.saved.get(block_id) {
            Some(saved) => *saved,
            None => false,
        }
    }

    /// Open a tab for the block; a freshly opened document counts as saved.
    pub fn create_tab_state(&mut self, block_id: &u128)
        ensures
            final(self)@ == old(self)@.insert(*block_id, true),
    {
        self.saved.insert(*block_id, true);
    }

    /// Whether some open tab is unsaved.
    pub fn has_unsaved_contents(&self) -> (b: bool)
        ensures
            b == exists_unsaved(self@),
    {
        let mut found = false;
        let ghost m = self.saved@;
        let ghost s0 = vstd::std_specs::hash::spec_hash_map_iter(&self.saved).remaining();
        for entry in it: self.saved.iter()
            invariant
                m == self.saved@,
                it.seq() == s0,
                s0 == vstd::std_specs::hash::spec_hash_map_iter(&self.saved).remaining(),
                found <==> exists|i: int| 0 <= i < it.index() && !*s0[i].1,
        {
            if !*entry.1 {
                found = true;
            }
        }
        proof {
            vstd::std_specs::hash::axiom_spec_hash_map_iter(&self.saved);
            if found {
                let i = choose|i: int| 0 <= i < s0.len() && !*s0[i].1;
                assert(m.contains_key(*s0[i].0));
            }
            if exists_unsaved(m) {
                let k = choose|k: u128| m.contains_key(k) && !m[k];
                assert(s0.contains((&k, &m[k])));
                let i = choose|i: int| 0 <= i < s0.len() && s0[i] == (&k, &m[k]);
                assert(!*s0[i].1);
            }
        }
        found
    }

    /// Record whether the block's tab is saved (nothing happens when no tab is
    /// open for it). Returns what the window's edited flag must be set to: the
    /// window is marked edited when the tab became unsaved, and unmarked once no
    /// tab is unsaved.
    pub fn update_tab_save_state(&mut self, block_id: &u128, has_saved: bool) -> (window_edited:
        Option<bool>)
        ensures
            final(self)@ == (if old(self)@.contains_key(*block_id) {
                old(self)@.insert(*block_id, has_saved)
            } else {
                old(self)@
            }),
            window_edited == edited_update(
                final(self)@,
                old(self)@.contains_key(*block_id) && !has_saved,
            ),
    {
        let mut marked = false;
        if self.saved.contains_key(block_id) {
            self.saved.insert(*block_id, has_saved);
            if !has_saved {
                marked = true;
            }
        }
        if !self.has_unsaved_contents() {
            Some(false)
        } else if marked {
            Some(true)
        } else {
            None
        }
    }

    /// Close the block's tab. Returns `Some(false)` when no unsaved tab is left.
    pub fn remove_tab_state(&mut self, block_id: &u128) -> (window_edited: Option<bool>)
        ensures
            final(self)@ == old(self)@.remove(*block_id),
            window_edited == edited_update(final(self)@, false),
    {
        self.saved.remove(block_id);
        if !self.has_unsaved_contents() {
            Some(false)
        } else {
            None
        }
    }

    /// Close every tab; the window is no longer edited.
    pub fn remove_all_tab_state(&mut self) -> (window_edited: Option<bool>)
        ensures
            final(self)@ == Map::<u128, bool>::empty(),
            window_edited == Some(false),
    {
        self.saved.clear();
        proof {
            assert(!exists_unsaved(self.saved@));
        }
        Some(false)
    }
}

/// The abstract state of a pane's tabs.
pub struct PaneModel {
    pub selected: Option<u128>,
    pub opened: Seq<u128>,
    pub states: Map<u128, bool>,
}

/// The first index `k >= from` where `s[k] == x`.
pub open spec fn first_index_from(s: Seq<u128>, x: u128, from: int) -> Option<int>
    decreases s.len() - from,
{
    if from < 0 || from >= s.len() {
        None
    } else if s[from] == x {
        Some(from)
    } else {
        first_index_from(s, x, from + 1)
    }
}

/// Which opened tab `close_tab(block_id)` removes: the first occurrence of the
/// block at a position other than the first, else the first tab when it is the
/// block's; `None` when the block has no tab.
pub open spec fn close_removal_index(opened: Seq<u128>, block_id: u128) -> Option<int> {
    match first_index_from(opened, block_id, 1) {
        Some(k) => Some(k),
        None => if opened.len() > 0 && opened[0] == block_id {
            Some(0)
        } else {
            None
        },
    }
}

/// The state after `open_or_activate_tab(block_id)`: a block without a tab gets a
/// new, saved tab at the end; the block becomes the selected one.
pub open spec fn spec_open_or_activate(p: PaneModel, block_id: u128) -> PaneModel {
    if p.states.contains_key(block_id) {
        PaneModel { selected: Some(block_id), opened: p.opened, states: p.states }
    } else {
        PaneModel {
            selected: Some(block_id),
            opened: p.opened.push(block_id),
            states: p.states.insert(block_id, true),
        }
    }
}

/// The position of the selected block among the opened ones.
pub open spec fn spec_selected_index(p: PaneModel) -> Option<int> {
    match p.selected {
        Some(sel) => first_index_from(p.opened, sel, 0),
        None => None,
    }
}

/// The state after switching to the next tab, wrapping around to the first.
pub open spec fn spec_next_tab(p: PaneModel) -> PaneModel {
    match spec_selected_index(p) {
        None => p,
        Some(cur) => {
            let next = if cur + 1 < p.opened.len() {
                cur + 1
            } else {
                0
            };
            spec_open_or_activate(p, p.opened[next])
        },
    }
}

/// The state after switching to the previous tab, wrapping around to the last.
pub open spec fn spec_previous_tab(p: PaneModel) -> PaneModel {
    match spec_selected_index(p) {
        None => p,
        Some(cur) => {
            let prev = if cur > 0 {
                cur - 1
            } else {
                p.opened.len() - 1
            };
            spec_open_or_activate(p, p.opened[prev])
        },
    }
}

/// The state after closing the tab of `block_id`.
///
/// A block without a tab changes nothing. Otherwise, with several tabs open, the
/// tab at `close_removal_index` is removed and the block's save state is dropped;
/// if the closed block was the selected one, the tab before the removed position
/// (or the first) is activated. With one tab open, everything is closed and
/// nothing is selected.
pub open spec fn spec_close_tab(p: PaneModel, block_id: u128) -> PaneModel {
    if close_removal_index(p.opened, block_id) is None {
        p
    } else if p.opened.len() > 1 {
        let r = close_removal_index(p.opened, block_id).unwrap();
        let opened = p.opened.remove(r);
        let states = p.states.remove(block_id);
        let after = PaneModel { selected: p.selected, opened, states };
        match p.selected {
            Some(sel) => {
                let focus = if r - 1 < 0 {
                    0
                } else {
                    r - 1
                };
                if sel == block_id {
                    spec_open_or_activate(after, opened[focus])
                } else {
                    after
                }
            },
            None => after,
        }
    } else {
        PaneModel { selected: None, opened: seq![], states: Map::empty() }
    }
}

/// What closing a tab asks of the workspace.
pub open spec fn spec_close_effects(p: PaneModel, block_id: u128) -> PaneEffects {
    if close_removal_index(p.opened, block_id) is None {
        PaneEffects { focus: None, window_edited: None }
    } else if p.opened.len() > 1 {
        PaneEffects {
            focus: if p.selected == Some(block_id) {
                Some(PaneEvent::RequestFocus)
            } else {
                None
            },
            window_edited: edited_update(p.states.remove(block_id), false),
        }
    } else {
        PaneEffects { focus: Some(PaneEvent::ReleaseFocus), window_edited: Some(false) }
    }
}

/// The requests a pane operation makes: a focus change, and a new value for the
/// window's edited flag.
#[derive(Clone, Copy, Debug, PartialEq, Eq)]
pub struct PaneEffects {
    pub focus: Option<PaneEvent>,
    pub window_edited: Option<bool>,
}

/// The tabs of a pane.
pub struct PaneTabs {
    /// The block that is registered as selected; operations act on it.
    pub selected_block_id: Option<u128>,
    /// The blocks that have a tab, in tab order.
    pub opened_block_ids: Vec<u128>,
    /// The save state of each open tab.
    pub opened_tab_states: TabStates,
    /// A query waiting to be shown in the next editor that opens.
    pub search_string: Option<String>,
}

impl PaneTabs {
    pub open spec fn model(&self) -> PaneModel {
        PaneModel {
            selected: self.selected_block_id,
            opened: self.opened_block_ids@,
            states: self.opened_tab_states@,
        }
    }

    /// A pane without tabs.
    pub fn new() -> (p: PaneTabs)
        ensures
            p.model() == (PaneModel { selected: None, opened: seq![], states: Map::empty() }),
            p.search_string is None,
    {
        PaneTabs {
            selected_block_id: None,
            opened_block_ids: Vec::new(),
            opened_tab_states: TabStates::new(),
            search_string: None,
        }
    }

    /// Keep a query for the next editor that opens.
    pub fn set_search_string(&mut self, string: String)
        ensures
            final(self).search_string == Some(string),
            final(self).model() == old(self).model(),
    {
        self.search_string = Some(string);
    }

    /// Hand out the kept query, leaving none behind.
    pub fn pop_search_string(&mut self) -> (r: Option<String>)
        ensures
            r == old(self).search_string,
            final(self).search_string is None,
            final(self).model() == old(self).model(),
    {
        let mut taken: Option<String> = None;
        std::mem::swap(&mut taken, &mut self.search_string);
        taken
    }

    /// Open a new tab for the block, or activate its existing tab, and ask for focus.
    pub fn open_or_activate_tab(&mut self, block_id: u128) -> (event: PaneEvent)
        ensures
            final(self).model() == spec_open_or_activate(old(self).model(), block_id),
            final(self).search_string == old(self).search_string,
            event == PaneEvent::RequestFocus,
    {
        if !self.opened_tab_states.does_tab_exist(&block_id) {
            self.opened_block_ids.push(block_id);
            self.opened_tab_states.create_tab_state(&block_id);
        }
        self.selected_block_id = Some(block_id);
        PaneEvent::RequestFocus
    }

    /// The position of the selected block among the open tabs.
    pub fn acquire_block_index(&self) -> (r: Option<usize>)
        ensures
            r matches Some(i) ==> spec_selected_index(self.model()) == Some(i as int),
            r is None ==> spec_selected_index(self.model()) is None,
    {
        let selected = match self.selected_block_id {
            Some(s) => s,
            None => return None,
        };
        index_from(&self.opened_block_ids, selected, 0)
    }

    /// Switch to the next tab, wrapping around; nothing happens when the selected
    /// block has no tab.
    pub fn activate_next_tab(&mut self) -> (event: Option<PaneEvent>)
        ensures
            final(self).model() == spec_next_tab(old(self).model()),
            final(self).search_string == old(self).search_string,
            event == (if spec_selected_index(old(self).model()) is Some {
                Some(PaneEvent::RequestFocus)
            } else {
                None
            }),
    {
        let current_index = match self.acquire_block_index() {
            Some(value) => value,
            None => return None,
        };
        proof {
            lemma_first_index_from(self.opened_block_ids@, self.selected_block_id.unwrap(), 0);
            assert(current_index < self.opened_block_ids@.len());
        }
        let next_index = if current_index < self.opened_block_ids.len() - 1 {
            current_index + 1
        } else {
            0
        };
        let block_id = self.opened_block_ids[next_index];
        self.selected_block_id = Some(block_id);
        Some(self.open_or_activate_tab(block_id))
    }

    /// Switch to the previous tab, wrapping around; nothing happens when the
    /// selected block has no tab.
    pub fn activate_previous_tab(&mut self) -> (event: Option<PaneEvent>)
        ensures
            final(self).model() == spec_previous_tab(old(self).model()),
            final(self).search_string == old(self).search_string,
            event == (if spec_selected_index(old(self).model()) is Some {
                Some(PaneEvent::RequestFocus)
            } else {
                None
            }),
    {
        let current_index = match self.acquire_block_index() {
            Some(value) => value,
            None => return None,
        };
        proof {
            lemma_first_index_from(self.opened_block_ids@, self.selected_block_id.unwrap(), 0);
            assert(current_index < self.opened_block_ids@.len());
        }
        let prev_index = if current_index > 0 {
            current_index - 1
        } else {
            self.opened_block_ids.len() - 1
        };
        let block_id = self.opened_block_ids[prev_index];
        self.selected_block_id = Some(block_id);
        Some(self.open_or_activate_tab(block_id))
    }

    /// Close the block's tab (see `spec_close_tab`).
    pub fn close_tab(&mut self, block_id: u128) -> (effects: PaneEffects)
        ensures
            final(self).model() == spec_close_tab(old(self).model(), block_id),
            final(self).search_string == old(self).search_string,
            effects == spec_close_effects(old(self).model(), block_id),
    {
        let ghost p0 = self.model();
        proof {
            lemma_first_index_from(self.opened_block_ids@, block_id, 1);
        }
        let removed_index = match index_from(&self.opened_block_ids, block_id, 1) {
            Some(k) => k,
            None => {
                if self.opened_block_ids.len() > 0 && self.opened_block_ids[0] == block_id {
                    0
                } else {
                    return PaneEffects { focus: None, window_edited: None };
                }
            },
        };
        if self.opened_block_ids.len() > 1 {
            self.opened_block_ids.remove(removed_index);
            let window_edited = self.opened_tab_states.remove_tab_state(&block_id);
            let mut focus = None;
            if let Some(selected_block_id) = self.selected_block_id {
                let index_to_focus = if removed_index == 0 {
                    0
                } else {
                    removed_index - 1
                };
                let block_to_be_selected = self.opened_block_ids[index_to_focus];
                if selected_block_id == block_id {
                    focus = Some(self.open_or_activate_tab(block_to_be_selected));
                }
            }
            return PaneEffects { focus, window_edited };
        }
        self.opened_block_ids.clear();
        let window_edited = self.opened_tab_states.remove_all_tab_state();
        self.selected_block_id = None;
        proof {
            assert(self.opened_block_ids@ =~= seq![]);
        }
        PaneEffects { focus: Some(PaneEvent::ReleaseFocus), window_edited }
    }
}

/// What the tab bar shows of one open tab.
pub struct TabLabel {
    pub block_id: u128,
    /// The block's title; empty when no server holds the block.
    pub title: String,
    /// The tab of the selected block.
    pub selected: bool,
    /// The tab has edits that were not saved (shown with a dot before the title).
    pub unsaved: bool,
}

/// `t` is the title shown for the block: that of the block in the first server
/// holding it, or empty when none does.
pub open spec fn shows_title(servers: Seq<ServerBlocks>, id: u128, t: Seq<char>) -> bool {
    &&& forall|s: int| first_holder(servers, id, s) ==> t == servers[s].blocks@[id].title@
    &&& !held_by_some_server(servers, id) ==> t == Seq::<char>::empty()
}

/// The tab bar of the pane: one label per open tab, in tab order, with the block's
/// title, whether it is the selected block and whether it has unsaved edits.
/// Every open tab has a save state (the pane keeps the two in step).
pub fn tab_labels(pane: &PaneTabs, states: &States) -> (v: Vec<TabLabel>)
    requires
        forall|k: int| 0 <= k < pane.opened_block_ids@.len() ==> pane.opened_tab_states@.contains_key(
            #[trigger] pane.opened_block_ids@[k],
        ),
    ensures
        v@.len() == pane.opened_block_ids@.len(),
        forall|k: int|
            0 <= k < v@.len() ==> {
                let id = pane.opened_block_ids@[k];
                &&& (#[trigger] v@[k]).block_id == id
                &&& v@[k].selected == (pane.selected_block_id == Some(id))
                &&& v@[k].unsaved == !pane.opened_tab_states@[id]
                &&& shows_title(states.servers@, id, v@[k].title@)
            },
{
    let mut v: Vec<TabLabel> = Vec::new();
    let mut i: usize = 0;
    while i < pane.opened_block_ids.len()
        invariant
            i <= pane.opened_block_ids@.len(),
            v@.len() == i,
            forall|k: int| 0 <= k < pane.opened_block_ids@.len() ==> pane.opened_tab_states@.contains_key(
                #[trigger] pane.opened_block_ids@[k],
            ),
            forall|k: int|
                0 <= k < v@.len() ==> {
                    let id = pane.opened_block_ids@[k];
                    &&& (#[trigger] v@[k]).block_id == id
                    &&& v@[k].selected == (pane.selected_block_id == Some(id))
                    &&& v@[k].unsaved == !pane.opened_tab_states@[id]
                    &&& shows_title(states.servers@, id, v@[k].title@)
                },
        decreases pane.opened_block_ids@.len() - i,
    {
        let id = pane.opened_block_ids[i];
        let selected = match pane.selected_block_id {
            Some(s) => s == id,
            None => false,
        };
        let title = match states.get_block(&id) {
            Some(b) => {
                proof {
                    let w = choose|w: int| first_holder(states.servers@, id, w) && *b == #[trigger] states.servers@[w].blocks@[id];
                    assert forall|s: int| first_holder(states.servers@, id, s) implies b.title@ == states.servers@[s].blocks@[id].title@ by {
                        lemma_first_holder_unique(states.servers@, id, s, w);
                    }
                }
                b.title.clone()
            },
            None => {
                proof {
                    assert forall|s: int| first_holder(states.servers@, id, s) implies false by {
                        assert(states.servers@[s].blocks@.contains_key(id));
                    }
                }
                String::new()
            },
        };
        proof {
            assert(pane.opened_tab_states@.contains_key(pane.opened_block_ids@[i as int]));
        }
        let unsaved = !pane.opened_tab_states.has_tab_saved(&id);
        v.push(TabLabel { block_id: id, title, selected, unsaved });
        i = i + 1;
    }
    v
}

/// At most one server is the first holder of a block.
proof fn lemma_first_holder_unique(servers: Seq<ServerBlocks>, id: u128, a: int, b: int)
    requires
        first_holder(servers, id, a),
        first_holder(servers, id, b),
    ensures
        a == b,
{
    if a < b {
        assert(!servers[a].blocks@.contains_key(id));
    } else if b < a {
        assert(!servers[b].blocks@.contains_key(id));
    }
}

pub proof fn lemma_first_index_from(s: Seq<u128>, x: u128, from: int)
    requires
        0 <= from,
    ensures
        first_index_from(s, x, from) matches Some(k) ==> from <= k < s.len() && s[k] == x
            && forall|q: int| from <= q < k ==> s[q] != x,
        first_index_from(s, x, from) is None ==> forall|q: int| from <= q < s.len() ==> s[q] != x,
    decreases s.len() - from,
{
    if from < s.len() && s[from] != x {
        lemma_first_index_from(s, x, from + 1);
    }
}

/// The first index `k >= from` where `v[k] == x`.
fn index_from(v: &Vec<u128>, x: u128, from: usize) -> (r: Option<usize>)
    ensures
        r matches Some(k) ==> first_index_from(v@, x, from as int) == Some(k as int),
        r is None ==> first_index_from(v@, x, from as int) is None,
{
    let mut k = from;
    while k < v.len()
        invariant
            from <= k,
            first_index_from(v@, x, from as int) == first_index_from(v@, x, k as int),
        decreases v@.len() - k,
    {
        if v[k] == x {
            return Some(k);
        }
        k = k + 1;
    }
    None
}

/// The window's edited flag after applying a requested update.
pub open spec fn apply_edited(flag: bool, update: Option<bool>) -> bool {
    match update {
        Some(v) => v,
        None => flag,
    }
}

/// Law: if the window's edited flag showed whether some tab was unsaved, it
/// still does after a tab's save state is recorded and the requested update is
/// applied.
pub proof fn law_edited_flag_follows_save_state(
    before: Map<u128, bool>,
    block_id: u128,
    has_saved: bool,
    flag: bool,
)
    requires
        flag == exists_unsaved(before),
    ensures
        ({
            let after = if before.contains_key(block_id) {
                before.insert(block_id, has_saved)
            } else {
                before
            };
            apply_edited(
                flag,
                edited_update(after, before.contains_key(block_id) && !has_saved),
            ) == exists_unsaved(after)
        }),
{
    let after = if before.contains_key(block_id) {
        before.insert(block_id, has_saved)
    } else {
        before
    };
    if before.contains_key(block_id) && !has_saved {
        assert(after.contains_key(block_id) && !after[block_id]);
    } else if exists_unsaved(after) {
        let k = choose|k: u128| after.contains_key(k) && !after[k];
        assert(before.contains_key(k) && !before[k]);
    }
}

/// Law: if the window's edited flag showed whether some tab was unsaved, it
/// still does after a tab is closed and the requested update is applied.
pub proof fn law_edited_flag_follows_close(before: Map<u128, bool>, block_id: u128, flag: bool)
    requires
        flag == exists_unsaved(before),
    ensures
        apply_edited(flag, edited_update(before.remove(block_id), false)) == exists_unsaved(
            before.remove(block_id),
        ),
{
    let after = before.remove(block_id);
    if exists_unsaved(after) {
        let k = choose|k: u128| after.contains_key(k) && !after[k];
        assert(before.contains_key(k) && !before[k]);
    }
}

/// A pane whose opened tabs are distinct, whose save states are exactly those
/// of the opened tabs, and whose selected block, if any, has a tab.
pub open spec fn pane_well_formed(p: PaneModel) -> bool {
    &&& p.opened.no_duplicates()
    &&& forall|x: u128| #[trigger] p.states.contains_key(x) <==> p.opened.contains(x)
    &&& (p.selected matches Some(s) ==> p.opened.contains(s))
}

proof fn lemma_index_of_distinct(s: Seq<u128>, i: int)
    requires
        s.no_duplicates(),
        0 <= i < s.len(),
    ensures
        first_index_from(s, s[i], 0) == Some(i),
{
    lemma_first_index_from(s, s[i], 0);
    if first_index_from(s, s[i], 0) is None {
        assert(s[i] != s[i]);
    }
}

/// Law: on a well-formed pane, switching to the next tab and then to the
/// previous one comes back to the state it started from.
pub proof fn law_next_then_previous(p: PaneModel)
    requires
        pane_well_formed(p),
    ensures
        spec_previous_tab(spec_next_tab(p)) == p,
{
    if let Some(sel) = p.selected {
        let cur = choose|i: int| 0 <= i < p.opened.len() && p.opened[i] == sel;
        lemma_index_of_distinct(p.opened, cur);
        let next = if cur + 1 < p.opened.len() {
            cur + 1
        } else {
            0
        };
        let t = p.opened[next];
        assert(p.states.contains_key(t));
        let q = spec_next_tab(p);
        assert(q == PaneModel { selected: Some(t), opened: p.opened, states: p.states });
        lemma_index_of_distinct(p.opened, next);
        assert(spec_selected_index(q) == Some(next));
        assert(p.states.contains_key(sel));
    }
}

/// Law: on a well-formed pane, switching to the previous tab and then to the
/// next one comes back to the state it started from.
pub proof fn law_previous_then_next(p: PaneModel)
    requires
        pane_well_formed(p),
    ensures
        spec_next_tab(spec_previous_tab(p)) == p,
{
    if let Some(sel) = p.selected {
        let cur = choose|i: int| 0 <= i < p.opened.len() && p.opened[i] == sel;
        lemma_index_of_distinct(p.opened, cur);
        let prev = if cur > 0 {
            cur - 1
        } else {
            p.opened.len() - 1
        };
        let t = p.opened[prev];
        assert(p.states.contains_key(t));
        let q = spec_previous_tab(p);
        assert(q == PaneModel { selected: Some(t), opened: p.opened, states: p.states });
        lemma_index_of_distinct(p.opened, prev);
        assert(spec_selected_index(q) == Some(prev));
        assert(p.states.contains_key(sel));
    }
}

/// Law: opening or activating a block's tab keeps a pane well formed, selects
/// the block, and gives it a tab.
pub proof fn law_open_selects_block(p: PaneModel, block_id: u128)
    requires
        pane_well_formed(p),
    ensures
        pane_well_formed(spec_open_or_activate(p, block_id)),
        spec_open_or_activate(p, block_id).selected == Some(block_id),
        spec_open_or_activate(p, block_id).opened.contains(block_id),
{
    let q = spec_open_or_activate(p, block_id);
    if p.states.contains_key(block_id) {
    } else {
        assert(!p.opened.contains(block_id));
        assert(q.opened[q.opened.len() - 1] == block_id);
        assert forall|x: u128| #[trigger] q.states.contains_key(x) <==> q.opened.contains(x) by {
            if p.opened.contains(x) {
                let i = choose|i: int| 0 <= i < p.opened.len() && p.opened[i] == x;
                assert(q.opened[i] == x);
            }
            if q.opened.contains(x) && x != block_id {
                let i = choose|i: int| 0 <= i < q.opened.len() && q.opened[i] == x;
                assert(p.opened[i] == x);
            }
        }
        assert forall|i: int, j: int| 0 <= i < j < q.opened.len() implies q.opened[i] != q.opened[j] by {
            if j == q.opened.len() - 1 {
                assert(p.opened[i] == q.opened[i]);
            }
        }
    }
}

/// Law: on a well-formed pane, closing a block other than the selected one leaves
/// the selection as it was and asks for no focus change; closing the selected
/// block, with other tabs left, selects one of the remaining tabs and asks for the
/// focus.
pub proof fn law_close_keeps_other_selection(p: PaneModel, block_id: u128)
    requires
        pane_well_formed(p),
    ensures
        p.selected != Some(block_id) ==> spec_close_tab(p, block_id).selected == p.selected,
        p.selected != Some(block_id) ==> spec_close_effects(p, block_id).focus != Some(PaneEvent::RequestFocus),
        p.selected == Some(block_id) && p.opened.len() > 1 ==> (spec_close_tab(p, block_id).selected matches Some(s)
            && s != block_id && p.opened.contains(s) && spec_close_tab(p, block_id).opened.contains(s)),
        p.selected == Some(block_id) && p.opened.len() > 1 ==> spec_close_effects(p, block_id).focus == Some(
            PaneEvent::RequestFocus,
        ),
{
    if p.selected != Some(block_id) && close_removal_index(p.opened, block_id) is Some && p.opened.len() == 1 {
        if let Some(sel) = p.selected {
            assert(p.opened.contains(sel));
            lemma_first_index_from(p.opened, block_id, 1);
            assert(p.opened[0] == block_id);
            assert(sel == p.opened[0]);
        }
    }
    if p.selected == Some(block_id) && p.opened.len() > 1 {
        law_close_removes_tab(p, block_id);
        let q = spec_close_tab(p, block_id);
        lemma_first_index_from(p.opened, block_id, 1);
        let r = close_removal_index(p.opened, block_id).unwrap();
        let opened = p.opened.remove(r);
        let focus = if r - 1 < 0 { 0 } else { r - 1 };
        let s = opened[focus];
        assert(opened.contains(s));
        assert(q.opened.contains(s));
        assert(s != block_id);
        let j = if focus < r { focus } else { focus + 1 };
        assert(p.opened[j] == s);
    }
}

/// Law: closing the tab of an opened block on a well-formed pane removes exactly
/// that tab and its save state, and leaves the pane well formed.
pub proof fn law_close_removes_tab(p: PaneModel, block_id: u128)
    requires
        pane_well_formed(p),
        p.opened.contains(block_id),
    ensures
        pane_well_formed(spec_close_tab(p, block_id)),
        !spec_close_tab(p, block_id).opened.contains(block_id),
        !spec_close_tab(p, block_id).states.contains_key(block_id),
        forall|x: u128|
            x != block_id ==> (#[trigger] spec_close_tab(p, block_id).opened.contains(x)
                <==> p.opened.contains(x)),
{
    let i = choose|i: int| 0 <= i < p.opened.len() && p.opened[i] == block_id;
    lemma_index_of_distinct(p.opened, i);
    if p.opened.len() > 1 {
        lemma_first_index_from(p.opened, block_id, 1);
        let r = close_removal_index(p.opened, block_id).unwrap();
        if i > 0 {
            if first_index_from(p.opened, block_id, 1) is None {
                assert(p.opened[i] != block_id);
            }
            let k = first_index_from(p.opened, block_id, 1).unwrap();
            assert(k == i) by {
                if k != i {
                    assert(p.opened[k] == p.opened[i]);
                }
            }
        } else {
            if first_index_from(p.opened, block_id, 1) is Some {
                let k = first_index_from(p.opened, block_id, 1).unwrap();
                assert(p.opened[k] == p.opened[0]);
            }
        }
        assert(r == i);
        let opened = p.opened.remove(r);
        let states = p.states.remove(block_id);
        assert(forall|j: int| 0 <= j < r ==> opened[j] == p.opened[j]);
        assert(forall|j: int| r <= j < opened.len() ==> opened[j] == p.opened[j + 1]);
        assert forall|x: u128| x != block_id implies (opened.contains(x) <==> p.opened.contains(x)) by {
            if p.opened.contains(x) {
                let j = choose|j: int| 0 <= j < p.opened.len() && p.opened[j] == x;
                if j < r {
                    assert(opened[j] == x);
                } else {
                    assert(j != r);
                    assert(opened[j - 1] == x);
                }
            }
            if opened.contains(x) {
                let j = choose|j: int| 0 <= j < opened.len() && opened[j] == x;
                if j < r {
                    assert(p.opened[j] == x);
                } else {
                    assert(p.opened[j + 1] == x);
                }
            }
        }
        assert(!opened.contains(block_id)) by {
            if opened.contains(block_id) {
                let j = choose|j: int| 0 <= j < opened.len() && opened[j] == block_id;
                if j < r {
                    assert(p.opened[j] == block_id);
                } else {
                    assert(p.opened[j + 1] == block_id);
                }
            }
        }
        assert(opened.no_duplicates()) by {
            assert forall|a: int, b: int| 0 <= a < b < opened.len() implies opened[a] != opened[b] by {
                let a2 = if a < r { a } else { a + 1 };
                let b2 = if b < r { b } else { b + 1 };
                assert(opened[a] == p.opened[a2] && opened[b] == p.opened[b2]);
            }
        }
        let after = PaneModel { selected: p.selected, opened, states };
        assert forall|x: u128| #[trigger] states.contains_key(x) <==> opened.contains(x) by {
            assert(p.states.contains_key(x) <==> p.opened.contains(x));
        }
        if let Some(sel) = p.selected {
            let focus = if r - 1 < 0 {
                0
            } else {
                r - 1
            };
            if sel == block_id {
                assert(opened.contains(opened[focus]));
                assert(states.contains_key(opened[focus]));
            } else {
                assert(p.opened.contains(sel));
            }
        }
    } else {
        assert(spec_close_tab(p, block_id).opened =~= seq![]);
    }
}

} // verus!
