//! The command bar's list of actions: each with its key binding, filtered by
//! what the user types.
use vstd::prelude::*;
use vstd::string::StringSliceAdditionalSpecFns;
use vstd::utf8::encode_utf8;
use crate::assets::contains_bytes;

verus! {

/// What `str::to_lowercase` makes of a text.
pub uninterp spec fn lowercase(s: Seq<char>) -> Seq<char>;

/// `str::to_lowercase`: the text with every character replaced by its Unicode
/// lowercase mapping. The mapping's table is not restated: the result is named
/// `lowercase`.
#[verifier::external_body]
fn to_lowercase(s: &str) -> (r: String)
    ensures
        r@ == lowercase(s@),
{
    s.to_lowercase()
}

/// An action of the list: `A` is the action itself, `name` the name it is
/// registered under, `key_binding` the keystrokes bound to it, if any.
pub struct KeyAction<A> {
    pub action: A,
    pub name: String,
    pub key_binding: Option<String>,
}

/// The name matches the query: the lowercased query occurs in the lowercased name.
pub open spec fn name_matches(name: Seq<char>, query: Seq<char>) -> bool {
    contains_bytes(encode_utf8(lowercase(name)), encode_utf8(lowercase(query)))
}

/// The command bar's list.
pub struct KeysList<A> {
    pub actions: Vec<KeyAction<A>>,
    /// The positions of the actions that match the last non-empty query.
    pub filtered_actions: Vec<usize>,
    pub selected_index: Option<usize>,
    /// Whether the list shows the filtered actions.
    pub searched: bool,
}

impl<A> KeysList<A> {
    pub fn new(actions: Vec<KeyAction<A>>) -> (l: KeysList<A>)
        ensures
            l.actions@ == actions@,
            l.filtered_actions@.len() == 0,
            l.selected_index is None,
            !l.searched,
    {
        KeysList { actions, filtered_actions: Vec::new(), selected_index: None, searched: false }
    }

    /// The number of rows: all actions, also while a search narrows them.
    pub fn items_count(&self) -> (n: usize)
        ensures
            n == self.actions@.len(),
    {
        self.actions.len()
    }

    /// The action shown at a row: among the matches while searching, among all
    /// actions otherwise.
    pub fn item(&self, row: usize) -> (r: Option<&KeyAction<A>>)
        requires
            forall|k: int| 0 <= k < self.filtered_actions@.len() ==> #[trigger] self.filtered_actions@[k] < self.actions@.len(),
        ensures
            self.searched ==> (if row < self.filtered_actions@.len() {
                r == Some(&self.actions@[self.filtered_actions@[row as int] as int])
            } else {
                r is None
            }),
            !self.searched ==> (if row < self.actions@.len() {
                r == Some(&self.actions@[row as int])
            } else {
                r is None
            }),
    {
        if self.searched {
            if row < self.filtered_actions.len() {
                let i = self.filtered_actions[row];
                Some(&self.actions[i])
            } else {
                None
            }
        } else if row < self.actions.len() {
            Some(&self.actions[row])
        } else {
            None
        }
    }

    pub fn set_selected_index(&mut self, ix: Option<usize>)
        ensures
            final(self).selected_index == ix,
            final(self).actions == old(self).actions,
            final(self).filtered_actions == old(self).filtered_actions,
            final(self).searched == old(self).searched,
    {
        self.selected_index = ix;
    }

    /// Filter the actions by the query. An empty query shows all actions again
    /// (the last matches are kept but not shown).
    pub fn perform_search(&mut self, query: &str)
        ensures
            final(self).actions == old(self).actions,
            final(self).selected_index == old(self).selected_index,
            query@.len() == 0 ==> !final(self).searched && final(self).filtered_actions == old(self).filtered_actions,
            query@.len() > 0 ==> {
                &&& final(self).searched
                &&& forall|a: int, b: int| 0 <= a < b < final(self).filtered_actions@.len() ==> #[trigger] final(self).filtered_actions@[a] < #[trigger] final(self).filtered_actions@[b]
                &&& forall|k: int| 0 <= k < final(self).filtered_actions@.len() ==> #[trigger] final(self).filtered_actions@[k] < old(self).actions@.len()
                &&& forall|i: int| 0 <= i < old(self).actions@.len() ==> (final(self).filtered_actions@.contains(i as usize) <==> name_matches(
                    #[trigger] old(self).actions@[i].name@,
                    query@,
                ))
            },
    {
        if query.as_bytes().len() == 0 {
            proof {
                vstd::utf8::encode_utf8_decode_utf8(query@);
                assert(query.spec_bytes() =~= Seq::<u8>::empty());
                assert(vstd::utf8::decode_utf8(Seq::<u8>::empty()) =~= Seq::<char>::empty());
            }
            self.searched = false;
            return;
        }
        proof {
            if query@.len() == 0 {
                assert(query@ =~= Seq::<char>::empty());
                assert(vstd::utf8::encode_utf8(Seq::<char>::empty()) =~= Seq::<u8>::empty());
            }
        }
        let q = to_lowercase(query);
        let mut found: Vec<usize> = Vec::new();
        let mut i: usize = 0;
        while i < self.actions.len()
            invariant
                i <= self.actions@.len(),
                q@ == lowercase(query@),
                forall|a: int, b: int| 0 <= a < b < found@.len() ==> #[trigger] found@[a] < #[trigger] found@[b],
                forall|k: int| 0 <= k < found@.len() ==> #[trigger] found@[k] < i,
                forall|j: int| 0 <= j < i ==> (found@.contains(j as usize) <==> name_matches(#[trigger] self.actions@[j].name@, query@)),
            decreases self.actions@.len() - i,
        {
            let name = to_lowercase(self.actions[i].name.as_str());
            let hit = crate::assets::contains_exec(name.as_str().as_bytes(), q.as_str().as_bytes());
            let ghost prev = found@;
            if hit {
                found.push(i);
            }
            proof {
                assert forall|j: int| 0 <= j < i + 1 implies (found@.contains(j as usize) <==> name_matches(#[trigger] self.actions@[j].name@, query@)) by {
                    if j < i {
                        if found@.contains(j as usize) {
                            let w = choose|w: int| 0 <= w < found@.len() && found@[w] == j as usize;
                            if w < prev.len() {
                                assert(prev[w] == j as usize);
                            }
                        }
                        if prev.contains(j as usize) {
                            let w = choose|w: int| 0 <= w < prev.len() && prev[w] == j as usize;
                            assert(found@[w] == j as usize);
                        }
                    } else {
                        if hit {
                            assert(found@[prev.len() as int] == i);
                        } else if found@.contains(j as usize) {
                            let w = choose|w: int| 0 <= w < found@.len() && found@[w] == j as usize;
                            assert(prev[w] < i);
                        }
                    }
                }
            }
            i = i + 1;
        }
        self.filtered_actions = found;
        self.searched = true;
    }
}

} // verus!
