//! The workspace's memory of where keyboard focus was, so that closing a panel
//! gives the focus back to what held it before the panel opened.
use vstd::prelude::*;

verus! {

/// The earlier focus holders, the most recent last; `H` is a focus handle.
pub struct FocusStack<H> {
    pub previous_focuses: Vec<H>,
}

impl<H> FocusStack<H> {
    pub fn new() -> (s: FocusStack<H>)
        ensures
            s.previous_focuses@.len() == 0,
    {
        FocusStack { previous_focuses: Vec::new() }
    }

    /// A panel takes the focus: remember what held it, if anything did.
    pub fn advance_focus(&mut self, focused: Option<H>)
        ensures
            match focused {
                Some(h) => final(self).previous_focuses@ == old(self).previous_focuses@.push(h),
                None => final(self).previous_focuses@ == old(self).previous_focuses@,
            },
    {
        if let Some(h) = focused {
            self.previous_focuses.push(h);
        }
    }

    /// A panel lets the focus go: it returns to the most recent earlier holder,
    /// which is forgotten, or to the workspace itself when there is none.
    pub fn return_focus(&mut self, workspace: H) -> (h: H)
        ensures
            old(self).previous_focuses@.len() > 0 ==> h == old(self).previous_focuses@.last()
                && final(self).previous_focuses@ == old(self).previous_focuses@.drop_last(),
            old(self).previous_focuses@.len() == 0 ==> h == workspace && final(self).previous_focuses@.len() == 0,
    {
        match self.previous_focuses.pop() {
            Some(h) => h,
            None => workspace,
        }
    }
}

/// The stack after a panel opened while `focused` held the focus.
pub open spec fn spec_advance<H>(s: Seq<H>, focused: Option<H>) -> Seq<H> {
    match focused {
        Some(h) => s.push(h),
        None => s,
    }
}

/// Law: opening a panel and closing it again gives the focus back to what held it
/// (to the workspace when nothing did) and leaves the stack as it was.
pub proof fn law_return_undoes_advance<H>(s: Seq<H>, focused: Option<H>)
    ensures
        ({
            let t = spec_advance(s, focused);
            &&& focused matches Some(h) ==> t.len() > 0 && t.last() == h && t.drop_last() == s
            &&& focused is None ==> t == s
        }),
{
    if let Some(h) = focused {
        assert(s.push(h).drop_last() =~= s);
    }
}

} // verus!
