//! Which block the editor shows and when its content is (re)loaded: switching
//! blocks keeps the unsaved text of the one left, and a search result's passage
//! is highlighted once the content is in place.
use vstd::prelude::*;

verus! {

/// The editor's record of the block it shows.
pub struct EditorSession {
    /// The block to show.
    pub block_id: Option<u128>,
    /// The block whose content the editor holds.
    pub loaded_block_id: Option<u128>,
    /// A passage to highlight once the content is shown.
    pub highlighted_text: Option<String>,
}

/// What the editor does next to show its block.
pub enum ContentStep {
    /// No block is registered.
    Nothing,
    /// The block's content is already shown: highlight the passage, if any.
    Highlight(Option<String>),
    /// Fetch the block's text (its unsaved text, if its tab holds one) and show it.
    Load(u128),
}

impl EditorSession {
    pub fn new() -> (s: EditorSession)
        ensures
            s.block_id is None,
            s.loaded_block_id is None,
            s.highlighted_text is None,
    {
        EditorSession { block_id: None, loaded_block_id: None, highlighted_text: None }
    }

    /// Register the block to show. Registering the block already shown changes
    /// nothing and returns `None`; otherwise the previous block is returned, whose
    /// unsaved text is to be kept in its tab.
    pub fn register_block(&mut self, block_id: u128) -> (leaving: Option<Option<u128>>)
        ensures
            old(self).block_id == Some(block_id) ==> leaving is None && *final(self) == *old(self),
            old(self).block_id != Some(block_id) ==> leaving == Some(old(self).block_id)
                && final(self).block_id == Some(block_id)
                && final(self).loaded_block_id == old(self).loaded_block_id
                && final(self).highlighted_text == old(self).highlighted_text,
    {
        if self.block_id == Some(block_id) {
            return None;
        }
        let previous = self.block_id;
        self.block_id = Some(block_id);
        Some(previous)
    }

    /// Remember a passage to highlight; `None` does nothing (a passage already
    /// waiting stays).
    pub fn register_highlighted_text(&mut self, text: Option<String>)
        ensures
            text is Some ==> final(self).highlighted_text == text,
            text is None ==> *final(self) == *old(self),
            final(self).block_id == old(self).block_id,
            final(self).loaded_block_id == old(self).loaded_block_id,
    {
        if text.is_some() {
            self.highlighted_text = text;
        }
    }

    /// The next step to show the registered block. A block already loaded only
    /// has its passage highlighted (the passage is used up); another block is
    /// recorded as loaded and its text must be fetched.
    pub fn next_content_step(&mut self) -> (step: ContentStep)
        ensures
            final(self).block_id == old(self).block_id,
            old(self).block_id is None ==> step is Nothing && *final(self) == *old(self),
            (old(self).block_id is Some && old(self).loaded_block_id == old(self).block_id) ==> (step matches ContentStep::Highlight(t)
                && t == old(self).highlighted_text && final(self).highlighted_text is None
                && final(self).loaded_block_id == old(self).loaded_block_id),
            (old(self).block_id is Some && old(self).loaded_block_id != old(self).block_id) ==> (step matches ContentStep::Load(l)
                && old(self).block_id == Some(l) && final(self).loaded_block_id == Some(l)
                && final(self).highlighted_text == old(self).highlighted_text),
    {
        match self.block_id {
            None => ContentStep::Nothing,
            Some(b) => {
                if self.loaded_block_id == Some(b) {
                    let mut t: Option<String> = None;
                    std::mem::swap(&mut t, &mut self.highlighted_text);
                    ContentStep::Highlight(t)
                } else {
                    self.loaded_block_id = Some(b);
                    ContentStep::Load(b)
                }
            },
        }
    }

    /// The fetched text is in hand. When it equals what the editor shows, nothing
    /// is done (`None`; the passage stays for later); otherwise the text is to be
    /// shown and the passage, used up, highlighted.
    pub fn finish_load(&mut self, unchanged: bool) -> (highlight: Option<Option<String>>)
        ensures
            unchanged ==> highlight is None && *final(self) == *old(self),
            !unchanged ==> highlight == Some(old(self).highlighted_text) && final(self).highlighted_text is None
                && final(self).block_id == old(self).block_id
                && final(self).loaded_block_id == old(self).loaded_block_id,
    {
        if unchanged {
            return None;
        }
        let mut t: Option<String> = None;
        std::mem::swap(&mut t, &mut self.highlighted_text);
        Some(t)
    }
}

/// The text to show for a block: the unsaved text its tab kept, else its stored
/// text.
pub fn content_to_show(unsaved: Option<String>, stored: String) -> (s: String)
    ensures
        unsaved matches Some(u) ==> s == u,
        unsaved is None ==> s == stored,
{
    match unsaved {
        Some(u) => u,
        None => stored,
    }
}

} // verus!
