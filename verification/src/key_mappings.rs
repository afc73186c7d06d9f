//! The user interface actions that keyboard shortcuts are bound to, and the
//! lookup of an action by the names that the key-mapping configuration uses.
use vstd::prelude::*;
use crate::states::str_equal;

verus! {

/// Key context of the workspace.
pub const WORKSPACE: &'static str = "Workspace";
/// Key context of the sidebar.
pub const SIDEBAR: &'static str = "Sidebar";
/// Key context of lists and other general widgets.
pub const GENERAL: &'static str = "General";
/// Key context of the editor.
pub const EDITOR: &'static str = "Editor";

/// An action that a key binding triggers.
#[derive(Clone, Copy, Debug, PartialEq, Eq, Structural)]
pub enum UiAction {
    ToggleSidebar,
    ToggleSearchBar,
    ToggleCommandBar,
    ToggleSettingsPanel,
    CreateOneBlock,
    OpenNewWindow,
    NextTab,
    PreviousTab,
    CloseActiveTab,
    DeleteBlocks,
    MoveUp,
    MoveDown,
    MoveLeft,
    MoveRight,
    Open,
    Delete,
    SaveDocument,
}

/// A configured action name that no action of its context has.
pub struct UnknownAction {
    pub context: String,
    pub action: String,
}

/// The action of the workspace context with this name, if any.
pub open spec fn spec_workspace_action(action: Seq<char>) -> Option<UiAction> {
    if action == "ToggleSidebar"@ {
        Some(UiAction::ToggleSidebar)
    } else if action == "ToggleSearchBar"@ {
        Some(UiAction::ToggleSearchBar)
    } else if action == "ToggleCommandBar"@ {
        Some(UiAction::ToggleCommandBar)
    } else if action == "ToggleSettingsPanel"@ {
        Some(UiAction::ToggleSettingsPanel)
    } else if action == "CreateOneBlock"@ {
        Some(UiAction::CreateOneBlock)
    } else if action == "OpenNewWindow"@ {
        Some(UiAction::OpenNewWindow)
    } else if action == "NextTab"@ {
        Some(UiAction::NextTab)
    } else if action == "PreviousTab"@ {
        Some(UiAction::PreviousTab)
    } else if action == "CloseActiveTab"@ {
        Some(UiAction::CloseActiveTab)
    } else {
        None
    }
}

/// The action of the general context with this name, if any.
pub open spec fn spec_general_action(action: Seq<char>) -> Option<UiAction> {
    if action == "MoveUp"@ {
        Some(UiAction::MoveUp)
    } else if action == "MoveDown"@ {
        Some(UiAction::MoveDown)
    } else if action == "MoveLeft"@ {
        Some(UiAction::MoveLeft)
    } else if action == "MoveRight"@ {
        Some(UiAction::MoveRight)
    } else if action == "Open"@ {
        Some(UiAction::Open)
    } else if action == "Delete"@ {
        Some(UiAction::Delete)
    } else {
        None
    }
}

/// The action that a context and an action name denote, if any.
pub open spec fn spec_action(context: Seq<char>, action: Seq<char>) -> Option<UiAction> {
    if context == WORKSPACE@ {
        spec_workspace_action(action)
    } else if context == SIDEBAR@ {
        if action == "DeleteBlocks"@ {
            Some(UiAction::DeleteBlocks)
        } else {
            None
        }
    } else if context == GENERAL@ {
        spec_general_action(action)
    } else if context == EDITOR@ {
        if action == "SaveDocument"@ {
            Some(UiAction::SaveDocument)
        } else {
            None
        }
    } else {
        None
    }
}

fn workspace_action(action: &str) -> (r: Option<UiAction>)
    ensures
        r == spec_workspace_action(action@),
{
    if str_equal(action, "ToggleSidebar") {
        Some(UiAction::ToggleSidebar)
    } else if str_equal(action, "ToggleSearchBar") {
        Some(UiAction::ToggleSearchBar)
    } else if str_equal(action, "ToggleCommandBar") {
        Some(UiAction::ToggleCommandBar)
    } else if str_equal(action, "ToggleSettingsPanel") {
        Some(UiAction::ToggleSettingsPanel)
    } else if str_equal(action, "CreateOneBlock") {
        Some(UiAction::CreateOneBlock)
    } else if str_equal(action, "OpenNewWindow") {
        Some(UiAction::OpenNewWindow)
    } else if str_equal(action, "NextTab") {
        Some(UiAction::NextTab)
    } else if str_equal(action, "PreviousTab") {
        Some(UiAction::PreviousTab)
    } else if str_equal(action, "CloseActiveTab") {
        Some(UiAction::CloseActiveTab)
    } else {
        None
    }
}

fn general_action(action: &str) -> (r: Option<UiAction>)
    ensures
        r == spec_general_action(action@),
{
    if str_equal(action, "MoveUp") {
        Some(UiAction::MoveUp)
    } else if str_equal(action, "MoveDown") {
        Some(UiAction::MoveDown)
    } else if str_equal(action, "MoveLeft") {
        Some(UiAction::MoveLeft)
    } else if str_equal(action, "MoveRight") {
        Some(UiAction::MoveRight)
    } else if str_equal(action, "Open") {
        Some(UiAction::Open)
    } else if str_equal(action, "Delete") {
        Some(UiAction::Delete)
    } else {
        None
    }
}

/// The action bound under `context` with the name `action`, or an error naming
/// both when there is none.
pub fn into_action(context: &str, action: &str) -> (r: Result<UiAction, UnknownAction>)
    ensures
        r matches Ok(a) ==> spec_action(context@, action@) == Some(a),
        r matches Err(e) ==> spec_action(context@, action@) is None && e.context@ == context@ && e.action@ == action@,
{
    proof {
        reveal_strlit("Workspace");
        reveal_strlit("Sidebar");
        reveal_strlit("General");
        reveal_strlit("Editor");
    }
    let found = if str_equal(context, WORKSPACE) {
        workspace_action(action)
    } else if str_equal(context, SIDEBAR) {
        if str_equal(action, "DeleteBlocks") {
            Some(UiAction::DeleteBlocks)
        } else {
            None
        }
    } else if str_equal(context, GENERAL) {
        general_action(action)
    } else if str_equal(context, EDITOR) {
        if str_equal(action, "SaveDocument") {
            Some(UiAction::SaveDocument)
        } else {
            None
        }
    } else {
        None
    };
    match found {
        Some(a) => Ok(a),
        None => Err(UnknownAction { context: String::from_str(context), action: String::from_str(action) }),
    }
}

impl UnknownAction {
    /// The error's message: `Unknown action for context '<context>': <action>`.
    pub fn message(&self) -> (s: String)
        ensures
            s@ == "Unknown action for context '"@ + self.context@ + "': "@ + self.action@,
    {
        let mut s = String::from_str("Unknown action for context '");
        s.append(self.context.as_str());
        s.append("': ");
        s.append(self.action.as_str());
        s
    }
}

/// The name of an action in the key-mapping configuration: the action's own name.
pub open spec fn action_name(a: UiAction) -> Seq<char> {
    match a {
        UiAction::ToggleSidebar => "ToggleSidebar"@,
        UiAction::ToggleSearchBar => "ToggleSearchBar"@,
        UiAction::ToggleCommandBar => "ToggleCommandBar"@,
        UiAction::ToggleSettingsPanel => "ToggleSettingsPanel"@,
        UiAction::CreateOneBlock => "CreateOneBlock"@,
        UiAction::OpenNewWindow => "OpenNewWindow"@,
        UiAction::NextTab => "NextTab"@,
        UiAction::PreviousTab => "PreviousTab"@,
        UiAction::CloseActiveTab => "CloseActiveTab"@,
        UiAction::DeleteBlocks => "DeleteBlocks"@,
        UiAction::MoveUp => "MoveUp"@,
        UiAction::MoveDown => "MoveDown"@,
        UiAction::MoveLeft => "MoveLeft"@,
        UiAction::MoveRight => "MoveRight"@,
        UiAction::Open => "Open"@,
        UiAction::Delete => "Delete"@,
        UiAction::SaveDocument => "SaveDocument"@,
    }
}

/// The key context an action belongs to.
pub open spec fn action_context(a: UiAction) -> Seq<char> {
    match a {
        UiAction::ToggleSidebar => WORKSPACE@,
        UiAction::ToggleSearchBar => WORKSPACE@,
        UiAction::ToggleCommandBar => WORKSPACE@,
        UiAction::ToggleSettingsPanel => WORKSPACE@,
        UiAction::CreateOneBlock => WORKSPACE@,
        UiAction::OpenNewWindow => WORKSPACE@,
        UiAction::NextTab => WORKSPACE@,
        UiAction::PreviousTab => WORKSPACE@,
        UiAction::CloseActiveTab => WORKSPACE@,
        UiAction::DeleteBlocks => SIDEBAR@,
        UiAction::MoveUp => GENERAL@,
        UiAction::MoveDown => GENERAL@,
        UiAction::MoveLeft => GENERAL@,
        UiAction::MoveRight => GENERAL@,
        UiAction::Open => GENERAL@,
        UiAction::Delete => GENERAL@,
        UiAction::SaveDocument => EDITOR@,
    }
}

/// Law: every action is found under its own name in its own context, and a name
/// that is found denotes the action of that very name and context; so no two
/// names, and no two contexts, lead to the same action.
pub proof fn law_actions_are_found_by_their_names(a: UiAction, context: Seq<char>, action: Seq<char>)
    ensures
        spec_action(action_context(a), action_name(a)) == Some(a),
        spec_action(context, action) matches Some(b) ==> action_name(b) == action && action_context(b) == context,
{
    reveal_strlit("ToggleSidebar");
    reveal_strlit("ToggleSearchBar");
    reveal_strlit("ToggleCommandBar");
    reveal_strlit("ToggleSettingsPanel");
    reveal_strlit("CreateOneBlock");
    reveal_strlit("OpenNewWindow");
    reveal_strlit("NextTab");
    reveal_strlit("PreviousTab");
    reveal_strlit("CloseActiveTab");
    reveal_strlit("DeleteBlocks");
    reveal_strlit("MoveUp");
    reveal_strlit("MoveDown");
    reveal_strlit("MoveLeft");
    reveal_strlit("MoveRight");
    reveal_strlit("Open");
    reveal_strlit("Delete");
    reveal_strlit("SaveDocument");
    reveal_strlit("Workspace");
    reveal_strlit("Sidebar");
    reveal_strlit("General");
    reveal_strlit("Editor");
    match a {
        UiAction::ToggleSidebar => {
            assert(spec_action(action_context(a), action_name(a)) == Some(a));
        },
        UiAction::ToggleSearchBar => {
            assert("ToggleSearchBar"@.len() != "ToggleSidebar"@.len());
            assert(spec_action(action_context(a), action_name(a)) == Some(a));
        },
        UiAction::ToggleCommandBar => {
            assert("ToggleCommandBar"@.len() != "ToggleSidebar"@.len());
            assert("ToggleCommandBar"@.len() != "ToggleSearchBar"@.len());
            assert(spec_action(action_context(a), action_name(a)) == Some(a));
        },
        UiAction::ToggleSettingsPanel => {
            assert("ToggleSettingsPanel"@.len() != "ToggleSidebar"@.len());
            assert("ToggleSettingsPanel"@.len() != "ToggleSearchBar"@.len());
            assert("ToggleSettingsPanel"@.len() != "ToggleCommandBar"@.len());
            assert(spec_action(action_context(a), action_name(a)) == Some(a));
        },
        UiAction::CreateOneBlock => {
            assert("CreateOneBlock"@.len() != "ToggleSidebar"@.len());
            assert("CreateOneBlock"@.len() != "ToggleSearchBar"@.len());
            assert("CreateOneBlock"@.len() != "ToggleCommandBar"@.len());
            assert("CreateOneBlock"@.len() != "ToggleSettingsPanel"@.len());
            assert(spec_action(action_context(a), action_name(a)) == Some(a));
        },
        UiAction::OpenNewWindow => {
            assert("OpenNewWindow"@[0] != "ToggleSidebar"@[0]);
            assert("OpenNewWindow"@.len() != "ToggleSearchBar"@.len());
            assert("OpenNewWindow"@.len() != "ToggleCommandBar"@.len());
            assert("OpenNewWindow"@.len() != "ToggleSettingsPanel"@.len());
            assert("OpenNewWindow"@.len() != "CreateOneBlock"@.len());
            assert(spec_action(action_context(a), action_name(a)) == Some(a));
        },
        UiAction::NextTab => {
            assert("NextTab"@.len() != "ToggleSidebar"@.len());
            assert("NextTab"@.len() != "ToggleSearchBar"@.len());
            assert("NextTab"@.len() != "ToggleCommandBar"@.len());
            assert("NextTab"@.len() != "ToggleSettingsPanel"@.len());
            assert("NextTab"@.len() != "CreateOneBlock"@.len());
            assert("NextTab"@.len() != "OpenNewWindow"@.len());
            assert(spec_action(action_context(a), action_name(a)) == Some(a));
        },
        UiAction::PreviousTab => {
            assert("PreviousTab"@.len() != "ToggleSidebar"@.len());
            assert("PreviousTab"@.len() != "ToggleSearchBar"@.len());
            assert("PreviousTab"@.len() != "ToggleCommandBar"@.len());
            assert("PreviousTab"@.len() != "ToggleSettingsPanel"@.len());
            assert("PreviousTab"@.len() != "CreateOneBlock"@.len());
            assert("PreviousTab"@.len() != "OpenNewWindow"@.len());
            assert("PreviousTab"@.len() != "NextTab"@.len());
            assert(spec_action(action_context(a), action_name(a)) == Some(a));
        },
        UiAction::CloseActiveTab => {
            assert("CloseActiveTab"@.len() != "ToggleSidebar"@.len());
            assert("CloseActiveTab"@.len() != "ToggleSearchBar"@.len());
            assert("CloseActiveTab"@.len() != "ToggleCommandBar"@.len());
            assert("CloseActiveTab"@.len() != "ToggleSettingsPanel"@.len());
            assert("CloseActiveTab"@[1] != "CreateOneBlock"@[1]);
            assert("CloseActiveTab"@.len() != "OpenNewWindow"@.len());
            assert("CloseActiveTab"@.len() != "NextTab"@.len());
            assert("CloseActiveTab"@.len() != "PreviousTab"@.len());
            assert(spec_action(action_context(a), action_name(a)) == Some(a));
        },
        UiAction::DeleteBlocks => {
            assert("Sidebar"@.len() != "Workspace"@.len());
            assert(spec_action(action_context(a), action_name(a)) == Some(a));
        },
        UiAction::MoveUp => {
            assert("General"@.len() != "Workspace"@.len());
            assert("General"@[0] != "Sidebar"@[0]);
            assert(spec_action(action_context(a), action_name(a)) == Some(a));
        },
        UiAction::MoveDown => {
            assert("General"@.len() != "Workspace"@.len());
            assert("General"@[0] != "Sidebar"@[0]);
            assert("MoveDown"@.len() != "MoveUp"@.len());
            assert(spec_action(action_context(a), action_name(a)) == Some(a));
        },
        UiAction::MoveLeft => {
            assert("General"@.len() != "Workspace"@.len());
            assert("General"@[0] != "Sidebar"@[0]);
            assert("MoveLeft"@.len() != "MoveUp"@.len());
            assert("MoveLeft"@[4] != "MoveDown"@[4]);
            assert(spec_action(action_context(a), action_name(a)) == Some(a));
        },
        UiAction::MoveRight => {
            assert("General"@.len() != "Workspace"@.len());
            assert("General"@[0] != "Sidebar"@[0]);
            assert("MoveRight"@.len() != "MoveUp"@.len());
            assert("MoveRight"@.len() != "MoveDown"@.len());
            assert("MoveRight"@.len() != "MoveLeft"@.len());
            assert(spec_action(action_context(a), action_name(a)) == Some(a));
        },
        UiAction::Open => {
            assert("General"@.len() != "Workspace"@.len());
            assert("General"@[0] != "Sidebar"@[0]);
            assert("Open"@.len() != "MoveUp"@.len());
            assert("Open"@.len() != "MoveDown"@.len());
            assert("Open"@.len() != "MoveLeft"@.len());
            assert("Open"@.len() != "MoveRight"@.len());
            assert(spec_action(action_context(a), action_name(a)) == Some(a));
        },
        UiAction::Delete => {
            assert("General"@.len() != "Workspace"@.len());
            assert("General"@[0] != "Sidebar"@[0]);
            assert("Delete"@[0] != "MoveUp"@[0]);
            assert("Delete"@.len() != "MoveDown"@.len());
            assert("Delete"@.len() != "MoveLeft"@.len());
            assert("Delete"@.len() != "MoveRight"@.len());
            assert("Delete"@.len() != "Open"@.len());
            assert(spec_action(action_context(a), action_name(a)) == Some(a));
        },
        UiAction::SaveDocument => {
            assert("Editor"@.len() != "Workspace"@.len());
            assert("Editor"@.len() != "Sidebar"@.len());
            assert("Editor"@.len() != "General"@.len());
            assert(spec_action(action_context(a), action_name(a)) == Some(a));
        },
    }
}

} // verus!
