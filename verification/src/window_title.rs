//! Window titles of the desktop application.
use vstd::prelude::*;

verus! {

/// The name of the application, the first component of every window title.
pub const DESKTOP_APP_NAME: &'static str = "OpenNote";

/// The text placed between two components of a window title.
pub const DESKTOP_TITLE_SEPARATOR: &'static str = " - ";

/// The components present in a title, in order: interface, server, document.
pub open spec fn title_components(
    interface_name: Option<Seq<char>>,
    server_name: Option<Seq<char>>,
    document_name: Option<Seq<char>>,
) -> Seq<Seq<char>> {
    let a: Seq<Seq<char>> = match interface_name { Some(n) => seq![n], None => seq![] };
    let b: Seq<Seq<char>> = match server_name { Some(n) => seq![n], None => seq![] };
    let c: Seq<Seq<char>> = match document_name { Some(n) => seq![n], None => seq![] };
    a + b + c
}

/// The application name followed by each component, each preceded by the separator.
pub open spec fn joined_title(app: Seq<char>, sep: Seq<char>, parts: Seq<Seq<char>>) -> Seq<char>
    decreases parts.len(),
{
    if parts.len() == 0 {
        app
    } else {
        joined_title(app, sep, parts.drop_last()) + sep + parts.last()
    }
}

pub open spec fn opt_view(s: Option<&str>) -> Option<Seq<char>> {
    match s { Some(x) => Some(x@), None => None }
}

/// Format a window title: the application name, then the interface, server and
/// document names that are present, joined by the separator.
pub fn format_window_title(
    interface_name: Option<&str>,
    server_name: Option<&str>,
    document_name: Option<&str>,
) -> (title: String)
    ensures
        title@ == joined_title(
            DESKTOP_APP_NAME@,
            DESKTOP_TITLE_SEPARATOR@,
            title_components(opt_view(interface_name), opt_view(server_name), opt_view(document_name)),
        ),
{
    let mut components = String::from_str(DESKTOP_APP_NAME);
    let ghost parts: Seq<Seq<char>> = seq![];
    if let Some(name) = interface_name {
        components.append(DESKTOP_TITLE_SEPARATOR);
        components.append(name);
        proof {
            lemma_joined_title_push(DESKTOP_APP_NAME@, DESKTOP_TITLE_SEPARATOR@, parts, name@);
            parts = parts.push(name@);
        }
    }
    if let Some(name) = server_name {
        components.append(DESKTOP_TITLE_SEPARATOR);
        components.append(name);
        proof {
            lemma_joined_title_push(DESKTOP_APP_NAME@, DESKTOP_TITLE_SEPARATOR@, parts, name@);
            parts = parts.push(name@);
        }
    }
    if let Some(name) = document_name {
        components.append(DESKTOP_TITLE_SEPARATOR);
        components.append(name);
        proof {
            lemma_joined_title_push(DESKTOP_APP_NAME@, DESKTOP_TITLE_SEPARATOR@, parts, name@);
            parts = parts.push(name@);
        }
    }
    assert(parts =~= title_components(opt_view(interface_name), opt_view(server_name), opt_view(document_name)));
    components
}

proof fn lemma_joined_title_push(app: Seq<char>, sep: Seq<char>, parts: Seq<Seq<char>>, x: Seq<char>)
    ensures
        joined_title(app, sep, parts.push(x)) == joined_title(app, sep, parts) + sep + x,
{
    assert(parts.push(x).drop_last() =~= parts);
}

/// The title of a workspace window: the open document's title and the server
/// holding it, or, with no document open, the window's active server.
pub fn workspace_window_title(states: &crate::states::States, selected_block: Option<u128>, window_id: u64) -> (title: String)
    requires
        selected_block matches Some(b) ==> crate::states::held_by_some_server(states.servers@, b),
    ensures
        selected_block is None ==> exists|server: Seq<char>| #[trigger] joined_title(
            DESKTOP_APP_NAME@,
            DESKTOP_TITLE_SEPARATOR@,
            title_components(None, Some(server), None),
        ) == title@ && (if states.active_servers@.contains_key(window_id) {
            server == states.active_servers@[window_id]@
        } else {
            server == crate::states::LOCAL_SERVER_NAME@
        }),
        selected_block matches Some(b) ==> exists|s: int| #[trigger] crate::states::first_holder(states.servers@, b, s) && title@ == joined_title(
            DESKTOP_APP_NAME@,
            DESKTOP_TITLE_SEPARATOR@,
            title_components(None, Some(states.servers@[s].name@), Some(states.servers@[s].blocks@[b].title@)),
        ),
{
    match selected_block {
        Some(b) => {
            let server = states.server_name_of_block(b);
            match states.get_block(&b) {
                Some(block) => {
                    let t = format_window_title(None, Some(server.as_str()), Some(block.title.as_str()));
                    proof {
                        let s = choose|s: int| crate::states::first_holder(states.servers@, b, s) && *block == #[trigger] states.servers@[s].blocks@[b];
                        assert(crate::states::first_holder(states.servers@, b, s));
                    }
                    t
                },
                None => format_window_title(None, Some(server.as_str()), None),
            }
        },
        None => {
            let server = states.get_active_server_name(window_id);
            let t = format_window_title(None, Some(server.as_str()), None);
            proof {
                assert(joined_title(DESKTOP_APP_NAME@, DESKTOP_TITLE_SEPARATOR@, title_components(None, Some(server@), None)) == t@);
            }
            t
        },
    }
}

/// The separator followed by the component, or nothing when it is absent.
pub open spec fn title_piece(sep: Seq<char>, part: Option<Seq<char>>) -> Seq<char> {
    match part {
        Some(n) => sep + n,
        None => Seq::empty(),
    }
}

/// Law: a window title is the application name followed, in this order, by the
/// interface, server and document names that are present, each after one
/// separator; an absent name leaves no separator behind.
pub proof fn law_title_lists_present_names_in_order(
    app: Seq<char>,
    sep: Seq<char>,
    interface_name: Option<Seq<char>>,
    server_name: Option<Seq<char>>,
    document_name: Option<Seq<char>>,
)
    ensures
        joined_title(app, sep, title_components(interface_name, server_name, document_name)) == app + title_piece(
            sep,
            interface_name,
        ) + title_piece(sep, server_name) + title_piece(sep, document_name),
{
    let e: Seq<Seq<char>> = seq![];
    let a: Seq<Seq<char>> = match interface_name { Some(n) => seq![n], None => seq![] };
    let b: Seq<Seq<char>> = match server_name { Some(n) => seq![n], None => seq![] };
    let c: Seq<Seq<char>> = match document_name { Some(n) => seq![n], None => seq![] };
    let ab = a + b;
    let abc = ab + c;
    assert(abc == title_components(interface_name, server_name, document_name));
    let ja = app + title_piece(sep, interface_name);
    let jab = ja + title_piece(sep, server_name);
    assert(joined_title(app, sep, a) == ja) by {
        if let Some(n) = interface_name {
            assert(a =~= e.push(n));
            lemma_joined_title_push(app, sep, e, n);
        } else {
            assert(ja =~= app);
        }
    }
    assert(joined_title(app, sep, ab) == jab) by {
        if let Some(n) = server_name {
            assert(ab =~= a.push(n));
            lemma_joined_title_push(app, sep, a, n);
            assert(ja + sep + n =~= jab);
        } else {
            assert(ab =~= a);
            assert(jab =~= ja);
        }
    }
    if let Some(n) = document_name {
        assert(abc =~= ab.push(n));
        lemma_joined_title_push(app, sep, ab, n);
        assert(jab + sep + n =~= jab + title_piece(sep, document_name));
    } else {
        assert(abc =~= ab);
        assert(jab + title_piece(sep, document_name) =~= jab);
    }
}

} // verus!
