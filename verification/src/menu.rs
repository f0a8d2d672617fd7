//! The native application menu: its sections, the items in each with their
//! ids, labels and shortcuts, and the Open Recent list. Every item only names
//! an action; the frontend carries it out when the menu reports the item's id.
//! Handing this model to the platform's menu API is the application shell's
//! part.

use vstd::prelude::*;
use crate::frontmatter::{emit_nat, nat_text};
use crate::text::{chars_of, string_of};

verus! {

/// Event the frontend listens on. The payload is the menu item id.
pub const MENU_EVENT: &'static str = "menu-action";

/// A recently opened vault, as shown under File, Open Recent.
pub struct RecentEntry {
    pub name: String,
}

/// One item of a menu: its id, the label shown, and whether it can be
/// chosen.
pub struct MenuEntry {
    pub id: String,
    pub label: String,
    pub enabled: bool,
}

/// The id of the `i`th recent vault's item: `recent:` and its position.
pub open spec fn recent_id(i: nat) -> Seq<char> {
    seq!['r', 'e', 'c', 'e', 'n', 't', ':'] + nat_text(i)
}

/// The items under Open Recent: one per recent vault, in order, or a single
/// disabled placeholder when there are none.
pub fn recent_items(recents: &Vec<RecentEntry>) -> (r: Vec<MenuEntry>)
    ensures
        recents@.len() == 0 ==> r@.len() == 1 && r@[0].id@ == "recent-empty"@ && r@[0].label@
            == "No recent vaults"@ && !r@[0].enabled,
        recents@.len() > 0 ==> r@.len() == recents@.len() && forall|i: int|
            0 <= i < recents@.len() ==> (#[trigger] r@[i]).id@ == recent_id(i as nat) && r@[i].label@
                == recents@[i].name@ && r@[i].enabled,
{
    let mut out: Vec<MenuEntry> = Vec::new();
    if recents.len() == 0 {
        let id = string_of(chars_of("recent-empty").as_slice());
        let label = string_of(chars_of("No recent vaults").as_slice());
        out.push(MenuEntry { id, label, enabled: false });
        return out;
    }
    let mut k: usize = 0;
    while k < recents.len()
        invariant
            k <= recents@.len(),
            out@.len() == k,
            forall|i: int|
                0 <= i < k ==> (#[trigger] out@[i]).id@ == recent_id(i as nat) && out@[i].label@
                    == recents@[i].name@ && out@[i].enabled,
        decreases recents@.len() - k,
    {
        let mut id = chars_of("recent:");
        proof {
            reveal_strlit("recent:");
        }
        assert(id@ =~= seq!['r', 'e', 'c', 'e', 'n', 't', ':']);
        emit_nat(&mut id, k as u64);
        let label = string_of(chars_of(recents[k].name.as_str()).as_slice());
        out.push(MenuEntry { id: string_of(id.as_slice()), label, enabled: true });
        k += 1;
    }
    out
}


/// A menu item the platform supplies with its own behaviour.
pub enum Native {
    Separator,
    Services,
    Hide,
    HideOthers,
    ShowAll,
    Quit,
    CloseWindow,
    Undo,
    Redo,
    Cut,
    Copy,
    Paste,
    SelectAll,
    Fullscreen,
    Minimize,
    Maximize,
}

/// One entry of a menu section: an action item with its id, label, whether
/// it can be chosen and its keyboard shortcut; an item the platform
/// supplies; or the Open Recent submenu with its items.
pub enum MenuItem {
    Action { id: String, label: String, enabled: bool, shortcut: Option<String> },
    Native(Native),
    OpenRecent(Vec<MenuEntry>),
}

/// A section of the menu bar: its title and its items, top to bottom.
pub struct Submenu {
    pub title: String,
    pub items: Vec<MenuItem>,
}

/// What a menu item is, as text.
pub enum SpecItem {
    Action { id: Seq<char>, label: Seq<char>, enabled: bool, shortcut: Option<Seq<char>> },
    Native(Native),
    OpenRecent(Seq<(Seq<char>, Seq<char>, bool)>),
}

pub struct SpecSubmenu {
    pub title: Seq<char>,
    pub items: Seq<SpecItem>,
}

pub open spec fn entry_view(e: MenuEntry) -> (Seq<char>, Seq<char>, bool) {
    (e.id@, e.label@, e.enabled)
}

pub open spec fn item_view(i: MenuItem) -> SpecItem {
    match i {
        MenuItem::Action { id, label, enabled, shortcut } => SpecItem::Action {
            id: id@,
            label: label@,
            enabled,
            shortcut: match shortcut {
                Some(s) => Some(s@),
                None => None,
            },
        },
        MenuItem::Native(n) => SpecItem::Native(n),
        MenuItem::OpenRecent(es) => SpecItem::OpenRecent(es@.map_values(|e: MenuEntry| entry_view(e))),
    }
}

pub open spec fn submenu_view(s: Submenu) -> SpecSubmenu {
    SpecSubmenu { title: s.title@, items: s.items@.map_values(|i: MenuItem| item_view(i)) }
}

pub open spec fn menu_view(m: Seq<Submenu>) -> Seq<SpecSubmenu> {
    m.map_values(|s: Submenu| submenu_view(s))
}

/// The Open Recent items for vaults with these names.
pub open spec fn recent_spec(names: Seq<Seq<char>>) -> Seq<(Seq<char>, Seq<char>, bool)> {
    if names.len() == 0 {
        seq![("recent-empty"@, "No recent vaults"@, false)]
    } else {
        Seq::new(names.len(), |i: int| (recent_id(i as nat), names[i], true))
    }
}

pub open spec fn act(id: Seq<char>, label: Seq<char>, shortcut: Option<Seq<char>>) -> SpecItem {
    SpecItem::Action { id, label, enabled: true, shortcut }
}

pub open spec fn sep() -> SpecItem {
    SpecItem::Native(Native::Separator)
}

pub open spec fn app_section() -> SpecSubmenu {
    SpecSubmenu {
        title: "Intentio Knowledge"@,
        items: seq![
            act("about"@, "About Intentio Knowledge"@, None),
            act("check-updates"@, "Check for Updates…"@, None),
            sep(),
            SpecItem::Native(Native::Services),
            sep(),
            SpecItem::Native(Native::Hide),
            SpecItem::Native(Native::HideOthers),
            SpecItem::Native(Native::ShowAll),
            sep(),
            SpecItem::Native(Native::Quit),
        ],
    }
}

pub open spec fn file_section(names: Seq<Seq<char>>) -> SpecSubmenu {
    SpecSubmenu {
        title: "File"@,
        items: seq![
            act("new-note"@, "New Note"@, Some("CmdOrCtrl+N"@)),
            sep(),
            act("open-vault"@, "Open Vault…"@, Some("CmdOrCtrl+Shift+O"@)),
            act("new-vault"@, "New Vault…"@, None),
            SpecItem::OpenRecent(recent_spec(names)),
            act("close-vault"@, "Close Vault"@, None),
            sep(),
            act("save"@, "Save"@, Some("CmdOrCtrl+S"@)),
            act("rename"@, "Rename or Move Note…"@, None),
            act("delete"@, "Delete Note…"@, None),
            sep(),
            SpecItem::Native(Native::CloseWindow),
        ],
    }
}

pub open spec fn edit_section() -> SpecSubmenu {
    SpecSubmenu {
        title: "Edit"@,
        items: seq![
            SpecItem::Native(Native::Undo),
            SpecItem::Native(Native::Redo),
            sep(),
            SpecItem::Native(Native::Cut),
            SpecItem::Native(Native::Copy),
            SpecItem::Native(Native::Paste),
            SpecItem::Native(Native::SelectAll),
        ],
    }
}

pub open spec fn view_section() -> SpecSubmenu {
    SpecSubmenu {
        title: "View"@,
        items: seq![
            act("toggle-view"@, "Toggle Read / Source"@, Some("CmdOrCtrl+E"@)),
            act("toggle-graph"@, "Graph View"@, Some("CmdOrCtrl+G"@)),
            sep(),
            act("toggle-sidebar"@, "Toggle Sidebar"@, Some("CmdOrCtrl+B"@)),
            act("toggle-panel"@, "Toggle Side Panel"@, Some("CmdOrCtrl+\\"@)),
            sep(),
            act("toggle-theme"@, "Switch Theme"@, None),
            sep(),
            SpecItem::Native(Native::Fullscreen),
        ],
    }
}

pub open spec fn go_section() -> SpecSubmenu {
    SpecSubmenu {
        title: "Go"@,
        items: seq![
            act("jump"@, "Jump to Note…"@, Some("CmdOrCtrl+O"@)),
            act("search"@, "Search Notes…"@, Some("CmdOrCtrl+Shift+F"@)),
        ],
    }
}

pub open spec fn window_section() -> SpecSubmenu {
    SpecSubmenu {
        title: "Window"@,
        items: seq![SpecItem::Native(Native::Minimize), SpecItem::Native(Native::Maximize)],
    }
}

pub open spec fn help_section() -> SpecSubmenu {
    SpecSubmenu {
        title: "Help"@,
        items: seq![
            act("about"@, "About Intentio Knowledge"@, None),
            act("check-updates"@, "Check for Updates…"@, None),
            sep(),
            act("website"@, "Intentio Software"@, None),
        ],
    }
}

/// The whole menu bar for vaults recently opened under these names.
pub open spec fn menu_spec(names: Seq<Seq<char>>) -> Seq<SpecSubmenu> {
    seq![
        app_section(),
        file_section(names),
        edit_section(),
        view_section(),
        go_section(),
        window_section(),
        help_section(),
    ]
}

pub open spec fn recent_names(recents: Seq<RecentEntry>) -> Seq<Seq<char>> {
    recents.map_values(|e: RecentEntry| e.name@)
}

fn text(s: &str) -> (r: String)
    ensures
        r@ == s@,
{
    string_of(chars_of(s).as_slice())
}

fn action(id: &str, label: &str, shortcut: Option<&str>) -> (r: MenuItem)
    ensures
        item_view(r) == act(
            id@,
            label@,
            match shortcut {
                Some(s) => Some(s@),
                None => None,
            },
        ),
{
    let sc = match shortcut {
        Some(s) => Some(text(s)),
        None => None,
    };
    MenuItem::Action { id: text(id), label: text(label), enabled: true, shortcut: sc }
}

fn native(n: Native) -> (r: MenuItem)
    ensures
        item_view(r) == SpecItem::Native(n),
{
    MenuItem::Native(n)
}

fn section(title: &str, items: Vec<MenuItem>) -> (r: Submenu)
    ensures
        submenu_view(r) == (SpecSubmenu { title: title@, items: items@.map_values(|i: MenuItem| item_view(i)) }),
{
    Submenu { title: text(title), items }
}

/// The menu bar: the application, File, Edit, View, Go, Window and Help
/// sections, with Open Recent listing the given vaults.
pub fn menu_model(recents: &Vec<RecentEntry>) -> (r: Vec<Submenu>)
    ensures
        menu_view(r@) == menu_spec(recent_names(recents@)),
{
    let ghost names = recent_names(recents@);
    let recent = recent_items(recents);
    assert(recent@.map_values(|e: MenuEntry| entry_view(e)) =~= recent_spec(names));

    let mut app_items: Vec<MenuItem> = Vec::new();
    app_items.push(action("about", "About Intentio Knowledge", None));
    app_items.push(action("check-updates", "Check for Updates…", None));
    app_items.push(native(Native::Separator));
    app_items.push(native(Native::Services));
    app_items.push(native(Native::Separator));
    app_items.push(native(Native::Hide));
    app_items.push(native(Native::HideOthers));
    app_items.push(native(Native::ShowAll));
    app_items.push(native(Native::Separator));
    app_items.push(native(Native::Quit));
    let app_menu = section("Intentio Knowledge", app_items);
    assert(submenu_view(app_menu).items =~= app_section().items);

    let mut file_items: Vec<MenuItem> = Vec::new();
    file_items.push(action("new-note", "New Note", Some("CmdOrCtrl+N")));
    file_items.push(native(Native::Separator));
    file_items.push(action("open-vault", "Open Vault…", Some("CmdOrCtrl+Shift+O")));
    file_items.push(action("new-vault", "New Vault…", None));
    file_items.push(MenuItem::OpenRecent(recent));
    file_items.push(action("close-vault", "Close Vault", None));
    file_items.push(native(Native::Separator));
    file_items.push(action("save", "Save", Some("CmdOrCtrl+S")));
    file_items.push(action("rename", "Rename or Move Note…", None));
    file_items.push(action("delete", "Delete Note…", None));
    file_items.push(native(Native::Separator));
    file_items.push(native(Native::CloseWindow));
    let file_menu = section("File", file_items);
    assert(submenu_view(file_menu).items =~= file_section(names).items);

    let mut edit_items: Vec<MenuItem> = Vec::new();
    edit_items.push(native(Native::Undo));
    edit_items.push(native(Native::Redo));
    edit_items.push(native(Native::Separator));
    edit_items.push(native(Native::Cut));
    edit_items.push(native(Native::Copy));
    edit_items.push(native(Native::Paste));
    edit_items.push(native(Native::SelectAll));
    let edit_menu = section("Edit", edit_items);
    assert(submenu_view(edit_menu).items =~= edit_section().items);

    let mut view_items: Vec<MenuItem> = Vec::new();
    view_items.push(action("toggle-view", "Toggle Read / Source", Some("CmdOrCtrl+E")));
    view_items.push(action("toggle-graph", "Graph View", Some("CmdOrCtrl+G")));
    view_items.push(native(Native::Separator));
    view_items.push(action("toggle-sidebar", "Toggle Sidebar", Some("CmdOrCtrl+B")));
    view_items.push(action("toggle-panel", "Toggle Side Panel", Some("CmdOrCtrl+\\")));
    view_items.push(native(Native::Separator));
    view_items.push(action("toggle-theme", "Switch Theme", None));
    view_items.push(native(Native::Separator));
    view_items.push(native(Native::Fullscreen));
    let view_menu = section("View", view_items);
    assert(submenu_view(view_menu).items =~= view_section().items);

    let mut go_items: Vec<MenuItem> = Vec::new();
    go_items.push(action("jump", "Jump to Note…", Some("CmdOrCtrl+O")));
    go_items.push(action("search", "Search Notes…", Some("CmdOrCtrl+Shift+F")));
    let go_menu = section("Go", go_items);
    assert(submenu_view(go_menu).items =~= go_section().items);

    let mut window_items: Vec<MenuItem> = Vec::new();
    window_items.push(native(Native::Minimize));
    window_items.push(native(Native::Maximize));
    let window_menu = section("Window", window_items);
    assert(submenu_view(window_menu).items =~= window_section().items);

    let mut help_items: Vec<MenuItem> = Vec::new();
    help_items.push(action("about", "About Intentio Knowledge", None));
    help_items.push(action("check-updates", "Check for Updates…", None));
    help_items.push(native(Native::Separator));
    help_items.push(action("website", "Intentio Software", None));
    let help_menu = section("Help", help_items);
    assert(submenu_view(help_menu).items =~= help_section().items);

    let r = vec![app_menu, file_menu, edit_menu, view_menu, go_menu, window_menu, help_menu];
    assert(menu_view(r@) =~~= menu_spec(names));
    r
}

} // verus!
