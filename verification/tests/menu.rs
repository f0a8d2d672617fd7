use int_vault::menu::{menu_model, recent_items, MenuItem, Native, RecentEntry};

#[test]
fn open_recent_lists_each_vault_by_position() {
    let recents = vec![RecentEntry { name: "Notes".to_string() }, RecentEntry { name: "Team".to_string() }];
    let items = recent_items(&recents);
    let shown: Vec<(&str, &str, bool)> = items.iter().map(|i| (i.id.as_str(), i.label.as_str(), i.enabled)).collect();
    assert_eq!(shown, vec![("recent:0", "Notes", true), ("recent:1", "Team", true)]);
}

#[test]
fn open_recent_without_vaults_shows_a_disabled_placeholder() {
    let items = recent_items(&Vec::new());
    assert_eq!(items.len(), 1);
    assert_eq!(items[0].id, "recent-empty");
    assert_eq!(items[0].label, "No recent vaults");
    assert!(!items[0].enabled);
}

fn shortcut_of(menu: &[int_vault::menu::Submenu], id: &str) -> Option<String> {
    for section in menu {
        for item in &section.items {
            if let MenuItem::Action { id: i, shortcut, .. } = item {
                if i == id {
                    return shortcut.clone();
                }
            }
        }
    }
    panic!("no item {id}");
}

#[test]
fn the_menu_bar_holds_every_section_and_shortcut() {
    let menu = menu_model(&Vec::new());
    let titles: Vec<&str> = menu.iter().map(|s| s.title.as_str()).collect();
    assert_eq!(titles, vec!["Intentio Knowledge", "File", "Edit", "View", "Go", "Window", "Help"]);
    let expected = [
        ("new-note", "CmdOrCtrl+N"),
        ("open-vault", "CmdOrCtrl+Shift+O"),
        ("save", "CmdOrCtrl+S"),
        ("toggle-view", "CmdOrCtrl+E"),
        ("toggle-graph", "CmdOrCtrl+G"),
        ("toggle-sidebar", "CmdOrCtrl+B"),
        ("toggle-panel", "CmdOrCtrl+\\"),
        ("jump", "CmdOrCtrl+O"),
        ("search", "CmdOrCtrl+Shift+F"),
    ];
    for (id, key) in expected {
        assert_eq!(shortcut_of(&menu, id).as_deref(), Some(key));
    }
    assert_eq!(shortcut_of(&menu, "toggle-theme"), None);
    assert!(matches!(menu[2].items[0], MenuItem::Native(Native::Undo)));
    assert!(matches!(menu[0].items.last(), Some(MenuItem::Native(Native::Quit))));
}

#[test]
fn the_file_menu_carries_open_recent() {
    let recents = vec![RecentEntry { name: "Notes".to_string() }];
    let menu = menu_model(&recents);
    match &menu[1].items[4] {
        MenuItem::OpenRecent(items) => {
            assert_eq!(items.len(), 1);
            assert_eq!(items[0].id, "recent:0");
            assert_eq!(items[0].label, "Notes");
        }
        _ => panic!("Open Recent is the fifth File item"),
    }
}
