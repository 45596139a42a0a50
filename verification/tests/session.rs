use spmc::{command_for_key, App, CatalogError, Command, Goods, Intent, Key};

fn record(code: &str, name: &str, desc: &str) -> Goods {
    Goods {
        code: String::from(code),
        hwlwmc: String::from(name),
        spfwfljc: String::from("short"),
        desc: String::from(desc),
    }
}

fn catalog() -> Vec<Goods> {
    vec![
        record("1000000000000000000", "A", "first"),
        record("2000000000000000000", "B", "second"),
        record("1010000000000000000", "C", "below the first"),
        record("1020300000000000000", "orphan", "its parent is missing"),
    ]
}

#[test]
fn keys_and_their_commands() {
    assert_eq!(command_for_key(Key::Char('q')), Command::Quit);
    assert_eq!(command_for_key(Key::Char('\n')), Command::Navigate(Intent::Toggle));
    assert_eq!(command_for_key(Key::Char(' ')), Command::Navigate(Intent::Toggle));
    assert_eq!(command_for_key(Key::Left), Command::Navigate(Intent::Left));
    assert_eq!(command_for_key(Key::Right), Command::Navigate(Intent::Right));
    assert_eq!(command_for_key(Key::Down), Command::Navigate(Intent::Down));
    assert_eq!(command_for_key(Key::Up), Command::Navigate(Intent::Up));
    assert_eq!(command_for_key(Key::Home), Command::Navigate(Intent::First));
    assert_eq!(command_for_key(Key::End), Command::Navigate(Intent::Last));
    assert_eq!(command_for_key(Key::Char('Q')), Command::Ignore);
    assert_eq!(command_for_key(Key::Char('x')), Command::Ignore);
    assert_eq!(command_for_key(Key::Other), Command::Ignore);
}

#[test]
fn session_starts_with_nothing_selected() {
    let app = App::new(catalog()).ok().unwrap();
    assert_eq!(app.tree.items.len(), 2);
    assert!(app.tree.state.selected().is_empty());
    assert!(app.selected_goods().is_none());
}

#[test]
fn session_fails_on_a_malformed_code() {
    let mut goods = catalog();
    goods.push(record("123", "short", ""));
    assert_eq!(App::new(goods).err(), Some(CatalogError::MalformedCode));
}

#[test]
fn selected_record_is_found_by_the_code_of_the_path() {
    let mut app = App::new(catalog()).ok().unwrap();
    assert!(!app.handle_key(Key::Home));
    assert_eq!(app.selected_goods().unwrap().hwlwmc, "A");
    assert_eq!(app.selected_goods().unwrap().desc, "first");
    assert!(!app.handle_key(Key::Down));
    assert_eq!(app.selected_goods().unwrap().hwlwmc, "B");
    assert!(!app.handle_key(Key::Up));
    assert!(!app.handle_key(Key::Right));
    assert!(!app.handle_key(Key::Right));
    assert_eq!(app.tree.state.selected(), vec![0, 0]);
    assert_eq!(app.selected_goods().unwrap().hwlwmc, "C");
}

#[test]
fn node_without_a_record_of_its_own_code_shows_none() {
    let mut app = App::new(catalog()).ok().unwrap();
    for key in [Key::Home, Key::Char(' '), Key::Down, Key::Down] {
        app.handle_key(key);
    }
    assert_eq!(app.tree.state.selected(), vec![0, 1]);
    assert_eq!(app.tree.items[0].children[1].label, "orphan");
    assert!(app.selected_goods().is_none());
}

#[test]
fn later_record_of_one_code_is_the_one_kept() {
    let mut goods = catalog();
    goods.push(record("2000000000000000000", "B again", "third"));
    let mut app = App::new(goods).ok().unwrap();
    app.handle_key(Key::End);
    assert_eq!(app.tree.state.selected(), vec![1]);
    assert_eq!(app.tree.items[1].label, "B");
    assert_eq!(app.selected_goods().unwrap().hwlwmc, "B again");
    assert_eq!(app.selected_goods().unwrap().desc, "third");
}

#[test]
fn only_q_ends_the_session() {
    let mut app = App::new(catalog()).ok().unwrap();
    app.handle_key(Key::Home);
    assert!(app.handle_key(Key::Char('q')));
    assert_eq!(app.tree.state.selected(), vec![0]);
    for key in [
        Key::Char('Q'),
        Key::Char('\n'),
        Key::Char(' '),
        Key::Left,
        Key::Right,
        Key::Up,
        Key::Down,
        Key::Home,
        Key::End,
        Key::Other,
    ] {
        assert!(!app.handle_key(key));
    }
}

#[test]
fn ignored_key_changes_nothing() {
    let mut app = App::new(catalog()).ok().unwrap();
    app.handle_key(Key::Home);
    app.handle_key(Key::Char('\n'));
    let selected = app.tree.state.selected();
    let opened = app.tree.state.get_all_opened();
    app.handle_key(Key::Other);
    app.handle_key(Key::Char('z'));
    assert_eq!(app.tree.state.selected(), selected);
    assert_eq!(app.tree.state.get_all_opened(), opened);
    assert_eq!(opened, vec![vec![0]]);
}
