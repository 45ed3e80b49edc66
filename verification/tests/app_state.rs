use recall::app::{Action, App, KeyCode, KeyInput, Mode};
use recall::config::Command;

fn cmd(name: &str, description: &str, category: &str) -> Command {
    Command {
        name: name.to_string(),
        description: description.to_string(),
        definition: description.to_string(),
        example: None,
        category: category.to_string(),
    }
}

fn key(code: KeyCode) -> KeyInput {
    KeyInput { code, ctrl: false }
}

fn sample() -> App {
    let commands = vec![
        cmd("gs", "git status", "Git"),
        cmd("gl", "git log", "Git"),
        cmd("ll", "ls -la", "Other"),
    ];
    let categories = vec!["Git".to_string(), "Other".to_string()];
    App::new(commands, categories)
}

fn copied(a: Action) -> Option<String> {
    match a {
        Action::Copy(s) => Some(s),
        _ => None,
    }
}

#[test]
fn starts_on_first_category() {
    let app = sample();
    assert_eq!(app.selected_tab, 0);
    assert_eq!(app.visible, vec![0, 1]);
    assert_eq!(app.selected, Some(0));
    assert_eq!(app.mode, Mode::Normal);
}

#[test]
fn tab_cycles_through_categories_and_all() {
    let mut app = sample();
    app.handle_key(key(KeyCode::Tab));
    assert_eq!(app.selected_tab, 1);
    assert_eq!(app.visible, vec![2]);
    app.handle_key(key(KeyCode::Tab));
    assert_eq!(app.selected_tab, 2);
    assert_eq!(app.visible, vec![0, 1, 2]);
    app.handle_key(key(KeyCode::Tab));
    assert_eq!(app.selected_tab, 0);
    app.handle_key(key(KeyCode::BackTab));
    assert_eq!(app.selected_tab, 2);
    app.handle_key(key(KeyCode::BackTab));
    assert_eq!(app.selected_tab, 1);
}

#[test]
fn tab_then_backtab_returns() {
    let mut app = sample();
    for start in 0..3 {
        while app.selected_tab != start {
            app.handle_key(key(KeyCode::Tab));
        }
        app.handle_key(key(KeyCode::Tab));
        app.handle_key(key(KeyCode::BackTab));
        assert_eq!(app.selected_tab, start);
    }
}

#[test]
fn navigation_stays_in_range() {
    let mut app = sample();
    app.handle_key(key(KeyCode::Char('k')));
    assert_eq!(app.selected, Some(0));
    app.handle_key(key(KeyCode::Char('j')));
    assert_eq!(app.selected, Some(1));
    app.handle_key(key(KeyCode::Down));
    assert_eq!(app.selected, Some(1));
    app.handle_key(key(KeyCode::Up));
    assert_eq!(app.selected, Some(0));
}

#[test]
fn enter_copies_selected_name() {
    let mut app = sample();
    app.handle_key(key(KeyCode::Char('j')));
    assert_eq!(copied(app.handle_key(key(KeyCode::Enter))), Some("gl".to_string()));
}

#[test]
fn quit_keys() {
    let mut app = sample();
    assert!(matches!(app.handle_key(key(KeyCode::Char('q'))), Action::Quit));
    assert!(matches!(app.handle_key(key(KeyCode::Esc)), Action::Quit));
    let ctrl_c = KeyInput { code: KeyCode::Char('c'), ctrl: true };
    assert!(matches!(app.handle_key(ctrl_c), Action::Quit));
    app.handle_key(key(KeyCode::Char('/')));
    assert!(matches!(app.handle_key(ctrl_c), Action::Quit));
    // in search mode, q is typed
    assert!(matches!(app.handle_key(key(KeyCode::Char('q'))), Action::Continue));
    assert_eq!(app.search_query, "q");
}

#[test]
fn search_ranks_and_filters() {
    let mut app = sample();
    app.handle_key(key(KeyCode::Char('/')));
    assert_eq!(app.mode, Mode::Search);
    assert_eq!(app.search_query, "");
    app.handle_key(key(KeyCode::Char('l')));
    // ll: name 6 * 2 + description ("ls -la") 6; gl: name 1 * 2 + description ("git log") 4
    assert_eq!(app.visible, vec![2, 1]);
    app.handle_key(key(KeyCode::Char('o')));
    // "lo" matches only "git log"
    assert_eq!(app.visible, vec![1]);
    assert_eq!(app.selected, Some(0));
    app.handle_key(key(KeyCode::Char('z')));
    assert!(app.visible.is_empty());
    assert_eq!(app.selected, None);
    assert!(matches!(app.handle_key(key(KeyCode::Enter)), Action::Continue));
    app.handle_key(key(KeyCode::Backspace));
    assert_eq!(app.search_query, "lo");
    assert_eq!(app.visible, vec![1]);
    assert_eq!(app.selected, Some(0));
    assert_eq!(copied(app.handle_key(key(KeyCode::Enter))), Some("gl".to_string()));
    app.handle_key(key(KeyCode::Esc));
    assert_eq!(app.mode, Mode::Normal);
    assert_eq!(app.search_query, "");
    assert_eq!(app.visible, vec![0, 1]);
}

#[test]
fn moving_up_from_nothing_selects_top() {
    let mut app = App::new(vec![], vec![]);
    assert_eq!(app.visible, Vec::<usize>::new());
    assert_eq!(app.selected, None);
    app.handle_key(key(KeyCode::Up));
    assert_eq!(app.selected, Some(0));
    assert!(app.selected_command().is_none());
    assert!(matches!(app.handle_key(key(KeyCode::Enter)), Action::Continue));
}

#[test]
fn preview_follows_selection() {
    let mut app = sample();
    assert_eq!(app.selected_command().map(|c| c.name.clone()), Some("gs".to_string()));
    app.handle_key(key(KeyCode::Down));
    assert_eq!(app.selected_command().map(|c| c.name.clone()), Some("gl".to_string()));
}
