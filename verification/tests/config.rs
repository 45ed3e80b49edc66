use recall::config::{
    build_category_order, category_pos, load_and_merge, Command, CommandEntry, RecallConfig,
};
use recall::discovery::Discovered;

fn found(name: &str, definition: &str) -> Discovered {
    Discovered { name: name.to_string(), definition: definition.to_string() }
}

fn entry(name: &str, category: Option<&str>, description: Option<&str>, example: Option<&str>) -> CommandEntry {
    CommandEntry {
        name: name.to_string(),
        category: category.map(|s| s.to_string()),
        description: description.map(|s| s.to_string()),
        example: example.map(|s| s.to_string()),
    }
}

fn cmd(name: &str, category: &str) -> Command {
    Command {
        name: name.to_string(),
        description: String::new(),
        definition: String::new(),
        example: None,
        category: category.to_string(),
    }
}

#[test]
fn overrides_static_commands_and_order() {
    let discovered = vec![found("ll", "ls -la"), found("gs", "git status")];
    let config = RecallConfig {
        category_order: vec!["Git".to_string()],
        commands: vec![
            entry("gs", Some("Git"), Some("Git status"), None),
            entry("deploy", None, Some("Deploy"), Some("deploy --prod")),
        ],
    };
    let (commands, order) = load_and_merge(&discovered, &config);
    assert_eq!(order, vec!["Git".to_string(), "Other".to_string()]);
    let names: Vec<&str> = commands.iter().map(|c| c.name.as_str()).collect();
    assert_eq!(names, vec!["gs", "deploy", "ll"]);

    let gs = &commands[0];
    assert_eq!(gs.description, "Git status");
    assert_eq!(gs.definition, "git status");
    assert_eq!(gs.category, "Git");
    assert_eq!(gs.example, None);

    let deploy = &commands[1];
    assert_eq!(deploy.description, "Deploy");
    assert_eq!(deploy.definition, "");
    assert_eq!(deploy.example.as_deref(), Some("deploy --prod"));
    assert_eq!(deploy.category, "Other");

    let ll = &commands[2];
    assert_eq!(ll.description, "ls -la");
    assert_eq!(ll.definition, "ls -la");
    assert_eq!(ll.category, "Other");
}

#[test]
fn later_entry_overrides_earlier_one() {
    let discovered = vec![found("gs", "git status")];
    let config = RecallConfig {
        category_order: vec![],
        commands: vec![
            entry("gs", Some("A"), Some("first"), Some("ex1")),
            entry("gs", None, None, None),
        ],
    };
    let (commands, order) = load_and_merge(&discovered, &config);
    assert_eq!(commands.len(), 1);
    // the last entry wins, and it sets nothing: the defaults apply
    assert_eq!(commands[0].description, "git status");
    assert_eq!(commands[0].category, "Other");
    assert_eq!(commands[0].example, None);
    assert_eq!(order, vec!["Other".to_string()]);
}

#[test]
fn no_config_keeps_discovered_commands_sorted_by_name() {
    let discovered = vec![found("zz", "1"), found("aa", "2"), found("mm", "3")];
    let config = RecallConfig { category_order: vec![], commands: vec![] };
    let (commands, order) = load_and_merge(&discovered, &config);
    let names: Vec<&str> = commands.iter().map(|c| c.name.as_str()).collect();
    assert_eq!(names, vec!["aa", "mm", "zz"]);
    assert_eq!(order, vec!["Other".to_string()]);
}

#[test]
fn equal_keys_keep_their_order() {
    let discovered = vec![found("same", "first"), found("same", "second")];
    let config = RecallConfig { category_order: vec![], commands: vec![] };
    let (commands, _) = load_and_merge(&discovered, &config);
    assert_eq!(commands[0].definition, "first");
    assert_eq!(commands[1].definition, "second");
}

#[test]
fn unknown_configured_category_stays_in_order() {
    let discovered = vec![found("a", "1")];
    let config = RecallConfig {
        category_order: vec!["Empty".to_string(), "Other".to_string()],
        commands: vec![entry("b", Some("New"), None, None)],
    };
    let (commands, order) = load_and_merge(&discovered, &config);
    assert_eq!(order, vec!["Empty".to_string(), "Other".to_string(), "New".to_string()]);
    let names: Vec<&str> = commands.iter().map(|c| c.name.as_str()).collect();
    assert_eq!(names, vec!["a", "b"]);
}

#[test]
fn category_pos_and_order() {
    let order = vec!["Git".to_string(), "Docker".to_string()];
    assert_eq!(category_pos(&order, &"Docker".to_string()), 1);
    assert_eq!(category_pos(&order, &"Nope".to_string()), usize::MAX);
    let cmds = vec![cmd("a", "Nav"), cmd("b", "Git"), cmd("c", "Nav"), cmd("d", "X")];
    let built = build_category_order(&order, &cmds);
    assert_eq!(built, vec!["Git", "Docker", "Nav", "X"]);
}
