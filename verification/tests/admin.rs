use disksun::admin::{command, file_names, Action, Event, Wait, MAX_CHECKS};
use disksun::tree::{emit, Node};

#[test]
fn the_files_are_named_after_the_process() {
    let (out, done) = file_names("/run/user/1000", 42);
    assert_eq!(out, "/run/user/1000/disksun-scan-42.tree");
    assert_eq!(done, "/run/user/1000/disksun-scan-42.done");
}

#[test]
fn the_command_quotes_each_path() {
    assert_eq!(
        command("/opt/my disksun", "/it's", "/t/x.tree", "/t/x.done", true),
        "echo 'disksun needs admin rights to read every file.'; sudo '/opt/my disksun' --scan \
         --cross '/it'\\''s' > '/t/x.tree' && touch '/t/x.done'; ec=$?; if [ $ec -ne 0 ]; then \
         echo FAIL > '/t/x.done'; echo 'scan failed — press Enter'; read _; fi"
    );
    assert!(command("e", "t", "o", "d", false).contains("sudo 'e' --scan  't' > 'o'"));
}

fn wait() -> Wait {
    Wait::new("/target".to_string())
}

fn failure(a: Action) -> (String, bool, bool) {
    match a {
        Action::Finish { result: Err(m), remove_tree, remove_mark } => (m, remove_tree, remove_mark),
        _ => panic!("no failure"),
    }
}

#[test]
fn a_scan_as_admin_gives_its_tree_under_the_name_of_the_target() {
    let kid = Node { name: "k".to_string(), size: 5, is_dir: false, children: Vec::new() };
    let root = Node { name: "other".to_string(), size: 5, is_dir: true, children: vec![kid] };
    let mut text = String::new();
    assert!(emit(&root, 0, &mut text));
    let mut w = wait();
    assert!(matches!(w.step(Event::Absent), Action::Pause));
    assert!(matches!(w.step(Event::Waited), Action::Check));
    assert!(matches!(w.step(Event::Present), Action::ReadMark));
    assert!(matches!(w.step(Event::Mark(Some(String::new()))), Action::ReadTree));
    match w.step(Event::Tree(Ok(text))) {
        Action::Finish { result: Ok(n), remove_tree: true, remove_mark: true } => {
            assert_eq!((n.name.as_str(), n.size, n.is_dir), ("/target", 5, true));
            assert_eq!(n.children.len(), 1);
            assert_eq!((n.children[0].name.as_str(), n.children[0].size), ("k", 5));
        }
        _ => panic!("no tree"),
    }
}

#[test]
fn a_mark_of_failure_ends_the_wait() {
    let mut w = wait();
    w.step(Event::Present);
    assert_eq!(
        failure(w.step(Event::Mark(Some("FAIL\n".to_string())))),
        ("admin scan failed (see the terminal)".to_string(), false, true)
    );
}

#[test]
fn a_mark_that_cannot_be_read_is_no_failure() {
    let mut w = wait();
    w.step(Event::Present);
    assert!(matches!(w.step(Event::Mark(None)), Action::ReadTree));
    assert_eq!(
        failure(w.step(Event::Tree(Err("gone".to_string())))),
        ("cannot read scan output: gone".to_string(), false, false)
    );
}

#[test]
fn the_wait_times_out_after_the_last_check() {
    let mut w = wait();
    for _ in 0..MAX_CHECKS - 1 {
        assert!(matches!(w.step(Event::Absent), Action::Pause));
        assert!(matches!(w.step(Event::Waited), Action::Check));
    }
    assert!(matches!(w.step(Event::Absent), Action::Pause));
    assert_eq!(
        failure(w.step(Event::Waited)),
        ("admin scan timed out".to_string(), false, false)
    );
}
