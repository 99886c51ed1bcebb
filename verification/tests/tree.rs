use disksun::tree::{emit, parse_tree, total_from, Node};

fn file(name: &str, size: u64) -> Node {
    Node { name: name.to_string(), size, is_dir: false, children: Vec::new() }
}

fn dir(name: &str, size: u64, children: Vec<Node>) -> Node {
    Node { name: name.to_string(), size, is_dir: true, children }
}

fn written(n: &Node) -> String {
    let mut s = String::new();
    assert!(emit(n, 0, &mut s));
    s
}

fn same(a: &Node, b: &Node) -> bool {
    a.name == b.name
        && a.size == b.size
        && a.is_dir == b.is_dir
        && a.children.len() == b.children.len()
        && a.children.iter().zip(&b.children).all(|(x, y)| same(x, y))
}

fn sample() -> Node {
    dir(
        "/",
        70,
        vec![
            dir("home", 40, vec![file("a\tb", 30), dir("empty", 0, Vec::new()), file("c\\", 10)]),
            file("line\nfeed", 20),
            file("x", 10),
        ],
    )
}

#[test]
fn each_node_is_a_line_of_four_fields() {
    assert_eq!(
        written(&sample()),
        "0\t1\t70\t/\n1\t1\t40\thome\n2\t0\t30\ta\\tb\n2\t1\t0\tempty\n2\t0\t10\tc\\\\\n\
         1\t0\t20\tline\\nfeed\n1\t0\t10\tx\n"
    );
}

#[test]
fn writing_goes_behind_what_is_there_and_from_the_depth_given() {
    let mut s = "x".to_string();
    assert!(emit(&file("f", 1), 7, &mut s));
    assert_eq!(s, "x7\t0\t1\tf\n");
}

#[test]
fn a_depth_past_the_machine_is_told() {
    let mut s = String::new();
    assert!(emit(&file("f", 1), usize::MAX, &mut s));
    let before = s.clone();
    assert!(!emit(&dir("d", 1, vec![file("f", 1)]), usize::MAX, &mut s));
    assert_eq!(s, before);
}

#[test]
fn reading_gives_back_what_was_written() {
    let t = sample();
    assert!(same(&parse_tree(&written(&t)), &t));
}

#[test]
fn a_carriage_return_at_the_end_of_a_name_is_lost() {
    let t = file("a\r", 1);
    assert_eq!(parse_tree(&written(&t)).name, "a");
    assert_eq!(parse_tree(&written(&file("a\rb", 1))).name, "a\rb");
}

#[test]
fn no_lines_are_an_empty_directory() {
    for s in ["", "\n", "no fields\n", "1\t2\t3\n"] {
        assert!(same(&parse_tree(s), &dir("(empty)", 0, Vec::new())), "{s:?}");
    }
}

#[test]
fn fields_that_are_no_numbers_count_as_zero() {
    let t = parse_tree("x\t1\ty\troot\n1\tyes\t5\tkid\twith tab\n");
    assert!(same(&t, &dir("root", 0, vec![file("kid\twith tab", 5)])));
}

#[test]
fn levels_that_jump_still_give_one_tree() {
    // too deep is one level down, and a second root ends up below the first
    let t = parse_tree("0\t1\t1\tr\n5\t1\t1\ta\n5\t0\t1\tb\n0\t0\t1\tc\n");
    assert_eq!(t.name, "r");
    let names: Vec<&str> = t.children.iter().map(|c| c.name.as_str()).collect();
    assert_eq!(names, vec!["a", "c"]);
    assert_eq!(t.children[0].children[0].name, "b");
}

#[test]
fn sizes_add_up_to_a_total_or_to_too_much() {
    let v = vec![file("a", 1), file("b", u64::MAX - 1), file("c", 2)];
    assert_eq!(total_from(&v, 3), Some(0));
    assert_eq!(total_from(&v, 2), Some(2));
    assert_eq!(total_from(&v[..2], 0), Some(u64::MAX));
    assert_eq!(total_from(&v, 1), None);
}
