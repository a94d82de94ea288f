use proc_forest::builder::ForestBuilder;
use proc_forest::builder::Outcome;
use proc_forest::builder::Reply;
use proc_forest::builder::Request;
use proc_forest::builder::SourceFile;
use proc_forest::error::ForestError;
use proc_forest::node::Node;
use proc_forest::node::NodeType;
use proc_forest::pattern::scan_lines;
use proc_forest::pattern::Directive;
use proc_forest::query::render_subtree;

fn lines(text: &[&str]) -> Vec<String> {
    text.iter().map(|line| line.to_string()).collect()
}

fn listed(path: &str, stem: &str) -> SourceFile {
    SourceFile { path: path.to_string(), stem: stem.to_string() }
}

/// Runs a build against files held in memory. `listed_files` gives the path
/// and the lines of each listed file; `directory` gives the name and the
/// lines of each file that can be pulled in. Returns the forest and the
/// requests that were made, in order.
fn build(
    files: Vec<SourceFile>,
    listed_files: &[(&str, &[&str])],
    directory: &[(&str, &[&str])],
) -> (Option<Node>, Vec<String>) {
    let mut builder = ForestBuilder::new(files, Vec::new());
    let mut asked: Vec<String> = Vec::new();
    let mut request = builder.start();
    let mut rounds = 0;
    loop {
        rounds += 1;
        assert!(rounds < 1000);
        let reply = match &request {
            Request::Open(path) => {
                asked.push(format!("open {}", path));
                match listed_files.iter().find(|(name, _)| name == path) {
                    Some((_, text)) => Reply::Lines(lines(text)),
                    None => Reply::Unreadable,
                }
            }
            Request::Locate(file_name) => {
                asked.push(format!("locate {}", file_name));
                match directory.iter().find(|(name, _)| name == file_name) {
                    Some((_, text)) => Reply::Lines(lines(text)),
                    None => Reply::Absent,
                }
            }
            Request::Done => break,
            Request::Failed(_) => break,
        };
        request = builder.step(reply);
    }
    (builder.finish(), asked)
}

#[test]
fn example_main_and_helper() {
    let main: &[&str] = &["Function Foo", "Function Bar", "#include \"helper\""];
    let helper: &[&str] = &["Function Baz"];
    let (forest, asked) = build(
        vec![listed("/igor/main.ipf", "main")],
        &[("/igor/main.ipf", main)],
        &[("helper.ipf", helper)],
    );
    let root = forest.unwrap();
    assert_eq!(asked, vec!["open /igor/main.ipf".to_string(), "locate helper.ipf".to_string()]);
    let text = render_subtree(&root, "main").unwrap();
    assert_eq!(
        text,
        "main (Procedure)\n   Foo (Function)\n   Bar (Function)\n   helper (Procedure)\n      Baz (Function)\n"
    );
}

fn names(node: &Node) -> Vec<String> {
    node.children().iter().map(|child| child.name().clone()).collect()
}

fn directives(text: &[&str]) -> Vec<Directive> {
    scan_lines(&lines(text))
}

#[test]
fn file_without_directives_has_no_children() {
    let plain: &[&str] = &["// nothing here", "x = 1", "  Function Indented", "End"];
    let (forest, _) =
        build(vec![listed("/igor/plain.ipf", "plain")], &[("/igor/plain.ipf", plain)], &[]);
    let root = forest.unwrap();
    assert_eq!(names(&root), vec!["plain"]);
    let node = root.find_child("plain").unwrap();
    assert_eq!(node.node_type(), NodeType::Procedure);
    assert!(node.children().is_empty());
    assert_eq!(render_subtree(&root, "plain").unwrap(), "plain (Procedure)\n");
}

#[test]
fn empty_file_has_no_children() {
    let (forest, _) =
        build(vec![listed("/igor/empty.ipf", "empty")], &[("/igor/empty.ipf", &[])], &[]);
    assert!(forest.unwrap().find_child("empty").unwrap().children().is_empty());
}

#[test]
fn no_files_give_a_bare_root() {
    let (forest, asked) = build(Vec::new(), &[], &[]);
    let root = forest.unwrap();
    assert!(asked.is_empty());
    assert_eq!(root.name(), "root");
    assert_eq!(root.node_type(), NodeType::Procedure);
    assert!(root.children().is_empty());
    assert!(render_subtree(&root, "anything").is_err());
}

#[test]
fn registered_procedure_is_not_read_again() {
    let first: &[&str] = &["#include \"shared\"", "Function One"];
    let second: &[&str] = &["#include \"shared\"", "Function Two"];
    let shared: &[&str] = &["Function Common"];
    let (forest, asked) = build(
        vec![listed("/igor/first.ipf", "first"), listed("/igor/second.ipf", "second")],
        &[("/igor/first.ipf", first), ("/igor/second.ipf", second)],
        &[("shared.ipf", shared)],
    );
    let root = forest.unwrap();
    assert_eq!(
        asked,
        vec!["open /igor/first.ipf", "locate shared.ipf", "open /igor/second.ipf"]
    );
    assert_eq!(
        render_subtree(&root, "first").unwrap(),
        "first (Procedure)\n   shared (Procedure)\n      Common (Function)\n   One (Function)\n"
    );
    assert_eq!(
        render_subtree(&root, "second").unwrap(),
        "second (Procedure)\n   shared (Procedure)\n   Two (Function)\n"
    );
}

#[test]
fn second_reference_in_one_file_collapses_with_nothing_new() {
    let main: &[&str] = &["#include \"gone\"", "#include \"gone\"", "Function F", "Function F"];
    let (forest, asked) =
        build(vec![listed("/igor/main.ipf", "main")], &[("/igor/main.ipf", main)], &[]);
    let root = forest.unwrap();
    assert_eq!(asked, vec!["open /igor/main.ipf", "locate gone.ipf", "locate gone.ipf"]);
    assert_eq!(
        render_subtree(&root, "main").unwrap(),
        "main (Procedure)\n   gone (Procedure)\n   F (Function)\n"
    );
}

#[test]
fn cycle_of_two_ends_in_a_leaf() {
    let a: &[&str] = &["#include \"b\"", "Function InA"];
    let b: &[&str] = &["#include \"a\"", "Function InB"];
    let (forest, asked) = build(
        vec![listed("/user/a.ipf", "a"), listed("/user/b.ipf", "b")],
        &[("/user/a.ipf", a), ("/user/b.ipf", b)],
        &[("a.ipf", a), ("b.ipf", b)],
    );
    let root = forest.unwrap();
    assert_eq!(asked, vec!["open /user/a.ipf", "locate b.ipf"]);
    assert_eq!(names(&root), vec!["a"]);
    assert_eq!(
        render_subtree(&root, "a").unwrap(),
        "a (Procedure)\n   b (Procedure)\n      a (Procedure)\n      InB (Function)\n   InA (Function)\n"
    );
}

#[test]
fn file_that_pulls_itself_in_ends_in_a_leaf() {
    let own: &[&str] = &["#include \"own\""];
    let (forest, asked) = build(
        vec![listed("/user/own.ipf", "own")],
        &[("/user/own.ipf", own)],
        &[("own.ipf", own)],
    );
    assert_eq!(asked, vec!["open /user/own.ipf"]);
    assert_eq!(
        render_subtree(&forest.unwrap(), "own").unwrap(),
        "own (Procedure)\n   own (Procedure)\n"
    );
}

#[test]
fn cycle_of_three_below_a_listed_file() {
    let top: &[&str] = &["#include \"x\""];
    let x: &[&str] = &["#include \"y\""];
    let y: &[&str] = &["#include \"z\""];
    let z: &[&str] = &["#include \"x\"", "#include \"top\""];
    let (forest, asked) = build(
        vec![listed("/igor/top.ipf", "top")],
        &[("/igor/top.ipf", top)],
        &[("x.ipf", x), ("y.ipf", y), ("z.ipf", z)],
    );
    assert_eq!(asked, vec!["open /igor/top.ipf", "locate x.ipf", "locate y.ipf", "locate z.ipf"]);
    assert_eq!(
        render_subtree(&forest.unwrap(), "top").unwrap(),
        "top (Procedure)\n   x (Procedure)\n      y (Procedure)\n         z (Procedure)\n            x (Procedure)\n            top (Procedure)\n"
    );
}

#[test]
fn listed_file_that_was_pulled_in_is_no_tree_of_its_own() {
    let main: &[&str] = &["#include \"helper\""];
    let helper: &[&str] = &["Function Baz"];
    let (forest, asked) = build(
        vec![listed("/igor/main.ipf", "main"), listed("/user/helper.ipf", "helper")],
        &[("/igor/main.ipf", main), ("/user/helper.ipf", helper)],
        &[("helper.ipf", helper)],
    );
    let root = forest.unwrap();
    assert_eq!(asked, vec!["open /igor/main.ipf", "locate helper.ipf"]);
    assert_eq!(names(&root), vec!["main"]);
    assert!(render_subtree(&root, "helper").is_err());
    assert_eq!(names(root.find_child("main").unwrap()), vec!["helper"]);
}

#[test]
fn listed_file_comes_before_the_file_that_pulls_it_in() {
    let main: &[&str] = &["#include \"helper\""];
    let helper: &[&str] = &["Function Baz"];
    let (forest, asked) = build(
        vec![listed("/user/helper.ipf", "helper"), listed("/user/main.ipf", "main")],
        &[("/user/main.ipf", main), ("/user/helper.ipf", helper)],
        &[("helper.ipf", helper), ("main.ipf", main)],
    );
    let root = forest.unwrap();
    assert_eq!(asked, vec!["open /user/helper.ipf", "open /user/main.ipf"]);
    assert_eq!(names(&root), vec!["helper", "main"]);
    assert_eq!(
        render_subtree(&root, "main").unwrap(),
        "main (Procedure)\n   helper (Procedure)\n"
    );
    assert_eq!(
        render_subtree(&root, "helper").unwrap(),
        "helper (Procedure)\n   Baz (Function)\n"
    );
}

#[test]
fn every_listed_file_is_resolved_once() {
    let a: &[&str] = &["#include \"c\"", "#include \"d\""];
    let b: &[&str] = &["#include \"c\"", "#include \"a\""];
    let c: &[&str] = &["#include \"d\"", "Function InC"];
    let d: &[&str] = &["Function InD"];
    let (forest, asked) = build(
        vec![
            listed("/igor/a.ipf", "a"),
            listed("/igor/b.ipf", "b"),
            listed("/user/c.ipf", "c"),
            listed("/user/d.ipf", "d"),
        ],
        &[("/igor/a.ipf", a), ("/igor/b.ipf", b), ("/user/c.ipf", c), ("/user/d.ipf", d)],
        &[("c.ipf", c), ("d.ipf", d)],
    );
    let root = forest.unwrap();
    assert_eq!(
        asked,
        vec!["open /igor/a.ipf", "locate c.ipf", "locate d.ipf", "open /igor/b.ipf"]
    );
    assert_eq!(names(&root), vec!["a", "b"]);
    assert_eq!(
        root.to_string(0),
        "root (Procedure)\n   a (Procedure)\n      c (Procedure)\n         d (Procedure)\n            InD (Function)\n         InC (Function)\n      d (Procedure)\n   b (Procedure)\n      c (Procedure)\n      a (Procedure)\n"
    );
}

#[test]
fn two_listed_files_of_one_stem_give_one_tree() {
    let early: &[&str] = &["Function Early"];
    let late: &[&str] = &["Function Late"];
    let (forest, asked) = build(
        vec![listed("/igor/same.ipf", "same"), listed("/user/same.ipf", "same")],
        &[("/igor/same.ipf", early), ("/user/same.ipf", late)],
        &[("same.ipf", late)],
    );
    let root = forest.unwrap();
    assert_eq!(asked, vec!["open /igor/same.ipf"]);
    assert_eq!(root.to_string(0), "root (Procedure)\n   same (Procedure)\n      Early (Function)\n");
}

#[test]
fn absent_target_is_a_leaf_of_its_name() {
    let main: &[&str] = &["#include \"missing v1\"", "Function After"];
    let (forest, asked) =
        build(vec![listed("/igor/main.ipf", "main")], &[("/igor/main.ipf", main)], &[]);
    let root = forest.unwrap();
    assert_eq!(asked, vec!["open /igor/main.ipf", "locate missing v1.ipf"]);
    let main_node = root.find_child("main").unwrap();
    let leaf = main_node.find_child("missing v1").unwrap();
    assert_eq!(leaf.node_type(), NodeType::Procedure);
    assert!(leaf.children().is_empty());
    assert_eq!(names(main_node), vec!["missing v1", "After"]);
}

#[test]
fn absent_target_is_asked_for_again_by_the_next_file() {
    let one: &[&str] = &["#include \"ghost\""];
    let two: &[&str] = &["#include \"ghost\""];
    let (_, asked) = build(
        vec![listed("/igor/one.ipf", "one"), listed("/igor/two.ipf", "two")],
        &[("/igor/one.ipf", one), ("/igor/two.ipf", two)],
        &[],
    );
    assert_eq!(
        asked,
        vec!["open /igor/one.ipf", "locate ghost.ipf", "open /igor/two.ipf", "locate ghost.ipf"]
    );
}

#[test]
fn unreadable_listed_file_gives_up_the_build() {
    let mut builder =
        ForestBuilder::new(vec![listed("/igor/a.ipf", "a")], vec![listed("/user/b.ipf", "b")]);
    assert!(matches!(builder.start(), Request::Open(path) if path == "/igor/a.ipf"));
    match builder.step(Reply::Unreadable) {
        Request::Failed(ForestError::FileUnreadable(path)) => assert_eq!(path, "/igor/a.ipf"),
        other => panic!("unexpected request: {:?}", other),
    }
    // Nothing moves the builder on from there.
    assert!(matches!(builder.step(Reply::Lines(Vec::new())), Request::Failed(_)));
    assert!(matches!(builder.request(), Some(Request::Failed(_))));
    assert!(builder.finish().is_none());
}

#[test]
fn unreadable_pulled_in_file_gives_up_the_build() {
    let mut builder = ForestBuilder::new(vec![listed("/igor/a.ipf", "a")], Vec::new());
    builder.start();
    let request = builder.step(Reply::Lines(lines(&["#include \"locked\""])));
    assert!(matches!(request, Request::Locate(name) if name == "locked.ipf"));
    match builder.step(Reply::Unreadable) {
        Request::Failed(ForestError::FileUnreadable(path)) => assert_eq!(path, "locked.ipf"),
        other => panic!("unexpected request: {:?}", other),
    }
    assert!(builder.finish().is_none());
}

#[test]
fn reply_that_answers_nothing_changes_nothing() {
    let mut builder = ForestBuilder::new(vec![listed("/igor/a.ipf", "a")], Vec::new());
    assert!(matches!(builder.start(), Request::Open(_)));
    // A listed file is never "absent": the request stands.
    assert!(matches!(builder.step(Reply::Absent), Request::Open(path) if path == "/igor/a.ipf"));
    assert!(matches!(builder.start(), Request::Open(_)));
    assert!(matches!(builder.step(Reply::Lines(Vec::new())), Request::Done));
    // Once done, replies are ignored.
    assert!(matches!(builder.step(Reply::Lines(lines(&["Function Late"]))), Request::Done));
    assert!(matches!(builder.step(Reply::Unreadable), Request::Done));
    let root = builder.finish().unwrap();
    assert_eq!(root.to_string(0), "root (Procedure)\n   a (Procedure)\n");
}

#[test]
fn forest_is_not_handed_out_before_it_is_complete() {
    let fresh = ForestBuilder::new(vec![listed("/igor/a.ipf", "a")], Vec::new());
    assert!(fresh.finish().is_none());
    let mut waiting = ForestBuilder::new(vec![listed("/igor/a.ipf", "a")], Vec::new());
    waiting.start();
    waiting.step(Reply::Lines(lines(&["Function F", "#include \"b\""])));
    assert!(matches!(waiting.request(), Some(Request::Locate(_))));
    assert!(waiting.finish().is_none());
    assert!(ForestBuilder::new(Vec::new(), Vec::new()).finish().is_some());
}

#[test]
fn advance_takes_directives_as_they_are() {
    let mut builder = ForestBuilder::new(vec![listed("/igor/a.ipf", "a")], Vec::new());
    builder.start();
    let content = vec![
        Directive::Definition("First".to_string()),
        Directive::Inclusion("b".to_string()),
        Directive::Definition("Second".to_string()),
    ];
    assert!(matches!(builder.advance(Outcome::Content(content)), Request::Locate(name) if name == "b.ipf"));
    let inner = directives(&["Function Inner"]);
    assert!(matches!(builder.advance(Outcome::Content(inner)), Request::Done));
    assert_eq!(
        builder.finish().unwrap().to_string(0),
        "root (Procedure)\n   a (Procedure)\n      First (Function)\n      b (Procedure)\n         Inner (Function)\n      Second (Function)\n"
    );
}

#[test]
fn request_is_none_while_the_builder_can_go_on() {
    let mut builder = ForestBuilder::new(vec![listed("/igor/a.ipf", "a")], Vec::new());
    assert!(matches!(builder.request(), Some(Request::Open(_))));
    builder.start();
    builder.step(Reply::Lines(Vec::new()));
    assert!(matches!(builder.request(), Some(Request::Done)));
}

#[test]
fn target_with_a_directory_part_keeps_its_name() {
    let main: &[&str] = &["#include \"sub/deep\""];
    let deep: &[&str] = &["Function Down"];
    let (forest, asked) = build(
        vec![listed("/igor/main.ipf", "main")],
        &[("/igor/main.ipf", main)],
        &[("sub/deep.ipf", deep)],
    );
    assert_eq!(asked, vec!["open /igor/main.ipf", "locate sub/deep.ipf"]);
    assert_eq!(
        render_subtree(&forest.unwrap(), "main").unwrap(),
        "main (Procedure)\n   sub/deep (Procedure)\n      Down (Function)\n"
    );
}

#[test]
fn primary_files_come_before_secondary_files() {
    let mut builder = ForestBuilder::new(
        vec![listed("/igor/one.ipf", "one"), listed("/igor/two.ipf", "two")],
        vec![listed("/user/three.ipf", "three")],
    );
    let mut opened = Vec::new();
    let mut request = builder.start();
    while let Request::Open(path) = request {
        opened.push(path);
        request = builder.step(Reply::Lines(Vec::new()));
    }
    assert!(matches!(request, Request::Done));
    assert_eq!(opened, vec!["/igor/one.ipf", "/igor/two.ipf", "/user/three.ipf"]);
    assert_eq!(
        builder.finish().unwrap().to_string(0),
        "root (Procedure)\n   one (Procedure)\n   two (Procedure)\n   three (Procedure)\n"
    );
}

#[test]
fn name_is_registered_when_its_procedure_is_complete() {
    let mut builder = ForestBuilder::new(vec![listed("/igor/a.ipf", "a")], Vec::new());
    assert!(!builder.is_registered("a"));
    builder.start();
    builder.step(Reply::Lines(lines(&["#include \"b\"", "#include \"c\""])));
    // `a` is being resolved, `b` is asked for: neither is registered.
    assert!(!builder.is_registered("a"));
    assert!(!builder.is_registered("b"));
    builder.step(Reply::Lines(lines(&["Function InB"])));
    // `b` is complete, `c` is asked for.
    assert!(builder.is_registered("b"));
    assert!(!builder.is_registered("a"));
    builder.step(Reply::Absent);
    // An absent target is never registered.
    assert!(builder.is_registered("a"));
    assert!(!builder.is_registered("c"));
    assert!(!builder.is_registered("root"));
}
