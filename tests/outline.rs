use auto_gen_summary::{
    gen_summary, generate_summary_line, get_title, md5, needs_write, render_summary,
    sort_entry_recursive, wants_content, AutoGenConfig, AutoGenSummary, DirNode,
    DirectoryWithoutIndexBehavior, FileNode, MdEntry, RelativizedLink,
};

fn file(name: &str, content: &str) -> FileNode {
    FileNode { name: name.to_string(), content: content.to_string() }
}

fn dir(name: &str, files: Vec<FileNode>, dirs: Vec<DirNode>) -> DirNode {
    DirNode { name: name.to_string(), files, dirs }
}

fn config(policy: DirectoryWithoutIndexBehavior) -> AutoGenConfig {
    let mut c = AutoGenConfig::new();
    c.directory_without_index_behavior = policy;
    c
}

fn guide_tree() -> DirNode {
    dir(
        "src",
        vec![file("README.md", "# Home\n")],
        vec![dir(
            "guide",
            vec![file("intro.md", "intro text\n")],
            vec![dir("deep", vec![file("README.md", "")], vec![])],
        )],
    )
}

#[test]
fn empty_tree_under_ignore_gives_bare_heading() {
    let tree = dir("src", vec![file("notes.txt", "x"), file("image.png", "")], vec![]);
    let r = gen_summary(&tree, &config(DirectoryWithoutIndexBehavior::Ignore));
    assert_eq!(r.content, "# Summary\n\n");
    assert!(!r.root_found);
    assert!(r.stubs.is_empty());
}

#[test]
fn siblings_sorted_by_path_whatever_the_listing_order() {
    let tree = dir(
        "src",
        vec![file("B.md", "b"), file("README.md", ""), file("A.md", "a")],
        vec![],
    );
    let r = gen_summary(&tree, &AutoGenConfig::new());
    assert_eq!(
        r.content,
        "# Summary\n\n* [Welcome](README.md)\n* [A.md](A.md)\n* [B.md](B.md)"
    );
    assert!(r.root_found);
}

#[test]
fn second_run_over_same_tree_writes_nothing() {
    let tree = guide_tree();
    let cfg = config(DirectoryWithoutIndexBehavior::Draft);
    let first = gen_summary(&tree, &cfg);
    let second = gen_summary(&tree, &cfg);
    assert_eq!(first.content, second.content);
    assert!(!needs_write(&second.content, &first.content));
    assert!(needs_write(&first.content, &String::new()));
}

#[test]
fn second_run_sees_written_outline_and_writes_nothing() {
    let cfg = AutoGenConfig::new();
    let first = gen_summary(&guide_tree(), &cfg);
    let mut again = guide_tree();
    again.files.push(file("SUMMARY.md", &first.content));
    let second = gen_summary(&again, &cfg);
    assert_eq!(second.content, first.content);
    assert!(!needs_write(&second.content, &first.content));
}

#[test]
fn stubs_of_first_run_change_nothing_in_second() {
    let cfg = config(DirectoryWithoutIndexBehavior::GenerateStubIndex);
    let first = gen_summary(&guide_tree(), &cfg);
    let mut again = guide_tree();
    again.dirs[0].files.insert(0, file("README.md", ""));
    again.files.insert(0, file("SUMMARY.md", &first.content));
    let second = gen_summary(&again, &cfg);
    assert_eq!(second.content, first.content);
    assert!(second.stubs.is_empty());
    assert!(!needs_write(&second.content, &first.content));
}

#[test]
fn outline_that_existed_before_is_ignored_when_rewritten() {
    let mut cfg = AutoGenConfig::new();
    cfg.first_line_as_link_text = true;
    let mut tree = guide_tree();
    tree.files.push(file("SUMMARY.md", "# Old outline\n"));
    tree.dirs[0].files.push(file("README.md", ""));
    let first = gen_summary(&tree, &cfg);
    tree.files[1] = file("SUMMARY.md", &first.content);
    let second = gen_summary(&tree, &cfg);
    assert_eq!(second.content, first.content);
    assert!(!needs_write(&second.content, &first.content));
}

#[test]
fn draft_directory_has_empty_link_and_children() {
    let r = gen_summary(&guide_tree(), &config(DirectoryWithoutIndexBehavior::Draft));
    assert_eq!(
        r.content,
        "# Summary\n\n* [Welcome](README.md)\n\n----\n\n* [guide]()\n    * [deep](guide/deep/README.md)\n    * [intro.md](guide/intro.md)"
    );
    assert!(r.stubs.is_empty());
}

#[test]
fn ignored_directory_is_absent_with_its_descendants() {
    let r = gen_summary(&guide_tree(), &config(DirectoryWithoutIndexBehavior::Ignore));
    assert_eq!(r.content, "# Summary\n\n* [Welcome](README.md)");
    assert!(!r.content.contains("deep"));
}

#[test]
fn first_heading_becomes_document_title() {
    let tree = dir(
        "src",
        vec![file("README.md", ""), file("start.md", "intro\n# Getting Started\nbody")],
        vec![],
    );
    let mut cfg = AutoGenConfig::new();
    cfg.first_line_as_link_text = true;
    let r = gen_summary(&tree, &cfg);
    assert_eq!(
        r.content,
        "# Summary\n\n* [Welcome](README.md)\n* [Getting Started](start.md)"
    );
    assert_eq!(get_title("# Getting Started"), "Getting Started");
}

#[test]
fn stub_policy_names_stub_and_links_to_it() {
    let r = gen_summary(&guide_tree(), &config(DirectoryWithoutIndexBehavior::GenerateStubIndex));
    assert_eq!(r.stubs, vec![vec!["guide".to_string(), "README.md".to_string()]]);
    assert_eq!(
        r.content,
        "# Summary\n\n* [Welcome](README.md)\n\n----\n\n* [guide](guide/README.md)\n    * [deep](guide/deep/README.md)\n    * [intro.md](guide/intro.md)"
    );
}

#[test]
fn stub_at_root_when_root_lacks_index() {
    let tree = dir("src", vec![file("a.md", "")], vec![]);
    let r = gen_summary(&tree, &config(DirectoryWithoutIndexBehavior::GenerateStubIndex));
    assert_eq!(r.stubs, vec![vec!["README.md".to_string()]]);
    assert_eq!(r.content, "# Summary\n\n* [Welcome](README.md)\n* [a.md](a.md)");
}

#[test]
fn draft_root_renders_with_empty_link() {
    let tree = dir("src", vec![file("a.md", "")], vec![]);
    let r = gen_summary(&tree, &config(DirectoryWithoutIndexBehavior::Draft));
    assert_eq!(r.content, "# Summary\n\n* [Welcome]()\n* [a.md](a.md)");
}

#[test]
fn separators_surround_top_level_directories() {
    let tree = dir(
        "src",
        vec![file("README.md", ""), file("a.md", ""), file("z.md", "")],
        vec![dir("m", vec![file("README.md", ""), file("x.md", "")], vec![])],
    );
    let r = gen_summary(&tree, &AutoGenConfig::new());
    assert_eq!(
        r.content,
        "# Summary\n\n* [Welcome](README.md)\n* [a.md](a.md)\n\n----\n\n* [m](m/README.md)\n    * [x.md](m/x.md)\n\n----\n\n* [z.md](z.md)"
    );
}

#[test]
fn outline_document_itself_is_left_out() {
    let tree = dir(
        "src",
        vec![file("README.md", ""), file("SUMMARY.md", "# Summary\n"), file("a.md", "")],
        vec![],
    );
    let r = gen_summary(&tree, &AutoGenConfig::new());
    assert_eq!(r.content, "# Summary\n\n* [Welcome](README.md)\n* [a.md](a.md)");
}

#[test]
fn directory_titles_from_index_headings() {
    let tree = dir(
        "src",
        vec![file("README.md", "# My Book\n")],
        vec![
            dir("ch1", vec![file("README.md", "# Chapter One")], vec![]),
            dir("ch2", vec![file("README.md", "no heading")], vec![]),
        ],
    );
    let mut cfg = AutoGenConfig::new();
    cfg.index_first_line_as_directory_link_text = true;
    let r = gen_summary(&tree, &cfg);
    assert_eq!(
        r.content,
        "# Summary\n\n* [My Book](README.md)\n* [Chapter One](ch1/README.md)\n* [ch2](ch2/README.md)"
    );
}

#[test]
fn last_index_candidate_wins() {
    let tree = dir("src", vec![file("index.md", ""), file("README.md", "")], vec![]);
    let mut cfg = AutoGenConfig::new();
    assert!(cfg.set_index_names(vec!["index.md".to_string(), "README.md".to_string()]).is_ok());
    let r = gen_summary(&tree, &cfg);
    assert_eq!(r.content, "# Summary\n\n* [Welcome](README.md)");
}

#[test]
fn titles_from_headings() {
    assert_eq!(get_title("# Getting Started"), "Getting Started");
    assert_eq!(get_title("text\n#  Hello ##  \r\nmore"), "Hello ##");
    assert_eq!(get_title("# Hi #\r\n"), "Hi #");
    assert_eq!(get_title("# Hi #"), "Hi #");
    assert_eq!(get_title("# C#"), "C#");
    assert_eq!(get_title("#  # Deep\n"), "# Deep");
    assert_eq!(get_title("#\tTabbed\n"), "Tabbed");
    assert_eq!(get_title("#\n# Next"), "Next");
    assert_eq!(get_title("## Sub\n#NoSpace\n"), "");
    assert_eq!(get_title(""), "");
    assert_eq!(get_title("a\n# First\n# Second"), "First");
}

#[test]
fn which_files_are_read() {
    let mut cfg = AutoGenConfig::new();
    assert!(!wants_content(&"README.md".to_string(), &cfg));
    assert!(wants_content(&"a.md".to_string(), &cfg));
    assert!(!wants_content(&"a.md.txt".to_string(), &cfg));
    assert!(!wants_content(&".md".to_string(), &cfg));
    assert!(!wants_content(&"a.txt".to_string(), &cfg));
    cfg.index_first_line_as_directory_link_text = true;
    assert!(wants_content(&"README.md".to_string(), &cfg));
}

#[test]
fn md5_fingerprint_of_empty_text() {
    assert_eq!(md5(&String::new()), "D41D8CD98F00B204E9800998ECF8427E");
    assert_eq!(md5(&"abc".to_string()), "900150983CD24FB0D6963F7D28E17F72");
}

#[test]
fn summary_line_shape() {
    let link = RelativizedLink::from(&Some(vec!["a".to_string(), "b.md".to_string()]));
    assert_eq!(link.0, "a/b.md");
    assert_eq!(generate_summary_line(2, "T", &link), "        * [T](a/b.md)");
    let draft = RelativizedLink::from(&None);
    assert_eq!(generate_summary_line(0, "D", &draft), "* [D]()");
}

fn leaf(name: &str) -> MdEntry {
    MdEntry {
        title: name.to_string(),
        path: Some(vec![name.to_string()]),
        sorting_path: vec![name.to_string()],
        children: vec![],
    }
}

#[test]
fn sort_orders_every_depth() {
    let mut inner = MdEntry {
        title: "d".to_string(),
        path: None,
        sorting_path: vec!["d".to_string()],
        children: vec![leaf("y"), leaf("x")],
    };
    inner.children[0].sorting_path = vec!["d".to_string(), "y".to_string()];
    inner.children[1].sorting_path = vec!["d".to_string(), "x".to_string()];
    let mut root = MdEntry {
        title: "r".to_string(),
        path: None,
        sorting_path: vec![],
        children: vec![leaf("b"), inner, leaf("a"), leaf("d-e")],
    };
    sort_entry_recursive(&mut root);
    let order: Vec<String> = root.children.iter().map(|c| c.title.clone()).collect();
    assert_eq!(order, vec!["a", "b", "d", "d-e"]);
    let inner_order: Vec<String> =
        root.children[2].children.iter().map(|c| c.title.clone()).collect();
    assert_eq!(inner_order, vec!["x", "y"]);
}

#[test]
fn render_of_nothing_is_bare_heading() {
    assert_eq!(render_summary(&None), "# Summary\n\n");
}

#[test]
fn preprocessor_identity() {
    let p = AutoGenSummary::new();
    assert_eq!(p.name(), "auto-gen-summary");
    assert!(p.supports_renderer("html"));
    assert!(!p.supports_renderer("not-supported"));
}
