use eol_attributes::attribute_search::{AttributeAssignment, AttributeState};
use eol_attributes::git_attributes::{
    resolve_assignments, unknown_assignments, EolAttribute, FileRequest, GitAttributesResolver,
    Resolution, ResolvedAttributes, ResolverEvent, TextAttribute, TreeValue,
};
use eol_attributes::repo_path::{is_valid_component, RepoPath};
use std::collections::BTreeMap;

fn path(s: &str) -> RepoPath {
    let components = s.split('/').filter(|c| !c.is_empty()).map(|c| c.to_owned()).collect();
    RepoPath::from_components(components).unwrap()
}

/// The `.gitattributes` files of a repository, by their paths.
type Files = BTreeMap<&'static str, &'static str>;

/// Resolves the attributes of `file`, and notes the paths that were looked up.
fn resolve_with(
    resolver: &mut GitAttributesResolver,
    files: &Files,
    file: &str,
    looked_up: &mut Vec<String>,
) -> (ResolvedAttributes, Vec<AttributeAssignment>) {
    let file = path(file);
    let mut event = ResolverEvent::Start;
    loop {
        match resolver.resolve(&file, event) {
            Resolution::Resolved { attributes, unknown } => return (attributes, unknown),
            Resolution::Request(FileRequest::PathValue(path)) => {
                let path = path.as_internal_file_string();
                event = ResolverEvent::Value(files.get(path.as_str()).map(|_| TreeValue::File {
                    id: path.clone().into_bytes(),
                    executable: false,
                    copy_id: vec![],
                }));
                looked_up.push(path);
            }
            Resolution::Request(FileRequest::ReadFile { path, id }) => {
                let path = path.as_internal_file_string();
                assert_eq!(path.as_bytes(), id);
                event = ResolverEvent::Contents(files[path.as_str()].as_bytes().to_vec());
            }
        }
    }
}

fn resolve(resolver: &mut GitAttributesResolver, files: &Files, file: &str) -> (TextAttribute, EolAttribute) {
    let (attributes, _) = resolve_with(resolver, files, file, &mut vec![]);
    (attributes.text, attributes.eol)
}

fn resolve_fresh(files: &Files, file: &str) -> (TextAttribute, EolAttribute) {
    resolve(&mut GitAttributesResolver::new(), files, file)
}

/// The values that are reported as unknown for `file`, by their attributes.
fn unknown_fresh(files: &Files, file: &str) -> Vec<(String, String)> {
    let (_, unknown) = resolve_with(&mut GitAttributesResolver::new(), files, file, &mut vec![]);
    let mut values: Vec<(String, String)> = unknown
        .into_iter()
        .map(|a| match a.state {
            AttributeState::Value(value) => (a.name, String::from_utf8(value).unwrap()),
            other => panic!("unexpected {:?}", other),
        })
        .collect();
    values.sort();
    values
}

fn assignment(name: &str, state: AttributeState) -> AttributeAssignment {
    AttributeAssignment { name: name.to_owned(), state }
}

fn value(s: &str) -> AttributeState {
    AttributeState::Value(s.as_bytes().to_vec())
}

fn resolved(assignments: &[AttributeAssignment]) -> (TextAttribute, EolAttribute) {
    let attributes = resolve_assignments(assignments);
    (attributes.text, attributes.eol)
}

// --- Assignments ---
#[test]
fn text_assignments() {
    let text = |state| resolved(&[assignment("text", state)]);
    assert_eq!(text(AttributeState::IsSet), (TextAttribute::IsSet, EolAttribute::Unspecified));
    assert_eq!(text(AttributeState::Unset), (TextAttribute::Unset, EolAttribute::Unspecified));
    assert_eq!(text(value("auto")), (TextAttribute::Auto, EolAttribute::Unspecified));
    assert_eq!(text(value("Auto")), (TextAttribute::Unspecified, EolAttribute::Unspecified));
    assert_eq!(text(value("")), (TextAttribute::Unspecified, EolAttribute::Unspecified));
    assert_eq!(
        text(AttributeState::Unspecified),
        (TextAttribute::Unspecified, EolAttribute::Unspecified)
    );
}

#[test]
fn eol_assignments() {
    let eol = |state| resolved(&[assignment("eol", state)]);
    assert_eq!(eol(value("lf")), (TextAttribute::IsSet, EolAttribute::Lf));
    assert_eq!(eol(value("crlf")), (TextAttribute::IsSet, EolAttribute::Crlf));
    assert_eq!(eol(value("cr")), (TextAttribute::Unspecified, EolAttribute::Unspecified));
    assert_eq!(
        eol(AttributeState::IsSet),
        (TextAttribute::Unspecified, EolAttribute::Unspecified)
    );
    assert_eq!(
        eol(AttributeState::Unset),
        (TextAttribute::Unspecified, EolAttribute::Unspecified)
    );
}

#[test]
fn later_assignments_win() {
    assert_eq!(
        resolved(&[assignment("text", value("auto")), assignment("text", AttributeState::Unset)]),
        (TextAttribute::Unset, EolAttribute::Unspecified)
    );
    assert_eq!(
        resolved(&[assignment("text", value("auto")), assignment("text", value("odd"))]),
        (TextAttribute::Auto, EolAttribute::Unspecified)
    );
}

#[test]
fn eol_implies_text_unless_text_is_given() {
    for (state, text) in [
        (AttributeState::Unset, TextAttribute::Unset),
        (value("auto"), TextAttribute::Auto),
        (AttributeState::Unspecified, TextAttribute::IsSet),
    ] {
        let assignments = [assignment("text", state), assignment("eol", value("crlf"))];
        assert_eq!(resolved(&assignments), (text, EolAttribute::Crlf));
    }
}

#[test]
fn other_attributes_are_ignored() {
    assert_eq!(
        resolved(&[assignment("diff", AttributeState::IsSet), assignment("texts", value("auto"))]),
        (TextAttribute::Unspecified, EolAttribute::Unspecified)
    );
    assert_eq!(resolved(&[]), (TextAttribute::Unspecified, EolAttribute::Unspecified));
}

#[test]
fn order_makes_no_difference() {
    let one = [assignment("text", value("auto")), assignment("eol", value("lf"))];
    let other = [assignment("eol", value("lf")), assignment("text", value("auto"))];
    assert_eq!(resolved(&one), resolved(&other));
}

#[test]
fn unknown_values_among_assignments() {
    let assignments = vec![
        assignment("text", value("auto")),
        assignment("text", value("lf")),
        assignment("text", AttributeState::IsSet),
        assignment("eol", value("lf")),
        assignment("eol", value("crlf")),
        assignment("eol", value("auto")),
        assignment("eol", AttributeState::Unset),
        assignment("diff", value("cpp")),
        assignment("text", value("")),
    ];
    assert_eq!(
        unknown_assignments(assignments),
        [
            assignment("text", value("lf")),
            assignment("eol", value("auto")),
            assignment("text", value("")),
        ]
    );
    assert!(unknown_assignments(vec![]).is_empty());
}

#[test]
fn unknown_values_change_nothing() {
    let known = [assignment("text", AttributeState::Unset), assignment("eol", value("lf"))];
    let mixed = [
        assignment("text", AttributeState::Unset),
        assignment("text", value("yes")),
        assignment("eol", value("lf")),
        assignment("eol", value("cr")),
    ];
    assert_eq!(resolved(&known), resolved(&mixed));
}

// --- Repositories ---
#[test]
fn unknown_values_in_repositories() {
    let pair = |name: &str, value: &str| (name.to_owned(), value.to_owned());
    let files = Files::from([
        (
            ".gitattributes",
            "*.a text=yes eol=cr\n*.b text=auto eol=lf\n*.c eol=LF diff=x\n*.d text=no\n*.e text eol\n",
        ),
        ("sub/.gitattributes", "*.a -text\n*.b eol=mac\n"),
    ]);
    assert_eq!(unknown_fresh(&files, "x.a"), [pair("eol", "cr"), pair("text", "yes")]);
    assert_eq!(unknown_fresh(&files, "x.b"), []);
    assert_eq!(unknown_fresh(&files, "x.c"), [pair("eol", "LF")]);
    assert_eq!(unknown_fresh(&files, "x.d"), [pair("text", "no")]);
    assert_eq!(unknown_fresh(&files, "x.e"), []);
    assert_eq!(unknown_fresh(&files, "sub/x.a"), [pair("eol", "cr")]);
    assert_eq!(unknown_fresh(&files, "sub/x.b"), [pair("eol", "mac")]);
    assert_eq!(resolve_fresh(&files, "sub/x.b"), (TextAttribute::Auto, EolAttribute::Unspecified));
}

#[test]
fn no_attribute_files() {
    let files = Files::new();
    assert_eq!(
        resolve_fresh(&files, "a/b/c.txt"),
        (TextAttribute::Unspecified, EolAttribute::Unspecified)
    );
}

#[test]
fn attributes_at_the_root() {
    let files = Files::from([(
        ".gitattributes",
        "*.txt text\n*.bat eol=crlf\n*.sh text=auto eol=lf\n*.png binary\n*.raw -text\n*.odd text=odd eol\n",
    )]);
    assert_eq!(resolve_fresh(&files, "a.txt"), (TextAttribute::IsSet, EolAttribute::Unspecified));
    assert_eq!(resolve_fresh(&files, "x/a.bat"), (TextAttribute::IsSet, EolAttribute::Crlf));
    assert_eq!(resolve_fresh(&files, "x/y/a.sh"), (TextAttribute::Auto, EolAttribute::Lf));
    assert_eq!(resolve_fresh(&files, "a.png"), (TextAttribute::Unset, EolAttribute::Unspecified));
    assert_eq!(resolve_fresh(&files, "a.raw"), (TextAttribute::Unset, EolAttribute::Unspecified));
    assert_eq!(
        resolve_fresh(&files, "a.odd"),
        (TextAttribute::Unspecified, EolAttribute::Unspecified)
    );
    assert_eq!(
        resolve_fresh(&files, "a.TXT"),
        (TextAttribute::Unspecified, EolAttribute::Unspecified)
    );
}

#[test]
fn deeper_files_come_first() {
    let files = Files::from([
        (".gitattributes", "*.txt eol=crlf\n*.md text\n"),
        ("a/.gitattributes", "*.txt eol=lf\n"),
        ("a/b/.gitattributes", "*.txt !eol -text\n"),
    ]);
    assert_eq!(resolve_fresh(&files, "x.txt"), (TextAttribute::IsSet, EolAttribute::Crlf));
    assert_eq!(resolve_fresh(&files, "a/x.txt"), (TextAttribute::IsSet, EolAttribute::Lf));
    assert_eq!(
        resolve_fresh(&files, "a/b/x.txt"),
        (TextAttribute::Unset, EolAttribute::Unspecified)
    );
    assert_eq!(
        resolve_fresh(&files, "a/b/x.md"),
        (TextAttribute::IsSet, EolAttribute::Unspecified)
    );
}

#[test]
fn macros_are_not_read_from_files() {
    let files = Files::from([(".gitattributes", "[attr]mine text eol=lf\n*.txt mine\n")]);
    assert_eq!(
        resolve_fresh(&files, "x.txt"),
        (TextAttribute::Unspecified, EolAttribute::Unspecified)
    );
}

#[test]
fn history_makes_no_difference() {
    let files = Files::from([
        (".gitattributes", "*.txt eol=crlf\n"),
        ("a/.gitattributes", "*.txt eol=lf diff\n"),
        ("a/b/c/.gitattributes", "*.txt -text\n"),
        ("d/.gitattributes", "*.txt text=auto\n*.md eol=lf\n"),
    ]);
    let names = ["x.txt", "a/x.txt", "a/b/x.txt", "a/b/c/x.txt", "d/x.txt", "d/e/x.md", "f/x.md"];
    for first in names {
        for second in names {
            for third in names {
                let mut resolver = GitAttributesResolver::new();
                for name in [first, second, third] {
                    assert_eq!(resolve(&mut resolver, &files, name), resolve_fresh(&files, name));
                }
            }
        }
    }
}

#[test]
fn same_file_twice() {
    let files = Files::from([(".gitattributes", "*.txt eol=crlf\n"), ("a/.gitattributes", "x.txt text=auto\n")]);
    let mut resolver = GitAttributesResolver::new();
    let first = resolve(&mut resolver, &files, "a/x.txt");
    assert_eq!(first, (TextAttribute::Auto, EolAttribute::Crlf));
    assert_eq!(resolve(&mut resolver, &files, "a/x.txt"), first);
    resolve(&mut resolver, &files, "b/x.txt");
    assert_eq!(resolve(&mut resolver, &files, "a/x.txt"), first);
}

#[test]
fn files_elsewhere_have_no_influence() {
    let files = Files::from([(".gitattributes", "*.txt eol=crlf\n"), ("a/.gitattributes", "*.txt -text\n")]);
    let others = Files::from([
        (".gitattributes", "*.txt eol=crlf\n"),
        ("a/.gitattributes", "*.txt -text\n"),
        ("a/b/.gitattributes", "*.txt text=auto\n"),
        ("c/.gitattributes", "*.txt eol=lf\n"),
        ("ab/.gitattributes", "*.txt text=odd\n"),
    ]);
    for file in ["x.txt", "a/x.txt", "d/x.txt"] {
        assert_eq!(resolve_fresh(&files, file), resolve_fresh(&others, file));
        assert_eq!(unknown_fresh(&files, file), unknown_fresh(&others, file));
    }
    assert_ne!(resolve_fresh(&files, "c/x.txt"), resolve_fresh(&others, "c/x.txt"));
}

/// Sets out for `dir`, and gives the way up where the contents of the file at `last` are due.
fn give_up(resolver: &mut GitAttributesResolver, files: &Files, dir: &str, last: &str) {
    let dir = path(dir);
    let mut event = ResolverEvent::Start;
    loop {
        event = match resolver.change_dir(&dir, event) {
            Some(FileRequest::PathValue(path)) => {
                let path = path.as_internal_file_string();
                ResolverEvent::Value(files.get(path.as_str()).map(|_| TreeValue::File {
                    id: path.clone().into_bytes(),
                    executable: true,
                    copy_id: vec![1],
                }))
            }
            Some(FileRequest::ReadFile { path, .. }) => {
                let path = path.as_internal_file_string();
                if path == last {
                    return;
                }
                ResolverEvent::Contents(files[path.as_str()].as_bytes().to_vec())
            }
            None => panic!("the way has come to its end"),
        };
    }
}

#[test]
fn a_way_that_is_given_up_drops_attributes() {
    let files = Files::from([
        (".gitattributes", "*.txt eol=crlf\n"),
        ("a/.gitattributes", "*.txt eol=lf\n"),
        ("c/.gitattributes", "*.txt -text\n"),
    ]);
    let mut resolver = GitAttributesResolver::new();
    assert_eq!(resolve(&mut resolver, &files, "a/x.txt"), (TextAttribute::IsSet, EolAttribute::Lf));
    give_up(&mut resolver, &files, "c", "c/.gitattributes");
    // The resolver is still in `a`, without the attributes of `a`.
    let mut looked_up = vec![];
    let (attributes, _) = resolve_with(&mut resolver, &files, "a/y.txt", &mut looked_up);
    assert!(looked_up.is_empty());
    assert_eq!((attributes.text, attributes.eol), (TextAttribute::IsSet, EolAttribute::Crlf));
    // Elsewhere nothing is amiss.
    for file in ["c/x.txt", "a/x.txt", "x.txt"] {
        assert_eq!(resolve(&mut resolver, &files, file), resolve_fresh(&files, file));
    }
}

#[test]
fn a_way_that_is_given_up_keeps_attributes() {
    let files = Files::from([
        (".gitattributes", "*.txt eol=crlf\n"),
        ("c/.gitattributes", "*.txt eol=lf\n"),
        ("c/d/.gitattributes", "*.txt -text\n"),
    ]);
    let mut resolver = GitAttributesResolver::new();
    resolve(&mut resolver, &files, "x.txt");
    give_up(&mut resolver, &files, "c/d", "c/d/.gitattributes");
    // The resolver is still in the root, with the attributes of `c`.
    let mut looked_up = vec![];
    let (attributes, _) = resolve_with(&mut resolver, &files, "x.txt", &mut looked_up);
    assert!(looked_up.is_empty());
    assert_eq!((attributes.text, attributes.eol), (TextAttribute::IsSet, EolAttribute::Lf));
    resolve_with(&mut resolver, &files, "c/x.txt", &mut looked_up);
    assert_eq!(looked_up, ["c/.gitattributes"]);
}

#[test]
fn a_first_way_that_is_given_up_starts_again() {
    let files = Files::from([
        (".gitattributes", "*.txt eol=crlf\n"),
        ("a/.gitattributes", "*.txt eol=lf\n"),
    ]);
    let mut resolver = GitAttributesResolver::new();
    give_up(&mut resolver, &files, "a", "a/.gitattributes");
    let mut looked_up = vec![];
    let (attributes, _) = resolve_with(&mut resolver, &files, "a/x.txt", &mut looked_up);
    assert_eq!(looked_up, [".gitattributes", "a/.gitattributes"]);
    assert_eq!((attributes.text, attributes.eol), (TextAttribute::IsSet, EolAttribute::Lf));
    assert_eq!(resolve(&mut resolver, &files, "x.txt"), resolve_fresh(&files, "x.txt"));
}

#[test]
fn only_attribute_files_are_looked_up() {
    let files = Files::from([("a/.gitattributes", "*.txt text\n")]);
    let mut looked_up = vec![];
    resolve_with(&mut GitAttributesResolver::new(), &files, "a/b/c/x.txt", &mut looked_up);
    assert_eq!(
        looked_up,
        [".gitattributes", "a/.gitattributes", "a/b/.gitattributes", "a/b/c/.gitattributes"]
    );
}

#[test]
fn each_directory_is_looked_up_once_on_the_way() {
    let files = Files::from([(".gitattributes", "*.txt text\n")]);
    let mut resolver = GitAttributesResolver::new();
    let mut looked_up = vec![];
    resolve_with(&mut resolver, &files, "a/b/x.txt", &mut looked_up);
    assert_eq!(
        looked_up,
        [".gitattributes", "a/.gitattributes", "a/b/.gitattributes"]
    );
    looked_up.clear();
    resolve_with(&mut resolver, &files, "a/b/y.txt", &mut looked_up);
    assert!(looked_up.is_empty());
    resolve_with(&mut resolver, &files, "a/c/y.txt", &mut looked_up);
    assert_eq!(looked_up, ["a/c/.gitattributes"]);
    looked_up.clear();
    resolve_with(&mut resolver, &files, "y.txt", &mut looked_up);
    assert!(looked_up.is_empty());
}

#[test]
fn only_regular_files_have_attributes() {
    let mut resolver = GitAttributesResolver::new();
    let file = path("x.txt");
    assert!(matches!(
        resolver.resolve(&file, ResolverEvent::Start),
        Resolution::Request(FileRequest::PathValue(_))
    ));
    match resolver.resolve(&file, ResolverEvent::Value(Some(TreeValue::Other))) {
        Resolution::Resolved { attributes, unknown } => {
            assert!(unknown.is_empty());
            assert_eq!(attributes.text, TextAttribute::Unspecified);
            assert_eq!(attributes.eol, EolAttribute::Unspecified);
        }
        other => panic!("unexpected {:?}", other),
    }
}

#[test]
fn ways_without_attributes_are_closed() {
    let files = Files::from([("a/.gitattributes", "*.txt text\n")]);
    let mut resolver = GitAttributesResolver::new();
    assert!(resolver.can_change_dir(&path("a/b")));
    resolve(&mut resolver, &files, "a/b/x.txt");
    assert!(resolver.can_change_dir(&path("a/b/c")));
    assert!(resolver.can_change_dir(&path("a")));
    assert!(resolver.can_change_dir(&path("d")));
    assert!(resolver.can_change_dir(&path("")));
    assert_eq!(
        resolve(&mut resolver, &files, "d/x.txt"),
        (TextAttribute::Unspecified, EolAttribute::Unspecified)
    );
    assert!(resolver.can_change_dir(&path("d/e")));
    assert!(!resolver.can_change_dir(&path("a")));
    assert!(!resolver.can_change_dir(&path("")));
}

#[test]
fn root_attributes_open_all_ways() {
    let files = Files::from([(".gitattributes", "")]);
    let mut resolver = GitAttributesResolver::new();
    resolve(&mut resolver, &files, "a/b/x.txt");
    for dir in ["", "a", "b", "a/c/d"] {
        assert!(resolver.can_change_dir(&path(dir)));
    }
}

#[test]
fn change_dir_alone() {
    let mut resolver = GitAttributesResolver::new();
    match resolver.change_dir(&path("a"), ResolverEvent::Start) {
        Some(FileRequest::PathValue(path)) => {
            assert_eq!(path.as_internal_file_string(), ".gitattributes")
        }
        other => panic!("unexpected {:?}", other),
    }
    match resolver.change_dir(&path("a"), ResolverEvent::Value(None)) {
        Some(FileRequest::PathValue(path)) => {
            assert_eq!(path.as_internal_file_string(), "a/.gitattributes")
        }
        other => panic!("unexpected {:?}", other),
    }
    assert!(resolver.change_dir(&path("a"), ResolverEvent::Value(None)).is_none());
}

// --- Paths ---
#[test]
fn components_of_paths() {
    assert!(is_valid_component("a"));
    assert!(is_valid_component(".gitattributes"));
    assert!(!is_valid_component(""));
    assert!(!is_valid_component("a/b"));
    assert!(RepoPath::from_components(vec!["a".to_owned(), "".to_owned()]).is_none());
    assert!(RepoPath::from_components(vec!["a/b".to_owned()]).is_none());
}

#[test]
fn relations_of_paths() {
    let p = path("a/b/c");
    assert_eq!(p.depth(), 3);
    assert_eq!(p.as_internal_file_string(), "a/b/c");
    assert_eq!(p.parent().unwrap().as_internal_file_string(), "a/b");
    assert_eq!(p.ancestor(1).as_internal_file_string(), "a");
    assert_eq!(p.join("d").as_internal_file_string(), "a/b/c/d");
    assert!(p.starts_with(&path("a/b")));
    assert!(p.starts_with(&path("")));
    assert!(!p.starts_with(&path("a/bb")));
    assert!(!path("a/b").starts_with(&p));
    assert!(p.is_same(&path("a/b/c")));
    assert!(!p.is_same(&path("a/b")));
    assert!(!p.is_same(&path("a/b/d")));
    assert!(RepoPath::root().parent().is_none());
    assert_eq!(RepoPath::root().as_internal_file_string(), "");
}
