use file_tree::{Content, Entry, EntryIter, File, Folder};

fn file(name: &str) -> Entry {
    Entry::File(File {
        name: name.to_owned(),
    })
}

fn folder(name: &str, entries: Vec<Entry>) -> Entry {
    Entry::Folder(Folder {
        name: name.to_owned(),
        entries,
    })
}

fn get_content() -> Content {
    Content {
        entries: vec![
            Entry::Folder(Folder {
                name: "a".to_owned(),
                entries: vec![
                    Entry::File(File {
                        name: "c.txt".to_owned(),
                    }),
                    Entry::Folder(Folder {
                        name: "d".to_owned(),
                        entries: vec![Entry::File(File {
                            name: "e.txt".to_owned(),
                        })],
                    }),
                    Entry::File(File {
                        name: "b.txt".to_owned(),
                    }),
                    Entry::Folder(Folder {
                        name: "i".to_owned(),
                        entries: vec![],
                    }),
                    Entry::File(File {
                        name: "f.txt".to_owned(),
                    }),
                ],
            }),
            Entry::File(File {
                name: "g.txt".to_owned(),
            }),
            Entry::Folder(Folder {
                name: "h".to_owned(),
                entries: vec![],
            }),
        ],
    }
}

fn all_paths(it: &mut EntryIter<'_>, separator: &str) -> Vec<String> {
    let mut out = vec![];
    while let Some(_) = it.next() {
        out.push(it.get_path(separator));
    }
    out
}

#[test]
fn simple_test() {
    let content = get_content();
    let mut output = vec![];
    let mut ci = content.iter();
    while let Some(x) = ci.next() {
        output.push(format!("{}", ci.get_path("/")));
        if let Entry::File(f) = x {
            if f.name == "b.txt" {
                output.push(format!("b.txt found"));
            }
        }
    }
    let expected = vec![
        "a",
        "a/c.txt",
        "a/d",
        "a/d/e.txt",
        "a/b.txt",
        "b.txt found",
        "a/i",
        "a/f.txt",
        "g.txt",
        "h",
    ];
    assert_eq!(output.len(), expected.len());
    for (l, r) in output.iter().zip(expected.iter()) {
        assert_eq!(l, r);
    }
}

#[test]
fn find_test() {
    assert_eq!(
        get_content().iter().find_file("b.txt", "/"),
        Some("a/b.txt".to_owned())
    );
    assert_eq!(get_content().iter().find_file("h", "/"), None);
}

#[test]
fn yields_every_node_once() {
    let content = get_content();
    let mut it = content.iter();
    let mut names = vec![];
    while let Some(e) = it.next() {
        names.push(e.name().clone());
    }
    assert_eq!(
        names,
        vec!["a", "c.txt", "d", "e.txt", "b.txt", "i", "f.txt", "g.txt", "h"]
    );
}

#[test]
fn empty_content_ends_at_once() {
    let content = Content { entries: vec![] };
    let mut it = content.iter();
    assert_eq!(it.get_path("/"), "");
    assert!(it.next().is_none());
    assert!(it.next().is_none());
    assert_eq!(it.get_path("/"), "");
}

#[test]
fn path_is_empty_before_first_entry() {
    let content = get_content();
    let it = content.iter();
    assert_eq!(it.get_path("/"), "");
}

#[test]
fn exhausted_walk_stays_exhausted() {
    let content = get_content();
    let mut it = content.iter();
    let mut count: usize = 0;
    while it.next().is_some() {
        count += 1;
    }
    assert_eq!(count, 9);
    for _ in 0..3 {
        assert!(it.next().is_none());
        assert_eq!(it.get_path("/"), "");
    }
}

#[test]
fn files_leave_the_path() {
    let content = Content {
        entries: vec![folder("a", vec![file("x.txt"), file("y.txt")]), file("z.txt")],
    };
    let mut it = content.iter();
    assert_eq!(all_paths(&mut it, "/"), vec!["a", "a/x.txt", "a/y.txt", "z.txt"]);
}

#[test]
fn consecutive_empty_folders() {
    let content = Content {
        entries: vec![
            folder("p", vec![folder("e1", vec![]), folder("e2", vec![]), file("f")]),
            folder("q", vec![]),
        ],
    };
    let mut it = content.iter();
    assert_eq!(
        all_paths(&mut it, "/"),
        vec!["p", "p/e1", "p/e2", "p/f", "q"]
    );
}

#[test]
fn deep_nesting_backtracks_to_top() {
    let content = Content {
        entries: vec![
            folder("a", vec![folder("b", vec![folder("c", vec![file("d")])])]),
            file("e"),
        ],
    };
    let mut it = content.iter();
    assert_eq!(
        all_paths(&mut it, "/"),
        vec!["a", "a/b", "a/b/c", "a/b/c/d", "e"]
    );
}

#[test]
fn separator_is_used_between_names() {
    let content = get_content();
    let mut it = content.iter();
    let paths = all_paths(&mut it, " :: ");
    assert_eq!(paths[3], "a :: d :: e.txt");
    assert_eq!(paths[0], "a");
    let mut it = content.iter();
    let paths = all_paths(&mut it, "");
    assert_eq!(paths[3], "ade.txt");
}

#[test]
fn find_file_ignores_folders_of_that_name() {
    let content = Content {
        entries: vec![folder("x", vec![folder("y", vec![])]), folder("y", vec![])],
    };
    assert_eq!(content.iter().find_file("y", "/"), None);
    assert_eq!(content.iter().find_file("x", "/"), None);
}

#[test]
fn find_file_takes_first_match() {
    let content = Content {
        entries: vec![folder("a", vec![file("dup")]), file("dup")],
    };
    let mut it = content.iter();
    assert_eq!(it.find_file("dup", "/"), Some("a/dup".to_owned()));
    assert_eq!(it.get_path("/"), "a/dup");
    assert_eq!(it.find_file("dup", "/"), Some("dup".to_owned()));
    assert_eq!(it.find_file("dup", "/"), None);
    assert!(it.next().is_none());
}

#[test]
fn find_file_from_the_middle() {
    let content = get_content();
    let mut it = content.iter();
    assert_eq!(it.find_file("e.txt", "/"), Some("a/d/e.txt".to_owned()));
    assert_eq!(it.find_file("c.txt", "/"), None);
    assert_eq!(it.get_path("/"), "");
}

#[test]
fn find_file_with_other_separator() {
    assert_eq!(
        get_content().iter().find_file("e.txt", "\\"),
        Some("a\\d\\e.txt".to_owned())
    );
    assert_eq!(
        get_content().iter().find_file("g.txt", "/"),
        Some("g.txt".to_owned())
    );
}

#[test]
fn entry_name_of_each_kind() {
    assert_eq!(file("n.txt").name(), "n.txt");
    assert_eq!(folder("dir", vec![]).name(), "dir");
}
