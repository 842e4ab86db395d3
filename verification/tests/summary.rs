use gen_mdbook_summary::cli::{handle_gen, handle_init, GenArgs, IGNORE_FILE};
use gen_mdbook_summary::{Ignore, Member, Readmes, Scan, SummaryError, SummaryItem};

fn allow(paths: &[&str]) -> Ignore {
    Ignore::new(paths.iter().map(|p| Some(p.to_string())).collect()).unwrap()
}

fn no_readme() -> Readmes {
    Readmes { upper_md: false, lower_md: false, upper: false, lower: false }
}

fn file(path: &str) -> Scan {
    Scan::File { path: path.to_string() }
}

fn member(scan: Scan) -> Member {
    let path = match &scan {
        Scan::File { path } => path.clone(),
        Scan::Other { path } => path.clone(),
        Scan::Directory { path, .. } => path.clone(),
        Scan::Unresolved => String::new(),
    };
    Member { path, scan }
}

fn dir(path: &str, readmes: Readmes, members: Vec<Scan>) -> Scan {
    Scan::Directory {
        path: path.to_string(),
        readmes,
        members: members.into_iter().map(member).collect(),
        complete: true,
    }
}

fn args(sort: bool) -> GenArgs {
    GenArgs { dir: "src".to_string(), output: None, sort, ignore: IGNORE_FILE.to_string() }
}

fn failure(scan: &Scan, ignore: &Ignore) -> SummaryError {
    match SummaryItem::new(scan, ignore) {
        Ok(_) => panic!("the build went through"),
        Err(e) => e,
    }
}

#[test]
fn ignore_holds_what_was_walked() {
    let ignore = allow(&["/book", "/book/a.md"]);
    assert!(!ignore.is_ignore("/book"));
    assert!(!ignore.is_ignore("/book/a.md"));
    assert!(ignore.is_ignore("/book/b.md"));
    assert!(ignore.is_ignore("/book/"));
    assert!(ignore.is_ignore("book/a.md"));
    assert!(ignore.is_ignore(""));
}

#[test]
fn ignore_of_empty_walk_ignores_all() {
    let ignore = allow(&[]);
    assert!(ignore.is_ignore("/book"));
    assert!(ignore.is_ignore(""));
}

#[test]
fn ignore_takes_a_path_twice() {
    let ignore = allow(&["/book/a.md", "/book/a.md"]);
    assert!(!ignore.is_ignore("/book/a.md"));
    assert!(ignore.is_ignore("/book"));
}

#[test]
fn ignore_answers_the_same_each_time() {
    let ignore = allow(&["/book", "/book/a.md"]);
    for _ in 0..5 {
        assert!(!ignore.is_ignore("/book/a.md"));
        assert!(ignore.is_ignore("/book/c.md"));
    }
}

#[test]
fn ignore_fails_on_an_unreadable_path() {
    let walked = vec![Some("/book".to_string()), None, Some("/book/a.md".to_string())];
    assert_eq!(Ignore::new(walked).err(), Some(SummaryError::Io));
    assert_eq!(Ignore::new(vec![None]).err(), Some(SummaryError::Io));
}

#[test]
fn file_becomes_a_leaf() {
    let item = SummaryItem::new(&file("/book/One.AA.md"), &allow(&[])).unwrap();
    assert_eq!(item.name(), "One.AA");
    assert_eq!(item.path(), "/book/One.AA.md");
    assert!(!item.is_dir());
    assert_eq!(item.introduction(), None);
    assert!(item.chapters().is_empty());
}

#[test]
fn unresolved_path_is_not_found() {
    assert_eq!(failure(&Scan::Unresolved, &allow(&[])), SummaryError::NotFound);
}

#[test]
fn special_file_is_of_invalid_kind() {
    let scan = Scan::Other { path: "/dev/null.x".to_string() };
    assert_eq!(failure(&scan, &allow(&["/dev/null.x"])), SummaryError::InvalidKind);
}

#[test]
fn path_without_component_has_no_name() {
    assert_eq!(failure(&file("/"), &allow(&["/"])), SummaryError::Name);
    assert_eq!(failure(&dir("/", no_readme(), vec![]), &allow(&["/"])), SummaryError::Name);
    assert_eq!(failure(&Scan::Other { path: "".to_string() }, &allow(&[])), SummaryError::Name);
}

#[test]
fn unreadable_directory_is_an_io_failure() {
    let scan = Scan::Directory {
        path: "/book".to_string(),
        readmes: no_readme(),
        members: vec![],
        complete: false,
    };
    assert_eq!(failure(&scan, &allow(&["/book"])), SummaryError::Io);
}

#[test]
fn failing_member_comes_before_a_broken_listing() {
    let scan = Scan::Directory {
        path: "/book".to_string(),
        readmes: no_readme(),
        members: vec![Member { path: "/book/gone".to_string(), scan: Scan::Unresolved }],
        complete: false,
    };
    assert_eq!(failure(&scan, &allow(&["/book", "/book/gone"])), SummaryError::NotFound);
    assert_eq!(failure(&scan, &allow(&["/book"])), SummaryError::Io);
}

#[test]
fn directory_lists_members_in_order() {
    let scan = dir(
        "/book",
        no_readme(),
        vec![file("/book/b.md"), file("/book/a.md"), file("/book/c.txt")],
    );
    let ignore = allow(&["/book", "/book/a.md", "/book/b.md", "/book/c.txt"]);
    let item = SummaryItem::new(&scan, &ignore).unwrap();
    assert_eq!(item.name(), "book");
    assert_eq!(item.path(), "/book");
    assert!(item.is_dir());
    assert_eq!(item.introduction(), None);
    let names: Vec<&str> = item.chapters().iter().map(|c| c.name()).collect();
    assert_eq!(names, vec!["b", "a", "c"]);
    let paths: Vec<&str> = item.chapters().iter().map(|c| c.path()).collect();
    assert_eq!(paths, vec!["/book/b.md", "/book/a.md", "/book/c.txt"]);
}

#[test]
fn ignored_members_are_left_out() {
    let scan = dir(
        "/book",
        no_readme(),
        vec![file("/book/a.md"), file("/book/secret.md"), Scan::Unresolved, file("/book/b.md")],
    );
    let ignore = allow(&["/book", "/book/a.md", "/book/b.md"]);
    let item = SummaryItem::new(&scan, &ignore).unwrap();
    let names: Vec<&str> = item.chapters().iter().map(|c| c.name()).collect();
    assert_eq!(names, vec!["a", "b"]);
}

#[test]
fn introduction_goes_by_priority() {
    let all = Readmes { upper_md: true, lower_md: true, upper: true, lower: true };
    let every = allow(&[
        "/book",
        "/book/README.md",
        "/book/readme.md",
        "/book/README",
        "/book/readme",
    ]);
    let item = SummaryItem::new(&dir("/book", all, vec![]), &every).unwrap();
    assert_eq!(item.introduction(), Some("/book/README.md"));

    let lower_md = Readmes { upper_md: false, lower_md: true, upper: true, lower: true };
    let item = SummaryItem::new(&dir("/book", lower_md, vec![]), &every).unwrap();
    assert_eq!(item.introduction(), Some("/book/readme.md"));

    let plain = Readmes { upper_md: false, lower_md: false, upper: true, lower: true };
    let item = SummaryItem::new(&dir("/book", plain, vec![]), &every).unwrap();
    assert_eq!(item.introduction(), Some("/book/README"));

    let last = Readmes { upper_md: false, lower_md: false, upper: false, lower: true };
    let item = SummaryItem::new(&dir("/book", last, vec![]), &every).unwrap();
    assert_eq!(item.introduction(), Some("/book/readme"));

    let item = SummaryItem::new(&dir("/book", no_readme(), vec![]), &every).unwrap();
    assert_eq!(item.introduction(), None);
}

#[test]
fn ignored_introduction_gives_way() {
    let all = Readmes { upper_md: true, lower_md: true, upper: true, lower: true };
    let ignore = allow(&["/book", "/book/readme"]);
    let item = SummaryItem::new(&dir("/book", all, vec![]), &ignore).unwrap();
    assert_eq!(item.introduction(), Some("/book/readme"));
    let item = SummaryItem::new(&dir("/book", all, vec![]), &allow(&["/book"])).unwrap();
    assert_eq!(item.introduction(), None);
}

#[test]
fn introduction_is_no_chapter() {
    let readmes = Readmes { upper_md: true, lower_md: true, upper: false, lower: false };
    let scan = dir(
        "/book",
        readmes,
        vec![file("/book/README.md"), file("/book/a.md"), file("/book/readme.md")],
    );
    let ignore = allow(&["/book", "/book/README.md", "/book/readme.md", "/book/a.md"]);
    let item = SummaryItem::new(&scan, &ignore).unwrap();
    assert_eq!(item.introduction(), Some("/book/README.md"));
    let paths: Vec<&str> = item.chapters().iter().map(|c| c.path()).collect();
    assert_eq!(paths, vec!["/book/a.md"]);
}

#[test]
fn other_spellings_of_readme_are_chapters() {
    let scan = dir(
        "/book",
        no_readme(),
        vec![file("/book/Readme.md"), file("/book/README.MD"), file("/book/myreadme.md")],
    );
    let ignore =
        allow(&["/book", "/book/Readme.md", "/book/README.MD", "/book/myreadme.md"]);
    let item = SummaryItem::new(&scan, &ignore).unwrap();
    let names: Vec<&str> = item.chapters().iter().map(|c| c.name()).collect();
    assert_eq!(names, vec!["Readme", "README"]);
}

#[test]
fn is_chapter_tells_members_apart() {
    let ignore = allow(&["/book/a.md", "/book/readme.md", "/book/README.md", "/book/README"]);
    assert!(SummaryItem::is_chapter("/book/a.md", &ignore));
    assert!(SummaryItem::is_chapter("/book/README", &ignore));
    assert!(!SummaryItem::is_chapter("/book/readme.md", &ignore));
    assert!(!SummaryItem::is_chapter("/book/README.md", &ignore));
    assert!(!SummaryItem::is_chapter("/book/b.md", &ignore));
}

#[test]
fn choose_introduction_builds_the_path() {
    let ignore = allow(&["/b/README"]);
    let readmes = Readmes { upper_md: true, lower_md: false, upper: true, lower: false };
    assert_eq!(
        SummaryItem::choose_introduction("/b", &readmes, &ignore),
        Some("/b/README".to_string())
    );
    assert_eq!(SummaryItem::choose_introduction("/c", &readmes, &ignore), None);
}

#[test]
fn failure_below_fails_the_whole() {
    let broken = Scan::Directory {
        path: "/book/a/b".to_string(),
        readmes: no_readme(),
        members: vec![],
        complete: false,
    };
    let scan = dir(
        "/book",
        no_readme(),
        vec![file("/book/x.md"), dir("/book/a", no_readme(), vec![broken]), file("/book/y.md")],
    );
    let ignore = allow(&["/book", "/book/x.md", "/book/a", "/book/a/b", "/book/y.md"]);
    assert_eq!(failure(&scan, &ignore), SummaryError::Io);
}

#[test]
fn first_failure_wins() {
    let scan = Scan::Directory {
        path: "/book".to_string(),
        readmes: no_readme(),
        members: vec![
            Member { path: "/book/gone".to_string(), scan: Scan::Unresolved },
            Member {
                path: "/book/pipe".to_string(),
                scan: Scan::Other { path: "/book/pipe".to_string() },
            },
        ],
        complete: true,
    };
    let ignore = allow(&["/book", "/book/gone", "/book/pipe"]);
    assert_eq!(failure(&scan, &ignore), SummaryError::NotFound);
    let ignore = allow(&["/book", "/book/pipe"]);
    assert_eq!(failure(&scan, &ignore), SummaryError::InvalidKind);
}

#[test]
fn link_that_does_not_resolve_fails_the_build() {
    let scan = Scan::Directory {
        path: "/book".to_string(),
        readmes: no_readme(),
        members: vec![Member { path: "/book/loop".to_string(), scan: Scan::Unresolved }],
        complete: true,
    };
    assert_eq!(failure(&scan, &allow(&["/book", "/book/loop"])), SummaryError::NotFound);
}

#[test]
fn failure_under_an_ignored_member_does_not_count() {
    let scan = Scan::Directory {
        path: "/book".to_string(),
        readmes: no_readme(),
        members: vec![
            Member { path: "/book/gone".to_string(), scan: Scan::Unresolved },
            Member { path: "/book/a.md".to_string(), scan: file("/book/a.md") },
        ],
        complete: true,
    };
    let item = SummaryItem::new(&scan, &allow(&["/book", "/book/a.md"])).unwrap();
    assert_eq!(item.chapters().len(), 1);
}

#[test]
fn member_takes_the_path_it_resolved_to() {
    let scan = Scan::Directory {
        path: "/book".to_string(),
        readmes: no_readme(),
        members: vec![Member {
            path: "/book/link.md".to_string(),
            scan: file("/real/target.md"),
        }],
        complete: true,
    };
    let item = SummaryItem::new(&scan, &allow(&["/book", "/book/link.md"])).unwrap();
    assert_eq!(item.chapters()[0].path(), "/real/target.md");
    assert_eq!(item.chapters()[0].name(), "target");
}

#[test]
fn render_two_files_sorted() {
    let scan = dir("/book", no_readme(), vec![file("/book/b.md"), file("/book/a.md")]);
    let ignore = allow(&["/book", "/book/a.md", "/book/b.md"]);
    let mut item = SummaryItem::new(&scan, &ignore).unwrap();
    item.sort();
    assert_eq!(item.gen_summary(), "# Summary\n\n\n- [a](/book/a.md)\n- [b](/book/b.md)");
}

#[test]
fn render_unsorted_keeps_the_listing_order() {
    let scan = dir("/book", no_readme(), vec![file("/book/b.md"), file("/book/a.md")]);
    let ignore = allow(&["/book", "/book/a.md", "/book/b.md"]);
    let item = SummaryItem::new(&scan, &ignore).unwrap();
    assert_eq!(item.gen_summary(), "# Summary\n\n\n- [b](/book/b.md)\n- [a](/book/a.md)");
}

#[test]
fn render_single_file() {
    let item = SummaryItem::new(&file("/book/intro.md"), &allow(&[])).unwrap();
    assert_eq!(item.gen_summary(), "# Summary\n\n- [intro](/book/intro.md)");
    assert_eq!(item.item(0), "- [intro](/book/intro.md)");
    assert_eq!(item.item(2), "\t\t- [intro](/book/intro.md)");
}

#[test]
fn render_empty_directory() {
    let item = SummaryItem::new(&dir("/book", no_readme(), vec![]), &allow(&["/book"])).unwrap();
    assert_eq!(item.gen_summary(), "# Summary\n\n");
    assert_eq!(item.item(0), "- [book]()");
    assert_eq!(item.item(1), "\t- [book]()");
}

fn nested() -> (Scan, Ignore) {
    let with_intro = Readmes { upper_md: false, lower_md: true, upper: false, lower: false };
    let scan = dir(
        "/book",
        no_readme(),
        vec![
            dir(
                "/book/part",
                with_intro,
                vec![
                    file("/book/part/readme.md"),
                    file("/book/part/two.md"),
                    dir("/book/part/deep", no_readme(), vec![file("/book/part/deep/x.md")]),
                    file("/book/part/one.md"),
                ],
            ),
            file("/book/about.md"),
        ],
    );
    let ignore = allow(&[
        "/book",
        "/book/part",
        "/book/part/readme.md",
        "/book/part/two.md",
        "/book/part/deep",
        "/book/part/deep/x.md",
        "/book/part/one.md",
        "/book/about.md",
    ]);
    (scan, ignore)
}

#[test]
fn render_nested_directories() {
    let (scan, ignore) = nested();
    let item = SummaryItem::new(&scan, &ignore).unwrap();
    assert_eq!(
        item.gen_summary(),
        "# Summary\n\n\n- [part](/book/part/readme.md)\n\t- [two](/book/part/two.md)\n\t- [deep]()\n\t\t- [x](/book/part/deep/x.md)\n\t- [one](/book/part/one.md)\n- [about](/book/about.md)"
    );
    assert_eq!(
        item.item(1),
        "\t- [book]()\n\t\t- [part](/book/part/readme.md)\n\t\t\t- [two](/book/part/two.md)\n\t\t\t- [deep]()\n\t\t\t\t- [x](/book/part/deep/x.md)\n\t\t\t- [one](/book/part/one.md)\n\t\t- [about](/book/about.md)"
    );
}

#[test]
fn sort_orders_every_level() {
    let (scan, ignore) = nested();
    let mut item = SummaryItem::new(&scan, &ignore).unwrap();
    item.sort();
    assert_eq!(
        item.gen_summary(),
        "# Summary\n\n\n- [about](/book/about.md)\n- [part](/book/part/readme.md)\n\t- [deep]()\n\t\t- [x](/book/part/deep/x.md)\n\t- [one](/book/part/one.md)\n\t- [two](/book/part/two.md)"
    );
    assert_eq!(item.name(), "book");
    assert_eq!(item.path(), "/book");
    assert_eq!(item.introduction(), None);
}

#[test]
fn sort_twice_is_sort_once() {
    let (scan, ignore) = nested();
    let mut item = SummaryItem::new(&scan, &ignore).unwrap();
    item.sort();
    let once = item.gen_summary();
    item.sort();
    assert_eq!(item.gen_summary(), once);
}

#[test]
fn sort_goes_by_code_point() {
    let scan = dir(
        "/r",
        no_readme(),
        vec![file("/r/b.md"), file("/r/a.md"), file("/r/B.md"), file("/r/ab.md"), file("/r/é.md")],
    );
    let ignore = allow(&["/r", "/r/b.md", "/r/a.md", "/r/B.md", "/r/ab.md", "/r/é.md"]);
    let mut item = SummaryItem::new(&scan, &ignore).unwrap();
    item.sort();
    let names: Vec<&str> = item.chapters().iter().map(|c| c.name()).collect();
    assert_eq!(names, vec!["B", "a", "ab", "b", "é"]);
}

#[test]
fn sort_keeps_the_order_of_equal_names() {
    let scan = dir(
        "/r",
        no_readme(),
        vec![file("/r/n.txt"), file("/r/a.md"), file("/r/n.md"), file("/r/n.rst")],
    );
    let ignore = allow(&["/r", "/r/n.txt", "/r/a.md", "/r/n.md", "/r/n.rst"]);
    let mut item = SummaryItem::new(&scan, &ignore).unwrap();
    item.sort();
    let paths: Vec<&str> = item.chapters().iter().map(|c| c.path()).collect();
    assert_eq!(paths, vec!["/r/a.md", "/r/n.txt", "/r/n.md", "/r/n.rst"]);
}

#[test]
fn sort_leaves_a_leaf_alone() {
    let mut item = SummaryItem::new(&file("/book/a.md"), &allow(&[])).unwrap();
    item.sort();
    assert_eq!(item.gen_summary(), "# Summary\n\n- [a](/book/a.md)");
}

#[test]
fn handle_gen_sorts_on_request() {
    let (scan, ignore) = nested();
    let sorted = handle_gen(&args(true), &scan, &ignore).unwrap();
    let plain = handle_gen(&args(false), &scan, &ignore).unwrap();
    let mut item = SummaryItem::new(&scan, &ignore).unwrap();
    assert_eq!(plain, item.gen_summary());
    item.sort();
    assert_eq!(sorted, item.gen_summary());
    assert_ne!(sorted, plain);
}

#[test]
fn handle_gen_reports_the_failure() {
    assert_eq!(
        handle_gen(&args(true), &Scan::Unresolved, &allow(&[])),
        Err(SummaryError::NotFound)
    );
}

#[test]
fn handle_init_gives_the_default_rules() {
    assert_eq!(
        handle_init(),
        "book.toml\n.gitignore\nbook\n*.doc\n*.pdf\n*.png\n*.xlsx\n*.pptx\n*.jpg\n"
    );
    assert_eq!(IGNORE_FILE, ".gmsignore");
}
