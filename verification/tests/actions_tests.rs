use dotloy::abspath::AbsPathBuf;
use dotloy::actions::{
    watch_reaction, Action, Actions, ActionsBuilder, Error, WatchEventKind, WatchReaction,
};
use dotloy::config::{DeployType, LinkType, OneOrMany, Platform, Root, Target};
use dotloy::resources::{ResourceHandle, ResourceLocation, ResourceStore};
use dotloy::template::{Context, Variable};
use itertools::Itertools;
use tempdir::TempDir;

fn cwd() -> AbsPathBuf {
    AbsPathBuf::from_absolute("/".to_owned()).unwrap()
}

fn linux() -> Option<Platform> {
    Some(Platform::Linux)
}

fn dir_string(dir: &TempDir) -> String {
    dir.path().to_string_lossy().into_owned()
}

fn write_file(dir: &TempDir, name: &str, content: &str) -> String {
    let p = dir.path().join(name);
    fs_err::write(&p, content).unwrap();
    p.to_string_lossy().into_owned()
}

#[test]
fn explicit_is_template_causes_expansion_even_if_not_ending_with_in() {
    let dir = TempDir::new("explicit-template").unwrap();
    let src = write_file(&dir, "softlinks.yaml", "data");
    let dst = dir.path().join("softlinks-out.yaml").to_string_lossy().into_owned();
    let mut cfg = Root::default();
    let mut tgt = Target::new(src, dst);
    tgt.is_template = Some(true);
    cfg.targets.push(tgt);
    let acts = Actions::from_config(&cfg, &Context::new(), linux(), &cwd()).unwrap();
    assert!(matches!(acts.acts.as_slice(), [Action::TemplateExpand { .. }, ..]));
}

#[test]
fn resource_locations_are_equal_based_on_canonical_path() {
    assert_eq!(
        ResourceLocation::Path(AbsPathBuf::new("./src/..", &cwd())),
        ResourceLocation::Path(AbsPathBuf::new(".", &cwd()))
    );
}

#[test]
fn dependents_filters_all_actions_that_depend_on_resource() {
    let mut b = ActionsBuilder::default();
    let resources = (0..10).map(|_| b.res.define_mem()).collect::<Vec<_>>();
    let mut dests = Vec::new();
    for res in &resources {
        let dst = b.res.define_mem();
        dests.push(dst.clone());
        b.copy(res.clone(), dst);
    }
    let acts = b.build();
    for roots in resources.into_iter().powerset() {
        let root_len = roots.len();
        let deps = acts.dependents_of(roots);
        assert_eq!(deps.acts.len(), root_len);
        for act in deps.acts {
            assert!(act.is_copy());
        }
    }
}

#[test]
fn actions_with_template_does_copy() {
    let dir = TempDir::new("template-copy").unwrap();
    let src_str = write_file(&dir, "actions_with_test_data.in", "body");
    let dst_str = dir.path().join("actions_with_test_data").to_string_lossy().into_owned();
    let src = AbsPathBuf::new(&src_str, &cwd());
    let dst = AbsPathBuf::new(&dst_str, &cwd());
    let mut cfg = Root::default();
    cfg.targets.push(Target::new(src_str, dst_str));
    let acts = Actions::from_config(&cfg, &Context::new(), linux(), &cwd()).unwrap();
    let target = ResourceLocation::InMemory { id: acts.resources.test_handles()[0].0 };
    assert_eq!(
        &acts.acts,
        &[
            Action::TemplateExpand {
                ctx: Context::new(),
                target: ResourceLocation::Path(src),
                output: target.clone(),
            },
            Action::Copy { from: target, to: ResourceLocation::Path(dst) }
        ]
    );
}

#[test]
fn variable_expansions_on_root_are_placed_in_config() {
    let dir = TempDir::new("config-vars").unwrap();
    let home = dir_string(&dir);
    let base = Context::new().with_define(Variable::from_str("xdg.home"), home);
    let mut cfg = Root::default();
    cfg.shared.variables.push((
        "t1".to_owned(),
        dotloy::template::Templated::new("{{ xdg.home }}/t".to_owned()),
    ));
    cfg.targets.push(Target::new("src/actions.rs".to_owned(), "{{ config.t1 }}".to_owned()));
    let acts = Actions::from_config(&cfg, &base, linux(), &cwd()).unwrap();
    let expected_to = base.render("{{ xdg.home }}/t").unwrap();
    assert_eq!(
        &acts.acts,
        &[Action::Link {
            ty: LinkType::Hard,
            from: AbsPathBuf::new("src/actions.rs", &cwd()),
            to: AbsPathBuf::new(&expected_to, &cwd()),
        }]
    );
}

#[test]
fn trying_to_link_into_non_existant_dirs_creates_needed_ones() {
    let mut cfg = Root::default();
    cfg.targets.push(Target::new(
        "src/actions.rs".to_owned(),
        "/home/nonexistant/hello.txt".to_owned(),
    ));
    let acts = Actions::from_config(&cfg, &Context::new(), linux(), &cwd()).unwrap();
    assert_eq!(
        &acts.acts,
        &[
            Action::MkDir { path: AbsPathBuf::new("/home/nonexistant", &cwd()) },
            Action::Link {
                ty: LinkType::Hard,
                from: AbsPathBuf::new("src/actions.rs", &cwd()),
                to: AbsPathBuf::new("/home/nonexistant/hello.txt", &cwd()),
            }
        ]
    );
}

#[test]
fn variable_expansions_are_placed_in_target_and_can_include_other_expands() {
    let dir = TempDir::new("target-vars").unwrap();
    let home = dir_string(&dir);
    let base = Context::new().with_define(Variable::from_str("xdg.home"), home);
    let mut cfg = Root::default();
    let mut tgt = Target::new("src/actions.rs".to_owned(), "{{ target.t1 }}".to_owned());
    tgt.shared.variables.push((
        "t1".to_owned(),
        dotloy::template::Templated::new("{{ xdg.home }}/t".to_owned()),
    ));
    cfg.targets.push(tgt);
    let acts = Actions::from_config(&cfg, &base, linux(), &cwd()).unwrap();
    let expected_to = base.render("{{ xdg.home }}/t").unwrap();
    assert_eq!(
        &acts.acts,
        &[Action::Link {
            ty: LinkType::Hard,
            from: AbsPathBuf::new("src/actions.rs", &cwd()),
            to: AbsPathBuf::new(&expected_to, &cwd()),
        }]
    );
}

#[test]
fn actions_on_link_only_expands_to_links() {
    let mut cfg = Root::default();
    cfg.targets.push(Target::new("src/actions.rs".to_owned(), "./dst".to_owned()));
    let acts = Actions::from_config(&cfg, &Context::new(), linux(), &cwd()).unwrap();
    assert_eq!(
        &acts.acts,
        &[Action::Link {
            ty: LinkType::Hard,
            from: AbsPathBuf::new("src/actions.rs", &cwd()),
            to: AbsPathBuf::new("./dst", &cwd()),
        }]
    );
}

#[test]
fn non_matching_platform_causes_target_to_be_skipped() {
    let mut cfg = Root::default();
    let mut tgt = Target::new("src/actions.rs".to_owned(), "./dst".to_owned());
    tgt.shared.runs_on = Some(OneOrMany::One(Platform::Windows));
    cfg.targets.push(tgt);
    let acts = Actions::from_config(&cfg, &Context::new(), linux(), &cwd()).unwrap();
    assert_eq!(acts.acts.as_slice(), &[]);
}

#[test]
fn softlinks_work() {
    let dir = TempDir::new("softlinks").unwrap();
    fs_err::create_dir(dir.path().join("softlinks")).unwrap();
    let src = dir.path().join("softlinks").to_string_lossy().into_owned();
    let dst = dir.path().join("softlink-folder").to_string_lossy().into_owned();
    let mut cfg = Root::default();
    cfg.targets.push(Target::new(src, dst));
    let acts = Actions::from_config(&cfg, &Context::new(), linux(), &cwd()).unwrap();
    acts.run(false).unwrap();
    let created = fs_err::symlink_metadata(dir.path().join("softlink-folder")).unwrap();
    assert!(created.file_type().is_symlink());
}

#[test]
fn explicit_copying_link_type() {
    let dir = TempDir::new("copying").unwrap();
    let dst = dir.path().join("actions.rs").to_string_lossy().into_owned();
    let mut cfg = Root::default();
    let mut tgt = Target::new("src/actions.rs".to_owned(), dst);
    tgt.link_type = DeployType::Copy;
    cfg.targets.push(tgt);
    let acts = Actions::from_config(&cfg, &Context::new(), linux(), &cwd()).unwrap();
    acts.run(false).unwrap();
    let created = fs_err::symlink_metadata(dir.path().join("actions.rs")).unwrap();
    assert!(created.file_type().is_file());
}

#[test]
fn trying_to_run_an_empty_actions_is_an_error() {
    let acts = Actions::new();
    assert!(matches!(acts.run(false), Err(Error::NoActions)));
}

#[test]
fn dry_run_touches_nothing_and_reports_success() {
    let dir = TempDir::new("dry-run").unwrap();
    let dst = dir.path().join("out").to_string_lossy().into_owned();
    let mut cfg = Root::default();
    let mut tgt = Target::new("src/actions.rs".to_owned(), dst);
    tgt.link_type = DeployType::Copy;
    cfg.targets.push(tgt);
    let acts = Actions::from_config(&cfg, &Context::new(), linux(), &cwd()).unwrap();
    let outcomes = acts.run(true).unwrap();
    assert_eq!(outcomes.len(), 1);
    assert!(outcomes[0].is_none());
    assert!(fs_err::metadata(dir.path().join("out")).is_err());
}

#[test]
fn rerunning_a_correct_link_is_a_no_op() {
    let dir = TempDir::new("relink").unwrap();
    let src = write_file(&dir, "source.txt", "x");
    let dst = dir.path().join("link").to_string_lossy().into_owned();
    let mut b = ActionsBuilder::default();
    b.link(&src, &dst, LinkType::Soft, &cwd());
    let acts = b.build();
    let first = acts.run(false).unwrap();
    assert!(first[0].is_none());
    let second = acts.run(false).unwrap();
    assert!(second[0].is_none(), "relinking an already-correct symlink must succeed");
}

#[test]
fn linking_over_a_differently_pointing_symlink_fails() {
    let dir = TempDir::new("relink-differs").unwrap();
    let a = write_file(&dir, "a.txt", "a");
    let other = write_file(&dir, "b.txt", "b");
    let dst = dir.path().join("link").to_string_lossy().into_owned();
    symlink::symlink_auto(&other, &dst).unwrap();
    let acts = Actions {
        acts: vec![Action::Link {
            ty: LinkType::Soft,
            from: AbsPathBuf::new(&a, &cwd()),
            to: AbsPathBuf::from_absolute(dst).unwrap(),
        }],
        resources: ResourceStore::default(),
    };
    let outcomes = acts.run(false).unwrap();
    assert!(matches!(outcomes[0], Some(Error::TargetSymlinksDiffer { .. })));
}

#[test]
fn linking_over_a_regular_file_fails_with_target_exists() {
    let dir = TempDir::new("relink-exists").unwrap();
    let a = write_file(&dir, "a.txt", "a");
    let dst = write_file(&dir, "occupied.txt", "o");
    let mut b = ActionsBuilder::default();
    b.link(&a, &dst, LinkType::Soft, &cwd());
    let outcomes = b.build().run(false).unwrap();
    assert!(matches!(outcomes[0], Some(Error::TargetExists { .. })));
}

#[test]
fn hard_linking_a_directory_fails() {
    let dir = TempDir::new("hard-dir").unwrap();
    fs_err::create_dir(dir.path().join("sub")).unwrap();
    let src = dir.path().join("sub").to_string_lossy().into_owned();
    let dst = dir.path().join("link").to_string_lossy().into_owned();
    let mut b = ActionsBuilder::default();
    b.link(&src, &dst, LinkType::Hard, &cwd());
    let outcomes = b.build().run(false).unwrap();
    assert!(matches!(outcomes[0], Some(Error::HardLinkOfDirectory { .. })));
}

#[test]
fn template_expansion_renders_into_the_destination() {
    let dir = TempDir::new("expand").unwrap();
    let src = write_file(&dir, "greeting.in", "Hello {{ who }}!");
    let dst = dir.path().join("greeting").to_string_lossy().into_owned();
    let base = Context::new().with_define(Variable::single("who".to_owned()), "world".to_owned());
    let mut cfg = Root::default();
    cfg.targets.push(Target::new(src, dst));
    let acts = Actions::from_config(&cfg, &base, linux(), &cwd()).unwrap();
    let outcomes = acts.run(false).unwrap();
    assert!(outcomes.iter().all(|o| o.is_none()));
    let produced = fs_err::read_to_string(dir.path().join("greeting")).unwrap();
    assert_eq!(produced, "Hello world!");
}

#[test]
fn expanding_an_unreadable_source_reports_an_io_failure() {
    let mut b = ActionsBuilder::default();
    let missing = ResourceLocation::Path(AbsPathBuf::from_absolute(
        "/no/such/template/input".to_owned(),
    ).unwrap());
    let out = b.res.define_mem();
    b.template(Context::new(), missing, out);
    let outcomes = b.build().run(false).unwrap();
    assert!(matches!(outcomes[0], Some(Error::Io { .. })));
}

#[test]
fn expansion_of_an_unbound_variable_fails_that_action() {
    let dir = TempDir::new("expand-missing").unwrap();
    let src = write_file(&dir, "bad.in", "{{ absent }}");
    let dst = dir.path().join("bad").to_string_lossy().into_owned();
    let mut cfg = Root::default();
    cfg.targets.push(Target::new(src, dst));
    let acts = Actions::from_config(&cfg, &Context::new(), linux(), &cwd()).unwrap();
    let outcomes = acts.run(false).unwrap();
    assert!(matches!(outcomes[0], Some(Error::Template(_))));
}

#[test]
fn a_missing_source_aborts_graph_construction() {
    let mut cfg = Root::default();
    cfg.targets.push(Target::new("/does/not/exist/anywhere".to_owned(), "./dst".to_owned()));
    match Actions::from_config(&cfg, &Context::new(), linux(), &cwd()) {
        Err(Error::SourceDoesNotExist { path }) => {
            assert_eq!(path, "/does/not/exist/anywhere");
        }
        other => panic!("expected a missing-source error, got {:?}", other),
    }
}

#[test]
fn unsupported_platforms_are_rejected() {
    let cfg = Root::default();
    assert!(matches!(
        Actions::from_config(&cfg, &Context::new(), None, &cwd()),
        Err(Error::UnsupportedPlatform)
    ));
    let mut restricted = Root::default();
    restricted.shared.runs_on = Some(OneOrMany::One(Platform::MacOs));
    assert!(matches!(
        Actions::from_config(&restricted, &Context::new(), linux(), &cwd()),
        Err(Error::ConfigDoesNotSupportPlatform)
    ));
}

#[test]
fn dependents_follow_chains_through_shared_slots() {
    let dir = TempDir::new("chain").unwrap();
    let src = write_file(&dir, "chain.in", "{{ x }}");
    let dst = dir.path().join("chain").to_string_lossy().into_owned();
    let base = Context::new().with_define(Variable::single("x".to_owned()), "1".to_owned());
    let mut cfg = Root::default();
    cfg.targets.push(Target::new(src.clone(), dst));
    let acts = Actions::from_config(&cfg, &base, linux(), &cwd()).unwrap();
    assert_eq!(acts.acts.len(), 2);
    let root = ResourceLocation::Path(AbsPathBuf::new(&src, &cwd()));
    let deps = acts.dependents_of(vec![root]);
    // the expansion depends on the changed file, and the copy depends
    // on the expansion's output slot
    assert_eq!(deps.acts.len(), 2);
}

#[test]
fn append_concatenates_graphs() {
    let mut a = ActionsBuilder::default();
    let s1 = a.res.define_mem();
    let d1 = a.res.define_mem();
    a.copy(s1, d1);
    let mut left = a.build();
    let mut b = ActionsBuilder::default();
    let s2 = b.res.define_mem();
    let d2 = b.res.define_mem();
    b.copy(s2, d2);
    let mut right = b.build();
    left.append(&mut right);
    assert_eq!(left.acts.len(), 2);
    assert_eq!(right.acts.len(), 0);
    assert_eq!(left.resources.test_handles().len(), 4);
}

#[test]
fn store_contents_round_trip() {
    let mut store = ResourceStore::default();
    let loc = store.define(ResourceHandle::MemStr("first".to_owned()));
    assert_eq!(store.get_content(&loc).unwrap(), "first");
    store.set_content(&loc, ResourceHandle::MemStr("second".to_owned())).unwrap();
    assert_eq!(store.get_content(&loc).unwrap(), "second");
}

#[test]
fn distinct_slots_get_distinct_identifiers() {
    let mut store = ResourceStore::default();
    let a = store.define_mem();
    let b = store.define_mem();
    assert_ne!(a, b);
}

#[test]
fn watch_paths_observe_the_containing_directory() {
    let dir = TempDir::new("watching").unwrap();
    let file = write_file(&dir, "watched.txt", "w");
    let mut b = ActionsBuilder::default();
    let out = b.res.define_mem();
    b.copy(ResourceLocation::Path(AbsPathBuf::new(&file, &cwd())), out);
    let acts = b.build();
    let watched = acts.watch_paths();
    assert_eq!(watched.len(), 1);
    assert_eq!(watched[0], AbsPathBuf::new(&dir_string(&dir), &cwd()).as_str());
}

#[test]
fn file_roots_lists_path_dependencies() {
    let dir = TempDir::new("roots").unwrap();
    let file = write_file(&dir, "dep.txt", "d");
    let mut b = ActionsBuilder::default();
    let out = b.res.define_mem();
    b.copy(ResourceLocation::Path(AbsPathBuf::new(&file, &cwd())), out.clone());
    let other = b.res.define_mem();
    b.copy(out, other);
    let acts = b.build();
    let roots = acts.file_roots();
    assert_eq!(roots.len(), 1);
    assert_eq!(roots[0], AbsPathBuf::new(&file, &cwd()));
}

#[test]
fn watch_events_decide_what_to_rerun() {
    assert_eq!(watch_reaction(WatchEventKind::Modify, true), WatchReaction::RunDependents);
    assert_eq!(watch_reaction(WatchEventKind::Create, false), WatchReaction::RunAll);
    assert_eq!(watch_reaction(WatchEventKind::Any, false), WatchReaction::RunAll);
    assert_eq!(watch_reaction(WatchEventKind::Other, true), WatchReaction::Ignore);
}

#[test]
fn descriptions_are_human_readable() {
    assert_eq!(
        Error::NoActions.describe(),
        "No actions to perform, did you not define any targets in your config?"
    );
    let loc = ResourceLocation::InMemory { id: 42 };
    assert_eq!(loc.describe(), "@42");
    let act = Action::MkDir { path: AbsPathBuf::from_absolute("/a/b".to_owned()).unwrap() };
    assert_eq!(act.describe(), "mkdir /a/b");
    let link = Action::Link {
        ty: LinkType::Soft,
        from: AbsPathBuf::from_absolute("/x".to_owned()).unwrap(),
        to: AbsPathBuf::from_absolute("/y".to_owned()).unwrap(),
    };
    assert_eq!(link.describe(), "/x -> /y [soft]");
}

#[test]
fn context_for_expand_defines_the_matching_targets_variables() {
    let dir = TempDir::new("expand-ctx").unwrap();
    let src = write_file(&dir, "file.in", "{{ target.greeting }}");
    let mut cfg = Root::default();
    let mut tgt = Target::new(src.clone(), "./out".to_owned());
    tgt.shared.variables.push((
        "greeting".to_owned(),
        dotloy::template::Templated::new("hi".to_owned()),
    ));
    cfg.targets.push(tgt);
    let ctx = dotloy::actions::context_for_expand(&cfg, &Context::new(), &src).unwrap();
    assert_eq!(ctx.render("{{ target.greeting }}").unwrap(), "hi");
}
