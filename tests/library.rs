use speedupdate::builder::{task_list, FileEntry, Task};
use speedupdate::commands::{
    available_packages, description_source, log_target, parse_count, ArgumentError,
    DescriptionSource, LogTarget,
};
use speedupdate::codec::{decode, encode_best, hash_bytes, Codec, CodecError, CoderOptions};
use speedupdate::integrity::{declared_files, verify_content};
use speedupdate::layout::{assign_ranges, check_layout, LayoutError};
use speedupdate::metadata::{ByteRange, Operation, PackageMetadata, Version};
use speedupdate::name::{str_is_clean, CleanName};
use speedupdate::package::{assemble, BuildError};
use speedupdate::planner::{plan, PlanError};
use speedupdate::progress::{
    plan_totals, Axis, BuildProgress, BuildStage, Histogram, SharedBuildProgress, UpdateTotals,
};
use speedupdate::repository::{log_range, RepositoryError, RepositoryIndex};
use speedupdate::workspace::{remote_status, RemoteStatus, State, TransitionError, UpdatingState};

fn name(s: &str) -> CleanName {
    CleanName::new(s.to_string()).unwrap()
}

fn hex(b: &[u8]) -> String {
    b.iter().map(|x| format!("{:02x}", x)).collect()
}

fn file(path: &str, content: &[u8]) -> FileEntry {
    FileEntry {
        path: path.to_string(),
        is_dir: false,
        mode: 0o644,
        size: content.len() as u64,
        hash: hash_bytes(content),
    }
}

fn dir(path: &str) -> FileEntry {
    FileEntry { path: path.to_string(), is_dir: true, mode: 0o755, size: 0, hash: Vec::new() }
}

fn raw() -> Vec<CoderOptions> {
    vec![CoderOptions::parse("raw").unwrap()]
}

fn package(data_name: &str, from: Option<&str>, to: &str, size: u64) -> PackageMetadata {
    PackageMetadata {
        package_data_name: name(data_name),
        from: from.map(name),
        to: name(to),
        size,
        operations: Vec::new(),
        hash: Vec::new(),
    }
}

fn version(r: &str) -> Version {
    Version { revision: name(r), description: String::new() }
}

const HI_SHA256: &str = "98ea6e4f216f2fb4b69fff9b3a44842c38686ca685f3f55dc48c5d3fb1107be4";

#[test]
fn clean_names() {
    assert!(CleanName::new("1.0".to_string()).is_ok());
    assert!(CleanName::new("A-z_0.9".to_string()).is_ok());
    assert_eq!(CleanName::new("".to_string()).unwrap_err().value, "");
    assert!(CleanName::new("a b".to_string()).is_err());
    assert!(CleanName::new("a/b".to_string()).is_err());
    assert!(CleanName::new("é".to_string()).is_err());
    assert!(str_is_clean("patch_1.0_1.1"));
    assert_eq!(name("x").as_str(), "x");
}

#[test]
fn package_names() {
    let a = name("1.0");
    let b = name("1.1");
    assert_eq!(CleanName::package_name(Some(&a), &b).as_str(), "patch_1.0_1.1");
    assert_eq!(CleanName::package_name(None, &b).as_str(), "complete_1.1");
}

#[test]
fn hash_of_hi() {
    assert_eq!(hex(&hash_bytes(b"hi\n")), HI_SHA256);
}

/// A fresh repository, version 1.0 and a complete package holding
/// `hello.txt` = "hi\n"; a fresh workspace updates to it.
#[test]
fn publish_complete_package_and_update() {
    let mut repo = RepositoryIndex::new();
    assert!(repo.register_version(version("1.0")).is_ok());
    let src = vec![file("hello.txt", b"hi\n")];
    let tasks = task_list(&src, &Vec::new());
    let contents = vec![b"hi\n".to_vec()];
    let (meta, data) = assemble(&tasks, &contents, &raw(), None, &name("1.0")).unwrap();
    assert_eq!(meta.package_data_name.as_str(), "complete_1.0");
    assert!(meta.from.is_none());
    assert_eq!(meta.to.as_str(), "1.0");
    assert_eq!(meta.operations.len(), 1);
    match &meta.operations[0] {
        Operation::Add { path, final_hash, final_size, data_range, data_codec, .. } => {
            assert_eq!(path, "hello.txt");
            assert_eq!(hex(final_hash), HI_SHA256);
            assert_eq!(*final_size, 3);
            assert_eq!(*data_range, ByteRange { start: 0, end: 3 });
            assert_eq!(data_codec, "raw");
        }
        other => panic!("unexpected operation {:?}", other),
    }
    assert_eq!(meta.size, 3);
    assert_eq!(data, b"hi\n".to_vec());
    assert_eq!(hex(&meta.hash), HI_SHA256);
    assert!(repo.register_package(meta).is_ok());
    assert_eq!(repo.packages.len(), 1);
    assert!(repo.set_current_version(&name("1.0")).is_ok());
    assert_eq!(repo.current_version().unwrap().version.as_str(), "1.0");

    let goal = name("1.0");
    let p = plan(&repo.packages, &None, &goal).unwrap();
    assert_eq!(p, vec![0]);
    let state = State::New.start_update(name("1.0"), vec![name("complete_1.0")], false).unwrap();
    let op = &repo.packages[0].operations[0];
    let bytes = decode(Codec::Raw, &data[0..3].to_vec()).unwrap();
    assert_eq!(bytes, b"hi\n".to_vec());
    assert!(verify_content(op, &bytes).is_ok());
    let mut u = match state {
        State::Updating(u) => u,
        other => panic!("unexpected state {:?}", other),
    };
    assert!(u.complete_package(&name("complete_1.0")).is_ok());
    match State::Updating(u).finish_update(Vec::new()).unwrap() {
        State::Stable { version } => assert_eq!(version.as_str(), "1.0"),
        other => panic!("unexpected state {:?}", other),
    }
}

/// Version 1.1 changes `hello.txt` to "HI!\n": a patch package from 1.0.
#[test]
fn publish_patch_package() {
    let mut repo = RepositoryIndex::new();
    repo.register_version(version("1.0")).unwrap();
    repo.register_version(version("1.1")).unwrap();
    let prev = vec![file("hello.txt", b"hi\n")];
    let src = vec![file("hello.txt", b"HI!\n")];
    let tasks = task_list(&src, &prev);
    assert_eq!(tasks.len(), 1);
    match &tasks[0] {
        Task::Patch { local_size, local_hash, size, .. } => {
            assert_eq!(*local_size, 3);
            assert_eq!(hex(local_hash), HI_SHA256);
            assert_eq!(*size, 4);
        }
        other => panic!("unexpected task {:?}", other),
    }
    let contents = vec![b"HI!\n".to_vec()];
    let from = name("1.0");
    let (meta, _) = assemble(&tasks, &contents, &raw(), Some(&from), &name("1.1")).unwrap();
    assert_eq!(meta.package_data_name.as_str(), "patch_1.0_1.1");
    assert_eq!(meta.from.as_ref().unwrap().as_str(), "1.0");
    assert!(repo.register_package(meta).is_ok());
}

/// A corrupted byte of `hello.txt` in a workspace at 1.1 makes a check
/// report it; an update with a check heals it.
#[test]
fn check_then_heal() {
    let op = Operation::Check {
        path: "hello.txt".to_string(),
        final_hash: hash_bytes(b"HI!\n"),
        final_size: 4,
        mode: 0o644,
    };
    let corrupted = b"HX!\n".to_vec();
    let err = verify_content(&op, &corrupted).unwrap_err();
    assert_eq!(err.path, "hello.txt");
    let state = State::Stable { version: name("1.1") };
    let state = state.after_check(vec![err.path.clone()]).unwrap();
    match &state {
        State::Corrupted { version, failures } => {
            assert_eq!(version.as_str(), "1.1");
            assert_eq!(failures, &vec!["hello.txt".to_string()]);
        }
        other => panic!("unexpected state {:?}", other),
    }
    assert!(state.needs_update(&name("1.1"), false));
    assert_eq!(
        state.clone().start_update(name("1.1"), vec![name("complete_1.1")], false).unwrap_err(),
        TransitionError::NeedsCheck
    );
    let updating = state.start_update(name("1.1"), vec![name("complete_1.1")], true).unwrap();
    let mut u = match updating {
        State::Updating(u) => u,
        other => panic!("unexpected state {:?}", other),
    };
    assert_eq!(u.from.as_ref().unwrap().as_str(), "1.1");
    assert!(verify_content(&op, &b"HI!\n".to_vec()).is_ok());
    u.complete_package(&name("complete_1.1")).unwrap();
    match State::Updating(u).finish_update(Vec::new()).unwrap() {
        State::Stable { version } => assert_eq!(version.as_str(), "1.1"),
        other => panic!("unexpected state {:?}", other),
    }
}

/// An update interrupted after one of its packages resumes with the next.
#[test]
fn resume_after_interruption() {
    let plan_names: Vec<CleanName> =
        ["first", "second", "third", "fourth", "fifth"].iter().map(|s| name(s)).collect();
    let mut u = UpdatingState {
        from: None,
        to: name("5"),
        available: plan_names.clone(),
        completed: Vec::new(),
        failures: Vec::new(),
    };
    u.complete_package(&name("first")).unwrap();
    // the process stops here; the persisted state is reopened
    let resumed = State::Updating(u).start_update(name("5"), Vec::new(), false).unwrap();
    let mut u = match resumed {
        State::Updating(u) => u,
        other => panic!("unexpected state {:?}", other),
    };
    assert_eq!(u.next_package().unwrap().as_str(), "second");
    assert_eq!(u.complete_package(&name("third")).unwrap_err(), TransitionError::UnexpectedPackage);
    for n in ["second", "third", "fourth", "fifth"] {
        u.complete_package(&name(n)).unwrap();
    }
    assert!(u.is_done());
    let done: Vec<&str> = u.completed.iter().map(|n| n.as_str()).collect();
    assert_eq!(done, vec!["first", "second", "third", "fourth", "fifth"]);
}

/// Complete packages for 1.0 and 2.0 and a patch 1.0 -> 2.0: from 1.0 the
/// planner takes the patch.
#[test]
fn planner_prefers_patch() {
    let ps = vec![
        package("complete_1.0", None, "1.0", 100),
        package("complete_2.0", None, "2.0", 120),
        package("patch_1.0_2.0", Some("1.0"), "2.0", 10),
    ];
    assert_eq!(plan(&ps, &Some(name("1.0")), &name("2.0")).unwrap(), vec![2]);
    assert_eq!(plan(&ps, &None, &name("2.0")).unwrap(), vec![1]);
    assert_eq!(plan(&ps, &Some(name("2.0")), &name("2.0")).unwrap(), Vec::<usize>::new());
    assert_eq!(plan(&ps, &Some(name("2.0")), &name("1.0")).unwrap_err(), PlanError::NoAvailablePath);
}

#[test]
fn planner_fewest_packages_then_fewest_bytes() {
    let ps = vec![
        package("complete_1", None, "1", 50),
        package("patch_1_2", Some("1"), "2", 5),
        package("patch_2_3", Some("2"), "3", 5),
        package("patch_1_3", Some("1"), "3", 500),
        package("patch_1_3b", Some("1"), "3", 400),
    ];
    assert_eq!(plan(&ps, &Some(name("1")), &name("3")).unwrap(), vec![4]);
    assert_eq!(plan(&ps, &None, &name("3")).unwrap(), vec![0, 4]);
    assert_eq!(plan(&Vec::new(), &None, &name("3")).unwrap_err(), PlanError::NoAvailablePath);
}

#[test]
fn planner_with_cycle() {
    let ps = vec![
        package("patch_1_2", Some("1"), "2", 1),
        package("patch_2_1", Some("2"), "1", 1),
    ];
    assert_eq!(plan(&ps, &Some(name("1")), &name("3")).unwrap_err(), PlanError::NoAvailablePath);
    assert_eq!(plan(&ps, &Some(name("2")), &name("2")).unwrap(), Vec::<usize>::new());
    assert_eq!(plan(&ps, &Some(name("1")), &name("2")).unwrap(), vec![0]);
}

#[test]
fn unregister_version_rules() {
    let mut repo = RepositoryIndex::new();
    repo.register_version(version("1.0")).unwrap();
    repo.register_version(version("2.0")).unwrap();
    repo.register_version(version("3.0")).unwrap();
    assert_eq!(repo.register_version(version("1.0")), Err(RepositoryError::AlreadyExists));
    repo.register_package(package("patch_1.0_2.0", Some("1.0"), "2.0", 1)).unwrap();
    assert_eq!(
        repo.register_package(package("patch_1.0_2.0", Some("1.0"), "2.0", 1)),
        Err(RepositoryError::AlreadyExists)
    );
    assert_eq!(
        repo.register_package(package("complete_9", None, "9", 1)),
        Err(RepositoryError::NotFound)
    );
    repo.set_current_version(&name("3.0")).unwrap();
    assert_eq!(repo.set_current_version(&name("4.0")), Err(RepositoryError::NotFound));
    assert_eq!(repo.unregister_version(&name("1.0")), Err(RepositoryError::InUse));
    assert_eq!(repo.unregister_version(&name("2.0")), Err(RepositoryError::InUse));
    assert_eq!(repo.unregister_version(&name("3.0")), Err(RepositoryError::InUse));
    assert_eq!(repo.unregister_version(&name("4.0")), Err(RepositoryError::NotFound));
    repo.unregister_package(&name("patch_1.0_2.0")).unwrap();
    assert_eq!(repo.unregister_package(&name("patch_1.0_2.0")), Err(RepositoryError::NotFound));
    assert!(repo.unregister_version(&name("1.0")).is_ok());
    assert_eq!(repo.versions.len(), 2);
    assert_eq!(repo.versions[0].revision.as_str(), "2.0");
}

#[test]
fn total_size_of_packages() {
    let mut repo = RepositoryIndex::new();
    repo.register_version(version("1")).unwrap();
    repo.register_package(package("complete_1", None, "1", u64::MAX)).unwrap();
    repo.register_package(package("complete_1b", None, "1", 2)).unwrap();
    assert_eq!(repo.total_size(), u64::MAX as u128 + 2);
    assert_eq!(RepositoryIndex::new().current_version().unwrap_err(), RepositoryError::NotFound);
}

#[test]
fn version_log() {
    let vs = vec![version("1"), version("2"), version("3"), version("4")];
    assert_eq!(log_range(&vs, None, "2"), Ok((0, 2)));
    assert_eq!(log_range(&vs, Some("2"), "3"), Ok((1, 3)));
    assert_eq!(log_range(&vs, Some("3"), "9"), Ok((2, 4)));
    assert_eq!(log_range(&vs, Some("3"), "1"), Ok((2, 4)));
    assert_eq!(log_range(&vs, Some("7"), "1"), Err(RepositoryError::NotFound));
}

fn add_op(path: &str) -> Operation {
    Operation::Add {
        path: path.to_string(),
        mode: 0,
        final_size: 0,
        final_hash: Vec::new(),
        data_range: ByteRange { start: 0, end: 0 },
        data_codec: "raw".to_string(),
    }
}

#[test]
fn ranges_tile_the_stream() {
    let ops = vec![add_op("a"), Operation::MkDir { path: "d".to_string() }, add_op("b")];
    let (placed, total) = assign_ranges(ops, &vec![5, 99, 7]).unwrap();
    assert_eq!(total, 12);
    assert!(check_layout(&placed, 12));
    assert!(!check_layout(&placed, 13));
    match &placed[2] {
        Operation::Add { data_range, .. } => assert_eq!(*data_range, ByteRange { start: 5, end: 12 }),
        other => panic!("unexpected operation {:?}", other),
    }
    assert_eq!(assign_ranges(vec![add_op("a")], &vec![]).unwrap_err(), LayoutError::LengthMismatch);
    assert_eq!(
        assign_ranges(vec![add_op("a"), add_op("b")], &vec![u64::MAX, 1]).unwrap_err(),
        LayoutError::TooLarge
    );
    let gap = vec![
        Operation::Add {
            path: "a".to_string(),
            mode: 0,
            final_size: 0,
            final_hash: Vec::new(),
            data_range: ByteRange { start: 1, end: 3 },
            data_codec: "raw".to_string(),
        },
    ];
    assert!(!check_layout(&gap, 3));
}

#[test]
fn coder_options() {
    let o = CoderOptions::parse("brotli:6").unwrap();
    assert_eq!((o.codec, o.level, o.minsize), (Codec::Brotli, 6, 0));
    let o = CoderOptions::parse("zstd:level=3;minsize=32MB").unwrap();
    assert_eq!((o.codec, o.level, o.minsize), (Codec::Zstd, 3, 32_000_000));
    let o = CoderOptions::parse("xz").unwrap();
    assert_eq!((o.codec, o.level), (Codec::Xz, 6));
    assert_eq!(CoderOptions::parse("gzip").unwrap_err(), CodecError::UnknownCodec);
    assert_eq!(CoderOptions::parse("brotli:12").unwrap_err(), CodecError::InvalidLevel);
    assert_eq!(CoderOptions::parse("zstd:0").unwrap_err(), CodecError::InvalidLevel);
    assert_eq!(CoderOptions::parse("brotli:speed=1").unwrap_err(), CodecError::UnknownOption);
    assert_eq!(CoderOptions::parse("zstd:minsize=lots").unwrap_err(), CodecError::InvalidSize);
    assert_eq!(CoderOptions::parse("a:b:c").unwrap_err(), CodecError::UnknownCodec);
}

#[test]
fn shortest_encoding_wins() {
    let data = vec![b'a'; 4096];
    let cands = vec![CoderOptions::parse("brotli:9").unwrap()];
    let enc = encode_best(&data, &cands);
    assert_eq!(enc.codec, Codec::Brotli);
    assert!(enc.bytes.len() < 100);
    assert_eq!(decode(Codec::Brotli, &enc.bytes).unwrap(), data);
    assert!(decode(Codec::Brotli, &vec![1, 2, 3]).is_none());
    let big_min = vec![CoderOptions::parse("brotli:9;minsize=1MB").unwrap()];
    assert_eq!(encode_best(&data, &big_min).codec, Codec::Raw);
    let tiny = b"x".to_vec();
    assert_eq!(encode_best(&tiny, &cands).bytes, tiny);
}

#[test]
fn task_list_decisions() {
    let prev = vec![dir("d"), file("d/same", b"1"), file("d/changed", b"2"), file("gone", b"3"), dir("old")];
    let src = vec![dir("d"), file("d/same", b"1"), file("d/changed", b"22"), file("new", b"4")];
    let tasks = task_list(&src, &prev);
    let kinds: Vec<String> = tasks
        .iter()
        .map(|t| match t {
            Task::MkDir { path } => format!("mkdir {}", path),
            Task::RmDir { path } => format!("rmdir {}", path),
            Task::Add { path, .. } => format!("add {}", path),
            Task::Patch { path, .. } => format!("patch {}", path),
            Task::Check { path, .. } => format!("check {}", path),
            Task::Rm { path } => format!("rm {}", path),
        })
        .collect();
    assert_eq!(
        kinds,
        vec!["mkdir d", "check d/same", "patch d/changed", "add new", "rmdir old", "rm gone"]
    );
}

#[test]
fn assembly_concatenates_in_order() {
    let src = vec![dir("d"), file("d/a", b"aaaa"), file("d/b", b"bb")];
    let tasks = task_list(&src, &Vec::new());
    let contents = vec![Vec::new(), b"aaaa".to_vec(), b"bb".to_vec()];
    let (meta, data) = assemble(&tasks, &contents, &raw(), None, &name("2")).unwrap();
    assert_eq!(data, b"aaaabb".to_vec());
    assert_eq!(meta.size, 6);
    assert!(check_layout(&meta.operations, meta.size));
    assert_eq!(hex(&meta.hash), hex(&hash_bytes(b"aaaabb")));
    assert_eq!(
        assemble(&tasks, &Vec::new(), &raw(), None, &name("2")).unwrap_err(),
        BuildError::LengthMismatch
    );
    let again = assemble(&tasks, &contents, &raw(), None, &name("2")).unwrap();
    assert_eq!(again.1, data);
}

#[test]
fn histogram_never_decreases() {
    let mut h = Histogram::new();
    h.record(Axis::Downloaded, 10);
    let first = h.progress();
    h.record(Axis::AppliedInput, 5);
    h.record(Axis::Downloaded, u64::MAX);
    let second = h.progress();
    assert!(second.downloaded_bytes >= first.downloaded_bytes);
    assert_eq!(second.downloaded_bytes, u64::MAX);
    assert_eq!(second.applied_input_bytes, 5);
    assert_eq!(second.checked_bytes, 0);
}

#[test]
fn build_progress() {
    let mut p = BuildProgress::new(2);
    assert_eq!(p.workers.len(), 2);
    p.set_stage(BuildStage::BuildingOperations);
    p.start_stage_work(100);
    p.start_task(1, "big.bin".to_string(), 60);
    p.advance(1, 50);
    p.advance(1, 50);
    assert_eq!(p.workers[1].processed_bytes, 60);
    assert_eq!(p.workers[1].task_name, "big.bin");
    assert_eq!(p.processed_bytes, 100);
    let shared = SharedBuildProgress::new(p);
    let copy = shared.clone();
    copy.lock().stage = BuildStage::BuildingPackage;
    assert_eq!(shared.lock().stage, BuildStage::BuildingPackage);
}

#[test]
fn remote_status_of_stable() {
    let v = name("1.0");
    assert_eq!(remote_status(&v, Some(&name("1.0"))), RemoteStatus::UpToDate);
    assert_eq!(remote_status(&v, Some(&name("2.0"))), RemoteStatus::Outdated);
    assert_eq!(remote_status(&v, None), RemoteStatus::Unknown);
    assert!(!State::Stable { version: name("1.0") }.needs_update(&name("1.0"), false));
    assert!(State::Stable { version: name("1.0") }.needs_update(&name("1.0"), true));
    assert_eq!(State::New.after_check(Vec::new()).unwrap_err(), TransitionError::WrongState);
}

#[test]
fn worker_counts() {
    assert_eq!(parse_count("4"), Some(4));
    assert_eq!(parse_count("012"), Some(12));
    assert_eq!(parse_count("0"), None);
    assert_eq!(parse_count(""), None);
    assert_eq!(parse_count("x1"), None);
    assert_eq!(parse_count("99999999999999999999999999"), None);
}

#[test]
fn description_sources() {
    assert_eq!(description_source(None, None), Ok(DescriptionSource::Empty));
    assert_eq!(
        description_source(Some("fix".to_string()), None),
        Ok(DescriptionSource::Text("fix".to_string()))
    );
    assert_eq!(description_source(None, Some("-".to_string())), Ok(DescriptionSource::Stdin));
    assert_eq!(
        description_source(None, Some("notes.txt".to_string())),
        Ok(DescriptionSource::File("notes.txt".to_string()))
    );
    assert_eq!(
        description_source(Some("a".to_string()), Some("b".to_string())),
        Err(ArgumentError::ConflictingDescriptions)
    );
}

#[test]
fn unregistered_metadata_files() {
    let files = vec![
        "complete_1.metadata".to_string(),
        "complete_1".to_string(),
        "patch_1_2.metadata".to_string(),
        ".metadata".to_string(),
    ];
    let registered = vec![package("complete_1", None, "1", 1)];
    assert_eq!(available_packages(&files, &registered), vec!["patch_1_2.metadata".to_string()]);
    assert_eq!(available_packages(&files, &Vec::new()).len(), 2);
}

#[test]
fn workspace_log_target() {
    let stable = State::Stable { version: name("1.0") };
    assert_eq!(log_target(&stable, Some("2".to_string()), true), LogTarget::Given("2".to_string()));
    assert_eq!(log_target(&stable, None, true), LogTarget::Latest);
    assert_eq!(log_target(&stable, None, false), LogTarget::Workspace(name("1.0")));
    assert_eq!(log_target(&State::New, None, false), LogTarget::Latest);
}

#[test]
fn update_totals() {
    let src = vec![dir("d"), file("d/a", b"aaaa"), file("d/b", b"bb")];
    let tasks = task_list(&src, &Vec::new());
    let contents = vec![Vec::new(), b"aaaa".to_vec(), b"bb".to_vec()];
    let (first, _) = assemble(&tasks, &contents, &raw(), None, &name("1")).unwrap();
    let prev = vec![dir("d"), file("d/a", b"aaaa"), file("d/b", b"bb")];
    let src2 = vec![dir("d"), file("d/a", b"aaaa"), file("d/b", b"ccc")];
    let tasks2 = task_list(&src2, &prev);
    let contents2 = vec![Vec::new(), b"aaaa".to_vec(), b"ccc".to_vec()];
    let (second, _) = assemble(&tasks2, &contents2, &raw(), Some(&name("1")), &name("2")).unwrap();
    let ps = vec![first, second];
    let totals = plan_totals(&ps, &vec![0, 1]);
    assert_eq!(
        totals,
        UpdateTotals { download_bytes: 9, apply_input_bytes: 9, apply_output_bytes: 9, check_bytes: 4 }
    );
    assert_eq!(plan_totals(&ps, &Vec::new()).download_bytes, 0);
}

#[test]
fn declared_files_of_a_chain() {
    let v1 = vec![file("a", b"1"), file("b", b"2"), file("c", b"3")];
    let t1 = task_list(&v1, &Vec::new());
    let c1 = vec![b"1".to_vec(), b"2".to_vec(), b"3".to_vec()];
    let (one, _) = assemble(&t1, &c1, &raw(), None, &name("1")).unwrap();
    let v2 = vec![file("a", b"1"), file("b", b"22")];
    let t2 = task_list(&v2, &v1);
    let c2 = vec![b"1".to_vec(), b"22".to_vec(), Vec::new()];
    let (two, _) = assemble(&t2, &c2, &raw(), Some(&name("1")), &name("2")).unwrap();
    let ps = vec![one, two];
    let files = declared_files(&ps, &vec![0, 1]);
    assert_eq!(files, vec![(1, 0), (1, 1)]);
    assert_eq!(declared_files(&ps, &vec![0]), vec![(0, 0), (0, 1), (0, 2)]);
}
