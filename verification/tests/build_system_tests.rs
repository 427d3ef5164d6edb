use relvar::build_system::{BuildSystem, FileStamp};

fn stamp(file: &str, t: i64) -> FileStamp {
    FileStamp { file: file.to_string(), modified_at: t }
}

fn dep(target: &str, source: &str) -> (String, String) {
    (target.to_string(), source.to_string())
}

#[test]
fn test_build_system_stale_direct_dependency() {
    let deps = vec![dep("main.o", "main.c")];
    let files = vec![stamp("main.c", 100), stamp("main.o", 50)];
    let build_sys = BuildSystem::new(files, deps);
    let stale = build_sys.compute_stale_targets();
    assert_eq!(stale.len(), 1);
    assert!(stale.iter().any(|t| t == "main.o"), "main.o should be stale");
}

#[test]
fn test_build_system_up_to_date() {
    let deps = vec![dep("main.o", "main.c")];
    let files = vec![stamp("main.c", 50), stamp("main.o", 100)];
    let build_sys = BuildSystem::new(files, deps);
    let stale = build_sys.compute_stale_targets();
    assert_eq!(stale.len(), 0);
}

#[test]
fn test_build_system_transitive_dependency() {
    let deps = vec![dep("app", "main.o"), dep("main.o", "main.c"), dep("main.c", "utils.h")];
    let files = vec![stamp("utils.h", 200), stamp("main.c", 50), stamp("main.o", 60), stamp("app", 70)];
    let build_sys = BuildSystem::new(files, deps);
    let stale = build_sys.compute_stale_targets();
    assert_eq!(stale.len(), 3);
    let mut stale_list = stale.clone();
    stale_list.sort();
    assert_eq!(stale_list, vec!["app", "main.c", "main.o"]);
}

#[test]
fn equal_times_are_not_stale() {
    let deps = vec![dep("a", "b")];
    let files = vec![stamp("a", 5), stamp("b", 5)];
    assert!(BuildSystem::new(files, deps).compute_stale_targets().is_empty());
}
