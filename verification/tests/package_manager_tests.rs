use relvar::package_manager::{Dependency, Installed, RelationalPackageManager};

fn inst(p: &str, v: &str) -> Installed {
    Installed { package: p.to_string(), version: v.to_string() }
}

fn dep(p: &str, d: &str, v: &str) -> Dependency {
    Dependency { package: p.to_string(), dependency: d.to_string(), required_version: v.to_string() }
}

#[test]
fn test_find_unmet_dependencies() {
    let mut pm = RelationalPackageManager::new();
    pm.installed.push(inst("A", "1.0"));
    pm.installed.push(inst("B", "2.0"));
    pm.dependencies.push(dep("A", "C", "1.0"));
    pm.dependencies.push(dep("B", "D", "2.0"));
    let unmet = pm.find_unmet_dependencies();
    assert_eq!(unmet.len(), 2);
    let mut deps: Vec<String> = unmet.iter().map(|u| u.dependency.clone()).collect();
    deps.sort();
    assert_eq!(deps, vec!["C", "D"]);
}

#[test]
fn test_find_orphans() {
    let mut pm = RelationalPackageManager::new();
    pm.installed.push(inst("App", "1.0"));
    pm.installed.push(inst("Lib", "1.0"));
    pm.installed.push(inst("Orphan", "1.0"));
    pm.explicitly_installed.push("App".to_string());
    pm.dependencies.push(dep("App", "Lib", "1.0"));
    let orphans = pm.find_orphans();
    assert_eq!(orphans.len(), 1);
    assert_eq!(orphans[0], "Orphan");
}

#[test]
fn test_find_conflicts() {
    let mut pm = RelationalPackageManager::new();
    pm.installed.push(inst("App1", "1.0"));
    pm.installed.push(inst("App2", "1.0"));
    pm.dependencies.push(dep("App1", "Lib", "1.0"));
    pm.dependencies.push(dep("App2", "Lib", "2.0"));
    let conflicts = pm.find_conflicts();
    assert_eq!(conflicts.len(), 1);
    assert_eq!(conflicts[0], "Lib");
}

#[test]
fn dependencies_of_uninstalled_packages_do_not_count() {
    let mut pm = RelationalPackageManager::default();
    pm.installed.push(inst("A", "1"));
    pm.installed.push(inst("C", "1"));
    pm.dependencies.push(dep("Z", "C", "1"));
    pm.dependencies.push(dep("Z", "C", "2"));
    pm.dependencies.push(dep("A", "C", "1"));
    assert!(pm.find_unmet_dependencies().is_empty());
    assert!(pm.find_conflicts().is_empty());
    let mut orphans = pm.find_orphans();
    orphans.sort();
    assert_eq!(orphans, vec!["A"]);
}
