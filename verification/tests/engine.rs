use outdated::component::{Component, Project, Repository};
use outdated::outdated::{find_outdated, is_outdated, latest_version, unknown_versions};
use outdated::store::Store;
use outdated::tags::{version_from_tag, versions_from_tags};
use outdated::version::Version;

fn version(text: &str) -> Version {
    Version::parse(text).unwrap()
}

fn component(id: i32, name: &str, pinned: &str) -> Component {
    Component {
        id,
        name: name.to_string(),
        current_version: version(pinned),
        repository: Repository::GitHub(format!("https://example.invalid/{}", name)),
    }
}

fn store_with(components: Vec<Component>, known: Vec<(i32, Version)>) -> Store {
    let ids: Vec<i32> = components.iter().map(|c| c.id).collect();
    let mut links = Vec::new();
    for id in ids {
        links.push((1, id));
    }
    Store {
        components,
        known,
        projects: vec![(1, "alpha".to_string())],
        project_components: links,
    }
}

fn tags(names: &[&str]) -> Vec<String> {
    names.iter().map(|n| n.to_string()).collect()
}

#[test]
fn tag_with_namespace_yields_version() {
    let v = version_from_tag("refs/tags/v2.0").unwrap();
    assert_eq!(v, version("2.0"));
    let v = version_from_tag("refs/tags/2.0").unwrap();
    assert_eq!(v, version("2.0"));
}

#[test]
fn peeled_tag_is_excluded_entirely() {
    assert!(version_from_tag("refs/tags/v2.0^{}").is_none());
    assert!(version_from_tag("refs/tags/2.0^{}").is_none());
}

#[test]
fn tag_outside_namespace_is_ignored() {
    assert!(version_from_tag("v2.0").is_none());
    assert!(version_from_tag("refs/heads/main").is_none());
}

#[test]
fn non_numeric_tag_is_ignored_without_error() {
    assert!(version_from_tag("refs/tags/latest").is_none());
    let vs = versions_from_tags(&tags(&["refs/tags/latest", "refs/tags/v1.1"]));
    assert_eq!(vs, vec![version("1.1")]);
}

#[test]
fn unknown_versions_is_the_set_difference() {
    let remote = vec![version("1.0"), version("1.1")];
    let known = vec![version("1.0")];
    assert_eq!(unknown_versions(&remote, &known), vec![version("1.1")]);
    assert_eq!(unknown_versions(&remote, &vec![]), remote);
}

#[test]
fn latest_version_is_the_maximum() {
    let vs = vec![version("1.0"), version("2.0"), version("1.9.9")];
    assert_eq!(latest_version(&vs).unwrap(), version("2.0"));
    assert!(latest_version(&vec![]).is_none());
    // a shorter sequence is less than a longer one sharing its prefix
    let vs = vec![version("1.0"), version("1")];
    assert_eq!(latest_version(&vs).unwrap(), version("1.0"));
}

#[test]
fn first_run_records_and_reports() {
    let mut store = store_with(vec![component(7, "widget", "1.0")], vec![]);
    let fetched: Vec<Result<Vec<String>, String>> =
        vec![Ok(tags(&["refs/tags/v1.0", "refs/tags/v1.1"]))];
    let (reports, errors) = find_outdated(&mut store, fetched);
    assert!(errors.is_empty());
    assert_eq!(reports.len(), 1);
    assert_eq!(reports[0].name, "widget");
    assert_eq!(reports[0].current_version, version("1.0"));
    assert_eq!(reports[0].latest_version, version("1.1"));
    assert_eq!(reports[0].projects.len(), 1);
    assert_eq!(reports[0].projects[0].name, "alpha");
    // the ledger now knows both versions, not just the reported one
    let known = store.known_versions(&store.components[0]);
    assert_eq!(known, vec![version("1.0"), version("1.1")]);
}

#[test]
fn second_run_with_known_versions_reports_nothing() {
    let mut store = store_with(
        vec![component(7, "widget", "1.0")],
        vec![(7, version("1.0")), (7, version("1.1"))],
    );
    let fetched: Vec<Result<Vec<String>, String>> =
        vec![Ok(tags(&["refs/tags/v1.0", "refs/tags/v1.1"]))];
    let (reports, errors) = find_outdated(&mut store, fetched);
    // 1.1 still exceeds the pinned 1.0, but it is no longer newly seen
    assert!(reports.is_empty());
    assert!(errors.is_empty());
    let known = store.known_versions(&store.components[0]);
    assert_eq!(known, vec![version("1.0"), version("1.1")]);
}

#[test]
fn peeled_tags_do_not_create_reports() {
    let mut store = store_with(vec![component(3, "gadget", "1.0")], vec![]);
    let fetched: Vec<Result<Vec<String>, String>> = vec![Ok(tags(&["refs/tags/v2.0^{}"]))];
    let (reports, errors) = find_outdated(&mut store, fetched);
    assert!(reports.is_empty());
    assert!(errors.is_empty());
    assert!(store.known_versions(&store.components[0]).is_empty());
}

#[test]
fn source_failure_is_confined_to_its_component() {
    let mut store = store_with(
        vec![component(1, "broken", "1.0"), component(2, "fresh", "1.0")],
        vec![],
    );
    let fetched: Vec<Result<Vec<String>, String>> = vec![
        Err("remote unreachable".to_string()),
        Ok(tags(&["refs/tags/v1.5"])),
    ];
    let (reports, errors) = find_outdated(&mut store, fetched);
    assert_eq!(errors, vec!["remote unreachable".to_string()]);
    assert_eq!(reports.len(), 1);
    assert_eq!(reports[0].name, "fresh");
    assert_eq!(reports[0].latest_version, version("1.5"));
    // the failed component's ledger is untouched
    assert!(store.known_versions(&store.components[0]).is_empty());
}

#[test]
fn no_report_when_remote_does_not_exceed_pin() {
    let mut store = store_with(vec![component(4, "stable", "2.0")], vec![]);
    let fetched: Vec<Result<Vec<String>, String>> =
        vec![Ok(tags(&["refs/tags/v1.0", "refs/tags/v2.0"]))];
    let (reports, errors) = find_outdated(&mut store, fetched);
    assert!(reports.is_empty());
    assert!(errors.is_empty());
    // the newly seen versions are still recorded
    let known = store.known_versions(&store.components[0]);
    assert_eq!(known, vec![version("1.0"), version("2.0")]);
}

#[test]
fn is_outdated_hands_back_the_fetch_error() {
    let mut store = store_with(vec![component(9, "solo", "1.0")], vec![]);
    let c = store.components[0].clone();
    let r: Result<_, String> = is_outdated(&mut store, &c, Err("boom".to_string()));
    assert_eq!(r.unwrap_err(), "boom");
}

#[test]
fn duplicate_records_do_not_corrupt_the_ledger() {
    let mut store = store_with(vec![component(5, "dup", "1.0")], vec![]);
    let c = store.components[0].clone();
    store.add_known_version(&c, &version("1.1"));
    store.add_known_version(&c, &version("1.1"));
    assert_eq!(store.known_versions(&c), vec![version("1.1")]);
}

#[test]
fn projects_with_follows_ownership_links() {
    let store = Store {
        components: vec![component(1, "widget", "1.0")],
        known: vec![],
        projects: vec![
            (10, "alpha".to_string()),
            (11, "beta".to_string()),
            (12, "gamma".to_string()),
        ],
        project_components: vec![(10, 1), (12, 1), (11, 99)],
    };
    let owners = store.projects_with(1);
    let names: Vec<String> = owners.into_iter().map(|p| p.name).collect();
    assert_eq!(names, vec!["alpha".to_string(), "gamma".to_string()]);
}

#[test]
fn remote_duplicates_collapse_on_the_ledger() {
    // the same version seen under two tag spellings is recorded once
    let mut store = store_with(vec![component(6, "twin", "0.9")], vec![]);
    let fetched: Vec<Result<Vec<String>, String>> =
        vec![Ok(tags(&["refs/tags/v1.0", "refs/tags/1.0"]))];
    let (reports, _) = find_outdated(&mut store, fetched);
    assert_eq!(reports.len(), 1);
    assert_eq!(store.known_versions(&store.components[0]), vec![version("1.0")]);
}
