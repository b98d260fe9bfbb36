use outdated::component::Project;
use outdated::outdated::OutdatedComponent;
use outdated::version::Version;

fn report(projects: Vec<&str>) -> OutdatedComponent {
    OutdatedComponent {
        name: "widget".to_string(),
        latest_version: Version::parse("1.1").unwrap(),
        current_version: Version::parse("1.0").unwrap(),
        projects: projects
            .into_iter()
            .map(|name| Project { name: name.to_string() })
            .collect(),
    }
}

#[test]
fn subject_names_component_and_latest_version() {
    assert_eq!(report(vec!["alpha"]).subject(), "package: widget 1.1 is released!");
}

#[test]
fn body_with_one_project_names_it_directly() {
    assert_eq!(
        report(vec!["alpha"]).body_text().unwrap(),
        "project alpha contains 1.0, but 1.1 has just been released."
    );
}

#[test]
fn body_with_two_projects_joins_them_with_and() {
    assert_eq!(
        report(vec!["alpha", "beta"]).body_text().unwrap(),
        "projects alpha and beta contain 1.0, but 1.1 has just been released."
    );
}

#[test]
fn body_with_three_or_more_projects_names_two_and_others() {
    assert_eq!(
        report(vec!["alpha", "beta", "gamma"]).body_text().unwrap(),
        "projects alpha, beta and others contain 1.0, but 1.1 has just been released."
    );
    assert_eq!(
        report(vec!["alpha", "beta", "gamma", "delta"]).body_text().unwrap(),
        "projects alpha, beta and others contain 1.0, but 1.1 has just been released."
    );
}

#[test]
fn body_with_no_owning_project_is_an_invariant_violation() {
    assert!(report(vec![]).body_text().is_err());
}
