use gh_enterprise_repos::args::{Args, Output};
use gh_enterprise_repos::collect::{Archived, Forks, OrgSnapshot, Visibility};
use gh_enterprise_repos::run::{
    destination, endpoint, enterprises, export, file_name, finish, organizations, token,
    Destination, Finish,
};

fn args(slugs: &[&str]) -> Args {
    Args {
        enterprise: slugs.iter().map(|s| s.to_string()).collect(),
        output: None,
        visibility: Visibility::Public,
        archived: Archived::Exclude,
        forks: Forks::Include,
        topics: false,
        api_url: None,
        hostname: None,
        concurrency: 3,
        max_retries: 5,
        batch_size: 100,
    }
}

fn planned(args: &Args) -> Result<Vec<String>, String> {
    enterprises(args).map_err(|e| e.message())
}

fn snapshot(login: &str) -> OrgSnapshot {
    OrgSnapshot {
        login: login.to_string(),
        repositories: vec![],
    }
}

#[test]
fn slugs_are_cleaned_sorted_and_taken_once() {
    assert_eq!(
        planned(&args(&[" beta ", "/Acme/", "acme", "", " / ", "BETA"])),
        Ok(vec!["Acme".to_string(), "beta".to_string()])
    );
    // Slashes inside the whitespace go, whitespace inside the slashes stays.
    assert_eq!(planned(&args(&["/ a /"])), Ok(vec![" a ".to_string()]));
}

#[test]
fn a_run_needs_an_enterprise() {
    for none in [&[][..], &[""], &["  ", "//"]] {
        assert_eq!(planned(&args(none)), Err("pass --enterprise <slug>".to_string()));
    }
}

#[test]
fn one_file_takes_one_enterprise() {
    let mut several = args(&["a", "b"]);
    several.output = Some(Output::Stdout);
    let message = "--output writes one file; use --output-dir for several enterprises";
    assert_eq!(planned(&several), Err(message.to_string()));
    several.output = Some(Output::File);
    assert_eq!(planned(&several), Err(message.to_string()));
    let mut one = args(&["a", "A"]);
    one.output = Some(Output::File);
    assert_eq!(planned(&one), Ok(vec!["a".to_string()]));
}

#[test]
fn slugs_that_cannot_name_a_file_are_refused() {
    for (slugs, bad) in [
        (&["ok", "a/b"][..], "a/b"),
        (&["a\\b"], "a\\b"),
        (&["..", "x/y"], ".."),
        (&["x/y", ".hidden"], ".hidden"),
    ] {
        assert_eq!(
            planned(&args(slugs)),
            Err(format!("`{bad}` is not a usable enterprise slug"))
        );
    }
    assert_eq!(planned(&args(&["a.b"])), Ok(vec!["a.b".to_string()]));
}

#[test]
fn the_token_is_the_first_that_is_set() {
    let pick = |a: Option<&str>, b: Option<&str>| {
        token(a.map(str::to_string), b.map(str::to_string)).map_err(|e| e.message())
    };
    assert_eq!(pick(Some(" one\n"), Some("two")), Ok("one".to_string()));
    assert_eq!(pick(None, Some("two")), Ok("two".to_string()));
    assert_eq!(
        pick(None, None),
        Err("set GITHUB_TOKEN (or GH_TOKEN) to a token with read:enterprise".to_string())
    );
    for set in ["", " \t"] {
        assert_eq!(
            pick(Some(set), Some("two")),
            Err("GITHUB_TOKEN is set but empty".to_string())
        );
        assert_eq!(
            pick(None, Some(set)),
            Err("GITHUB_TOKEN is set but empty".to_string())
        );
    }
}

#[test]
fn the_endpoint_follows_the_host() {
    let at = |api_url: Option<&str>, hostname: Option<&str>| {
        let mut args = args(&["a"]);
        args.api_url = api_url.map(str::to_string);
        args.hostname = hostname.map(str::to_string);
        endpoint(&args)
    };
    assert_eq!(at(None, None), "https://api.github.com/graphql");
    assert_eq!(
        at(None, Some("ghe.example.com")),
        "https://ghe.example.com/api/graphql"
    );
    assert_eq!(
        at(None, Some("ghe.example.com//")),
        "https://ghe.example.com/api/graphql"
    );
    assert_eq!(
        at(None, Some("http://localhost:8080/")),
        "http://localhost:8080/api/graphql"
    );
    assert_eq!(at(None, Some("https://h")), "https://h/api/graphql");
    assert_eq!(at(None, Some("HTTPS://h")), "https://HTTPS://h/api/graphql");
    assert_eq!(at(Some("given/"), Some("ignored")), "given/");
}

#[test]
fn every_enterprise_gets_a_file_unless_one_is_named() {
    assert_eq!(file_name("acme-inc"), "acme-inc.yaml");
    let mut args = args(&["acme"]);
    assert!(matches!(
        destination(&args, "acme"),
        Destination::Named(name) if name == "acme.yaml"
    ));
    args.output = Some(Output::Stdout);
    assert!(matches!(destination(&args, "acme"), Destination::Stdout));
    args.output = Some(Output::File);
    assert!(matches!(destination(&args, "acme"), Destination::Given));
}

#[test]
fn organizations_are_queried_once_each() {
    let listed = vec!["b".to_string(), "A".to_string(), "a".to_string()];
    assert_eq!(
        organizations("acme", listed).map_err(|e| e.message()),
        Ok(vec!["A".to_string(), "b".to_string()])
    );
    assert_eq!(
        organizations("acme", vec![]).map_err(|e| e.message()),
        Err("enterprise `acme` has no organizations visible to this token".to_string())
    );
}

#[test]
fn unreadable_organizations_do_not_stop_an_export() {
    let answers = vec![
        ("locked".to_string(), Err("forbidden")),
        ("open".to_string(), Ok(snapshot("open"))),
        ("Also-locked".to_string(), Err("forbidden")),
    ];
    let report = export(&args(&["acme"]), "url", "acme", answers).expect("one is readable");
    assert_eq!(report.organizations, ["Also-locked", "locked", "open"]);
    assert_eq!(
        report.organizations_without_repository_data,
        ["Also-locked", "locked"]
    );
    assert_eq!(report.source.api_url, "url");
    assert_eq!(report.source.enterprise, "acme");
}

#[test]
fn an_export_fails_if_nothing_could_be_read() {
    let answers: Vec<(String, Result<OrgSnapshot, &str>)> = vec![
        ("a".to_string(), Err("forbidden")),
        ("b".to_string(), Err("forbidden")),
    ];
    assert_eq!(
        export(&args(&["acme"]), "url", "acme", answers)
            .map(|r| r.to_yaml())
            .map_err(|e| e.message()),
        Err("every organization in `acme` failed to query".to_string())
    );
}

#[test]
fn a_run_fails_only_with_all_of_its_enterprises() {
    assert_eq!(finish(&vec![true, true]), Finish::Complete);
    assert_eq!(finish(&vec![true, false, false]), Finish::Partial(2));
    assert_eq!(finish(&vec![false]), Finish::Failed);
    assert_eq!(finish(&vec![false, false]), Finish::Failed);
}
