use orn_cli::notifier::{
    check_latest_version, generate_notice, get_latest_from_json, ErrorKind, JsonError, Version,
    VersionResponse, REGISTRY_URL,
};

#[test]
fn test_output() {
    assert_eq!(generate_notice("asdev", "0.1.2", "0.1.3"), "\n────────────────────────────────────────────────────────────\n\n    A new version of asdev is available! 0.1.2 → 0.1.3\n    Use `cargo install asdev` to install version 0.1.3\n    Check https://crates.io/crates/asdev for more details\n    \n────────────────────────────────────────────────────────────\n");
}

#[test]
fn latest_from_versions_list() {
    let resp = VersionResponse {
        versions: Some(vec![Version { num: "0.1.3".to_string() }, Version {
            num: "0.1.2".to_string(),
        }]),
        errors: None,
    };
    match get_latest_from_json(&resp) {
        Ok(v) => assert_eq!(v, "0.1.3"),
        Err(_) => panic!("expected a version"),
    }
}

#[test]
fn latest_from_empty_versions_list() {
    let resp = VersionResponse { versions: Some(vec![]), errors: None };
    match get_latest_from_json(&resp) {
        Ok(_) => panic!("expected an error"),
        Err(ErrorKind::UnableToParseJson(m)) => assert_eq!(m, "Versions array is empty"),
        Err(ErrorKind::RegistryError(_)) => panic!("wrong error kind"),
    }
}

#[test]
fn latest_from_registry_error() {
    let resp = VersionResponse {
        versions: None,
        errors: Some(vec![JsonError { detail: "Not Found".to_string() }]),
    };
    match get_latest_from_json(&resp) {
        Ok(_) => panic!("expected an error"),
        Err(ErrorKind::RegistryError(d)) => assert_eq!(d, "Not Found"),
        Err(ErrorKind::UnableToParseJson(_)) => panic!("wrong error kind"),
    }
}

#[test]
fn latest_from_empty_response() {
    let resp = VersionResponse { versions: None, errors: None };
    match get_latest_from_json(&resp) {
        Ok(_) => panic!("expected an error"),
        Err(ErrorKind::UnableToParseJson(m)) => {
            assert_eq!(m, "Invalid json response, does not have versions or errors")
        }
        Err(ErrorKind::RegistryError(_)) => panic!("wrong error kind"),
    }
}

#[test]
fn latest_from_empty_errors_list() {
    let resp = VersionResponse { versions: None, errors: Some(vec![]) };
    match get_latest_from_json(&resp) {
        Ok(_) => panic!("expected an error"),
        Err(ErrorKind::UnableToParseJson(m)) => assert_eq!(m, "No errors in the errors array"),
        Err(ErrorKind::RegistryError(_)) => panic!("wrong error kind"),
    }
}

#[test]
fn version_comparison() {
    assert!(check_latest_version("asdev", "0.1.3", "0.1.3"));
    assert!(!check_latest_version("asdev", "0.1.2", "0.1.3"));
    assert_eq!(REGISTRY_URL, "https://crates.io");
}
