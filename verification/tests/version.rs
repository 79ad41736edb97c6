use atomr_view::version::{
    bump_args_fit, bump_fits_check, version_numbers_exec, VersionNumbers, bump_target, read_workspace_version, semver_bump, write_pyproject_version, write_workspace_deps_versions,
    write_workspace_version, BumpKind, ParseFailure, VersionError, VersionPart,
};

#[test]
fn bump_kinds() {
    assert_eq!(semver_bump("1.2.3", BumpKind::Patch), Ok("1.2.4".to_string()));
    assert_eq!(semver_bump("1.2.3", BumpKind::Minor), Ok("1.3.0".to_string()));
    assert_eq!(semver_bump("1.2.3", BumpKind::Major), Ok("2.0.0".to_string()));
    assert_eq!(semver_bump("1.2.3", BumpKind::Pre("rc.1".to_string())), Ok("1.2.3-rc.1".to_string()));
    assert_eq!(semver_bump("0.9.9-beta.2", BumpKind::Patch), Ok("0.9.10".to_string()));
    assert_eq!(semver_bump("+01.2.3", BumpKind::Patch), Ok("1.2.4".to_string()));
}

#[test]
fn bump_errors() {
    assert!(matches!(semver_bump("1.2", BumpKind::Patch), Err(VersionError::NotMajorMinorPatch { version }) if version == "1.2"));
    assert!(matches!(semver_bump("", BumpKind::Patch), Err(VersionError::NotMajorMinorPatch { .. })));
    assert_eq!(
        semver_bump("1.x.3", BumpKind::Patch),
        Err(VersionError::BadNumber { part: VersionPart::Minor, reason: ParseFailure::InvalidDigit })
    );
    assert_eq!(
        semver_bump("1..3", BumpKind::Patch),
        Err(VersionError::BadNumber { part: VersionPart::Minor, reason: ParseFailure::Empty })
    );
    assert_eq!(
        semver_bump("99999999999999999999.0.0", BumpKind::Patch),
        Err(VersionError::BadNumber { part: VersionPart::Major, reason: ParseFailure::PosOverflow })
    );
}

#[test]
fn bump_arguments() {
    let args = |v: &[&str]| v.iter().map(|s| s.to_string()).collect::<Vec<String>>();
    assert_eq!(bump_target(&args(&["patch"]), "1.0.0"), Ok("1.0.1".to_string()));
    assert_eq!(bump_target(&args(&["--pre", "alpha"]), "1.0.0"), Ok("1.0.0-alpha".to_string()));
    assert_eq!(bump_target(&args(&["--set", "3.1.4"]), "1.0.0"), Ok("3.1.4".to_string()));
    assert_eq!(bump_target(&args(&[]), "1.0.0"), Err(VersionError::MissingBumpArg));
    assert_eq!(bump_target(&args(&["--pre"]), "1.0.0"), Err(VersionError::PreNeedsId));
    assert_eq!(bump_target(&args(&["--set"]), "1.0.0"), Err(VersionError::SetNeedsVersion));
    assert_eq!(bump_target(&args(&["huge"]), "1.0.0"), Err(VersionError::UnknownBumpArg { arg: "huge".to_string() }));
}

const CARGO: &str = "[workspace]\nmembers = [\"a\"]\n\n[workspace.package]\nedition = \"2021\"\n  version = \"0.3.1\" \nlicense = \"MIT\"\n\n[workspace.dependencies]\nfoo = { path = \"crates/foo\", version = \"0.3.1\" }\nbar = { version = \"0.3.1\" }\n\n[profile.release]\nlto = true\n";

#[test]
fn read_version_of_workspace() {
    assert_eq!(read_workspace_version(CARGO), Ok("0.3.1".to_string()));
    assert_eq!(read_workspace_version("[package]\nversion = \"1\"\n"), Err(VersionError::NoPackageBlock));
    assert_eq!(read_workspace_version("[workspace.package]\nedition = \"2021\"\n[x]\nversion = \"2\"\n"), Err(VersionError::NoVersionKey));
    assert_eq!(read_workspace_version("[workspace.package]\nversion='4.5.6'"), Ok("4.5.6".to_string()));
}

#[test]
fn write_version_of_workspace() {
    let out = write_workspace_version(CARGO, "0.4.0").unwrap();
    assert!(out.contains("  version = \"0.4.0\"\nlicense"));
    assert_eq!(read_workspace_version(&out), Ok("0.4.0".to_string()));
    assert_eq!(write_workspace_version("[workspace.package]\nname = \"x\"\n", "1.0.0"), Err(VersionError::NoVersionLine));
}

#[test]
fn write_version_finds_the_version_key_itself() {
    let text = "[workspace.package]\nrust-version = \"1.75\"\n  version=\"0.1.0\"\r\nedition = \"2021\"\n[other]\nversion = \"7\"\n";
    let out = write_workspace_version(text, "0.2.0").unwrap();
    assert_eq!(out, "[workspace.package]\nrust-version = \"1.75\"\n  version = \"0.2.0\"\nedition = \"2021\"\n[other]\nversion = \"7\"\n");
    assert_eq!(read_workspace_version(&out), Ok("0.2.0".to_string()));
}

#[test]
fn write_dependency_pins() {
    let out = write_workspace_deps_versions(CARGO, "0.3.1", "0.4.0").unwrap();
    assert!(out.contains("foo = { path = \"crates/foo\", version = \"0.4.0\" }"));
    assert!(out.contains("bar = { version = \"0.3.1\" }"));
    assert!(out.contains("  version = \"0.3.1\" \n"));
    assert_eq!(write_workspace_deps_versions("[workspace]\n", "1", "2"), None);
}

#[test]
fn write_version_of_pyproject() {
    let text = "[project]\nname = \"atomr-view\"\r\n  version = \"0.3.1\"\nversion = \"9\"";
    assert_eq!(
        write_pyproject_version(text, "0.4.0"),
        Ok("[project]\nname = \"atomr-view\"\nversion = \"0.4.0\"\nversion = \"9\"\n".to_string())
    );
    assert_eq!(write_pyproject_version("[project]\n", "1.0.0"), Err(VersionError::NoPyprojectVersion));
}

#[test]
fn version_numbers_read() {
    assert!(matches!(version_numbers_exec("10.20.30-rc"), VersionNumbers::Good(10, 20, 30)));
    assert!(matches!(version_numbers_exec("1.2"), VersionNumbers::WrongShape));
    assert!(matches!(
        version_numbers_exec("1.2.x"),
        VersionNumbers::Bad(VersionPart::Patch, ParseFailure::InvalidDigit)
    ));
}

#[test]
fn bump_overflow_is_caught_before_the_call() {
    let max = "18446744073709551615";
    assert!(!bump_fits_check(&format!("1.2.{max}"), &BumpKind::Patch));
    assert!(bump_fits_check(&format!("1.2.{max}"), &BumpKind::Minor));
    assert!(!bump_fits_check(&format!("{max}.0.0"), &BumpKind::Major));
    assert!(bump_fits_check(&format!("{max}.{max}.{max}"), &BumpKind::Pre("x".to_string())));
    assert!(bump_fits_check("not a version", &BumpKind::Patch));
    let args = |v: &[&str]| v.iter().map(|s| s.to_string()).collect::<Vec<String>>();
    assert!(!bump_args_fit(&args(&["patch"]), &format!("1.2.{max}")));
    assert!(bump_args_fit(&args(&["minor"]), &format!("1.2.{max}")));
    assert!(bump_args_fit(&args(&["--set", "1.0.0"]), &format!("{max}.{max}.{max}")));
    assert!(bump_args_fit(&args(&[]), "1.0.0"));
    assert_eq!(bump_target(&args(&["minor"]), &format!("1.2.{max}")), Ok("1.3.0".to_string()));
}

#[test]
fn numeric_bump_grows_and_is_accepted_again() {
    let next = semver_bump("1.9.9-beta", BumpKind::Minor).unwrap();
    assert_eq!(next, "1.10.0");
    assert!(matches!(version_numbers_exec(&next), VersionNumbers::Good(1, 10, 0)));
    assert_eq!(semver_bump(&next, BumpKind::Pre("x".to_string())), Ok("1.10.0-x".to_string()));
}

#[test]
fn pre_release_retag_is_idempotent() {
    let tagged = semver_bump("2.3.4", BumpKind::Pre("rc.1".to_string())).unwrap();
    assert_eq!(semver_bump(&tagged, BumpKind::Pre("rc.1".to_string())), Ok(tagged.clone()));
    for k in [BumpKind::Patch, BumpKind::Minor, BumpKind::Major] {
        assert_eq!(semver_bump(&tagged, k.clone()), semver_bump("2.3.4", k));
    }
}
