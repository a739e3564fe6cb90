use dark_bassline::bundle_args::default_bundle_package;

fn strings(args: &[&str]) -> Vec<String> {
    args.iter().map(|s| s.to_string()).collect()
}

#[test]
fn bundle_defaults_to_dark_bassline_package() {
    let args = default_bundle_package(vec!["bundle".into(), "--release".into()], "dark_bassline");
    assert_eq!(args, vec!["bundle", "dark_bassline", "--release"]);
}

#[test]
fn bundle_keeps_explicit_package() {
    let args = default_bundle_package(
        vec!["bundle".into(), "other_plugin".into(), "--release".into()],
        "dark_bassline",
    );
    assert_eq!(args, vec!["bundle", "other_plugin", "--release"]);
}

#[test]
fn bundle_keeps_package_flags() {
    let args = default_bundle_package(
        vec![
            "bundle".into(),
            "-p".into(),
            "other_plugin".into(),
            "--release".into(),
        ],
        "dark_bassline",
    );
    assert_eq!(args, vec!["bundle", "-p", "other_plugin", "--release"]);
}

#[test]
fn bundle_inserts_package_before_other_build_flags() {
    let args = default_bundle_package(
        vec![
            "bundle".into(),
            "--target".into(),
            "x86_64-apple-darwin".into(),
            "--release".into(),
        ],
        "dark_bassline",
    );
    assert_eq!(
        args,
        vec![
            "bundle",
            "dark_bassline",
            "--target",
            "x86_64-apple-darwin",
            "--release",
        ]
    );
}

#[test]
fn empty_and_other_commands_are_unchanged() {
    assert!(default_bundle_package(vec![], "dark_bassline").is_empty());
    let args = strings(&["build", "--release"]);
    assert_eq!(default_bundle_package(args.clone(), "dark_bassline"), args);
}

#[test]
fn bundle_universal_and_long_package_flags() {
    assert_eq!(
        default_bundle_package(strings(&["bundle-universal"]), "dark_bassline"),
        strings(&["bundle-universal", "dark_bassline"])
    );
    let with_flag = strings(&["bundle", "--release", "--package", "x"]);
    assert_eq!(default_bundle_package(with_flag.clone(), "dark_bassline"), with_flag);
    let with_eq = strings(&["bundle", "--release", "--package=x"]);
    assert_eq!(default_bundle_package(with_eq.clone(), "dark_bassline"), with_eq);
}

#[test]
fn defaulting_twice_is_defaulting_once() {
    let once = default_bundle_package(strings(&["bundle", "--release"]), "dark_bassline");
    let twice = default_bundle_package(once.clone(), "dark_bassline");
    assert_eq!(once, twice);
}
