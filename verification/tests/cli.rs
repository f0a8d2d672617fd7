use int_vault::cli::{expand_home, parse_args, ArgsError, Invocation};

fn to_args(items: &[&str]) -> Vec<String> {
    items.iter().map(|s| s.to_string()).collect()
}

#[test]
fn collects_positional_and_flagged_vaults() {
    let roots = parse_args(&to_args(&["/a", "--vault", "/b"]), None, None).unwrap();
    assert_eq!(roots, Invocation::Serve(vec!["/a".to_string(), "/b".to_string()]));
}

#[test]
fn rejects_unknown_options_and_missing_values() {
    assert!(parse_args(&to_args(&["--nope"]), None, None).is_err());
    assert!(parse_args(&to_args(&["--vault"]), None, None).is_err());
    assert_eq!(
        parse_args(&to_args(&["--nope"]), None, None),
        Err(ArgsError::UnknownOption("--nope".to_string()))
    );
    assert_eq!(parse_args(&to_args(&["/a", "--vault"]), None, None), Err(ArgsError::MissingVaultPath));
}

#[test]
fn no_arguments_means_follow_the_app() {
    assert_eq!(parse_args(&[], None, None).unwrap(), Invocation::Serve(Vec::new()));
}

#[test]
fn expands_home_relative_paths() {
    let home = Some("/home/test");
    assert_eq!(expand_home("~/Notes", home), "/home/test/Notes");
    assert_eq!(expand_home("~", home), "/home/test");
    assert_eq!(expand_home("/absolute", home), "/absolute");
}

#[test]
fn expansion_trims_and_needs_a_home() {
    assert_eq!(expand_home("  ~/Notes \n", Some("/home/test/")), "/home/test/Notes");
    assert_eq!(expand_home("~/Notes", None), "~/Notes");
    assert_eq!(expand_home("~other/Notes", Some("/home/test")), "~other/Notes");
    // An absolute remainder replaces the home directory, as a path join does.
    assert_eq!(expand_home("~//etc", Some("/home/test")), "/etc");
}

#[test]
fn help_and_version_stop_before_anything_else() {
    assert_eq!(parse_args(&to_args(&["-h", "--nope"]), None, None), Ok(Invocation::Help));
    assert_eq!(parse_args(&to_args(&["/a", "--version"]), None, None), Ok(Invocation::Version));
    assert_eq!(parse_args(&to_args(&["-V"]), None, None), Ok(Invocation::Version));
}

#[test]
fn environment_supplies_roots_only_when_none_are_given() {
    let env = Some(" ~/A , ,/b,");
    assert_eq!(
        parse_args(&[], env, Some("/home/u")),
        Ok(Invocation::Serve(vec!["/home/u/A".to_string(), "/b".to_string()]))
    );
    assert_eq!(
        parse_args(&to_args(&["/c"]), env, Some("/home/u")),
        Ok(Invocation::Serve(vec!["/c".to_string()]))
    );
}
