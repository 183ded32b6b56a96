use env_manage::GLOBAL_PROFILE_MARK;
use env_manage::SHELL_MARK;
use env_manage::env_script::generate_export_script;
use env_manage::env_script::generate_unset_script;
use env_manage::models::Profile;
use env_manage::select_popup::SelectPopupComponent;
use env_manage::shell_generate::ShellGenerate;
use env_manage::shell_generate::ShellType;
use env_manage::validate::IdentifierError;
use env_manage::validate::ValidationConfig;
use env_manage::validate::validate_identifier;
use env_manage::validate::validate_profile_name;
use env_manage::validate::validate_variable_key;

fn vars(pairs: &[(&str, &str)]) -> Vec<(String, String)> {
    pairs.iter().map(|(k, v)| (k.to_string(), v.to_string())).collect()
}

#[test]
fn export_script_joins_with_semicolons() {
    let m = vars(&[("A", "1"), ("B", "two words")]);
    assert_eq!(
        generate_export_script(&m),
        "export \"A=1\";export \"B=two words\""
    );
    assert_eq!(generate_unset_script(&m), "unset \"A\";unset \"B\"");
    assert_eq!(generate_export_script(&vars(&[])), "");
    assert_eq!(generate_unset_script(&vars(&[])), "");
}

#[test]
fn export_commands_quote_per_shell() {
    assert_eq!(
        ShellType::Bash.export_cmd("K", "a'b"),
        "export K='a'\\''b'"
    );
    assert_eq!(ShellType::Zsh.export_cmd("K", "plain"), "export K='plain'");
    assert_eq!(
        ShellType::Fish.export_cmd("K", "a\\b'c"),
        "set -gx K 'a\\\\b\\'c'"
    );
    assert_eq!(
        ShellType::PowerShell.export_cmd("K", "a`b\"c$d"),
        "$env:K=\"a``b`\"c`$d\""
    );
}

#[test]
fn unset_commands_per_shell() {
    assert_eq!(ShellType::Bash.unset_cmd("K"), "unset K");
    assert_eq!(ShellType::Zsh.unset_cmd("K"), "unset K");
    assert_eq!(ShellType::Fish.unset_cmd("K"), "set -e K");
    assert_eq!(ShellType::PowerShell.unset_cmd("K"), "Remove-Item Env:K");
}

#[test]
fn shell_names_are_recognized_ignoring_case() {
    assert!(matches!(ShellType::try_from_name("Fish"), Ok(ShellType::Fish)));
    assert!(matches!(
        ShellType::try_from_name("POWERSHELL"),
        Ok(ShellType::PowerShell)
    ));
    assert!(matches!(ShellType::try_from_name("pwsh"), Ok(ShellType::PowerShell)));
    assert!(matches!(ShellType::try_from_name("bash"), Ok(ShellType::Bash)));
    assert!(matches!(ShellType::try_from_name("zsh"), Ok(ShellType::Zsh)));
    match ShellType::try_from_name("tcsh") {
        Err(m) => assert!(m.starts_with("tcsh is not yet supported")),
        Ok(_) => panic!("expected an unsupported-shell message"),
    }
}

#[test]
fn generated_output_sits_behind_the_marker() {
    let mut g = ShellGenerate::new(ShellType::Bash);
    assert_eq!(g.build(), "");
    g.export("A", "1");
    g.unset("B");
    let out = g.build();
    assert_eq!(out, format!("{}\nexport A='1'\nunset B", SHELL_MARK));
}

#[test]
fn maps_are_exported_in_order() {
    let mut g = ShellGenerate::new(ShellType::Fish);
    let m = vars(&[("A", "1"), ("B", "2")]);
    g.export_from_map(&m);
    g.unset_from_map(&m);
    assert_eq!(
        g.build(),
        format!(
            "{}\nset -gx A '1'\nset -gx B '2'\nset -e A\nset -e B",
            SHELL_MARK
        )
    );
}

#[test]
fn marks_are_stable() {
    assert_eq!(SHELL_MARK, "__ENV_MANAGE_SHELL_CMD__");
    assert_eq!(GLOBAL_PROFILE_MARK, "__PRIVATE_GLOBAL_PROFILE__");
}

#[test]
fn identifiers_are_checked_in_order() {
    let relaxed = ValidationConfig::env_var_relaxed();
    assert_eq!(validate_identifier("", &relaxed), Err(IdentifierError::Empty));
    assert_eq!(
        validate_identifier("9lives", &relaxed),
        Err(IdentifierError::StartsWithDigit)
    );
    assert_eq!(validate_identifier("_ok", &relaxed), Ok(()));
    assert_eq!(
        validate_identifier("has space", &relaxed),
        Err(IdentifierError::InvalidCharacter(' '))
    );
    assert_eq!(
        validate_identifier("semi;colon", &relaxed),
        Err(IdentifierError::InvalidCharacter(';'))
    );
    assert_eq!(validate_identifier("PATH_2", &relaxed), Ok(()));
}

#[test]
fn strict_mode_rejects_lowercase() {
    let strict = ValidationConfig::env_var_strict();
    assert_eq!(validate_identifier("PATH", &strict), Ok(()));
    assert_eq!(
        validate_identifier("PaTH", &strict),
        Err(IdentifierError::ContainsLowercase)
    );
}

#[test]
fn constant_names_reject_a_leading_underscore() {
    let constant = ValidationConfig::constant_name();
    assert_eq!(
        validate_identifier("_HIDDEN", &constant),
        Err(IdentifierError::InvalidCharacter('_'))
    );
    assert_eq!(validate_identifier("VISIBLE", &constant), Ok(()));
}

#[test]
fn profile_names_may_carry_hyphens() {
    assert_eq!(validate_profile_name("work-laptop"), Ok(()));
    assert_eq!(
        validate_profile_name("work laptop"),
        Err(IdentifierError::InvalidCharacter(' '))
    );
    assert_eq!(validate_variable_key("cache-dir"), Ok(()));
    assert_eq!(
        validate_variable_key("cache/dir"),
        Err(IdentifierError::InvalidCharacter('/'))
    );
}

#[test]
fn profile_variables_behave_as_a_mapping() {
    let mut p = Profile::new();
    assert!(p.is_empty());
    p.add_variable("EDITOR", "vim");
    p.add_variable("EDITOR", "code");
    p.add_variable("PAGER", "less");
    assert_eq!(
        p.variables,
        vec![
            ("EDITOR".to_string(), "code".to_string()),
            ("PAGER".to_string(), "less".to_string())
        ]
    );
    assert_eq!(p.remove_variable("EDITOR"), Some("code".to_string()));
    assert_eq!(p.remove_variable("EDITOR"), None);
    p.add_profile("base");
    p.add_profile("extra");
    p.add_profile("base");
    p.remove_profile("base");
    assert_eq!(p.profiles, vec!["extra".to_string()]);
    p.clear();
    assert!(p.is_empty());
}

#[test]
fn selection_wraps_and_toggles() {
    let options = vec!["one".to_string(), "two".to_string(), "three".to_string()];
    let mut c = SelectPopupComponent::new("pick".to_string(), options);
    assert_eq!(c.get_selected_items(), vec!["one".to_string()]);
    c.select_previous();
    assert_eq!(c.current_index, 2);
    c.select_next();
    assert_eq!(c.current_index, 0);
    c.multi_select = true;
    c.select_next();
    c.toggle_selection();
    c.select_next();
    c.toggle_selection();
    assert_eq!(
        c.get_selected_items(),
        vec!["two".to_string(), "three".to_string()]
    );
    c.toggle_selection();
    assert_eq!(c.get_selected_items(), vec!["two".to_string()]);
    c.reset();
    assert_eq!(c.get_selected_items(), Vec::<String>::new());
}
