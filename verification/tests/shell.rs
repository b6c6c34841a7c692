use scotty::shell::{
    init_shell, interpolate_scotty_path, parse_shell, replace_all, same_text, trim, Shell,
    ShellError, BASH_INIT, ZSH_INIT,
};

#[test]
fn shell_try_from_with_lowercase() {
    let input = "zsh";
    let output = Shell::try_from(input).unwrap();
    let expected = Shell::Zsh;

    assert_eq!(output, expected)
}

#[test]
fn shell_try_from_with_mixed_case() {
    let input = "Zsh";
    let output = Shell::try_from(input).unwrap();
    let expected = Shell::Zsh;

    assert_eq!(output, expected)
}

#[test]
fn shell_try_from_with_whitespace() {
    let input = "zsh ";
    let output = Shell::try_from(input).unwrap();
    let expected = Shell::Zsh;

    assert_eq!(output, expected)
}

#[test]
fn shell_try_from_unknown_shell() {
    let input = "foo";
    let output = Shell::try_from(input);

    assert_eq!(
        output,
        Err(ShellError::UnknownShellName {
            name: input.to_owned()
        })
    )
}

#[test]
fn only_replaces_specific_token() {
    let script = "I am just a normal string";
    let path = "";

    assert_eq!(interpolate_scotty_path(script, path), script)
}

#[test]
fn should_replace_token_with_value() {
    let script = "__SCOTTY__ init zsh";
    let expected_script = "\"/bin/scotty\" init zsh";
    let path = "/bin/scotty";

    assert_eq!(interpolate_scotty_path(script, path), expected_script)
}

#[test]
fn should_replace_token_with_value_whitespace() {
    let script = "__SCOTTY__ init powershell";
    let expected_script = "\"C:\\Program Files\\scotty.exe\" init powershell";
    let path = "C:\\Program Files\\scotty.exe";

    assert_eq!(interpolate_scotty_path(script, path), expected_script)
}

#[test]
fn should_replace_in_multiline_script() {
    let script = "echo hello
echo __SCOTTY__";
    let expected_script = "echo hello
echo \"/bin/scotty\"";
    let path = "/bin/scotty";

    assert_eq!(interpolate_scotty_path(script, path), expected_script)
}

#[test]
fn replaces_every_token() {
    let script = "__SCOTTY__ add; __SCOTTY____SCOTTY__";

    assert_eq!(
        interpolate_scotty_path(script, "s"),
        "\"s\" add; \"s\"\"s\""
    )
}

#[test]
fn shell_try_from_bash_in_any_case_and_padding() {
    assert_eq!(Shell::try_from("bash"), Ok(Shell::Bash));
    assert_eq!(Shell::try_from("\t BaSH\n"), Ok(Shell::Bash));
    assert_eq!(parse_shell("  ZSH"), Ok(Shell::Zsh))
}

#[test]
fn shell_try_from_keeps_the_name_as_typed() {
    assert_eq!(
        parse_shell(" Fish "),
        Err(ShellError::UnknownShellName {
            name: " Fish ".to_owned()
        })
    );
    assert_eq!(
        parse_shell(""),
        Err(ShellError::UnknownShellName {
            name: String::new()
        })
    );
    assert_eq!(
        parse_shell("z sh"),
        Err(ShellError::UnknownShellName {
            name: "z sh".to_owned()
        })
    )
}

#[test]
fn shell_from_normalized_is_exact() {
    assert_eq!(Shell::from_normalized("zsh"), Some(Shell::Zsh));
    assert_eq!(Shell::from_normalized("bash"), Some(Shell::Bash));
    assert_eq!(Shell::from_normalized("Zsh"), None);
    assert_eq!(Shell::from_normalized("zsh "), None)
}

#[test]
fn trim_strips_both_ends_only() {
    assert_eq!(trim("  a b \t\n"), "a b");
    assert_eq!(trim("a"), "a");
    assert_eq!(trim(" \u{a0}\u{3000}x\u{2003}"), "x");
    assert_eq!(trim("   "), "");
    assert_eq!(trim(""), "")
}

#[test]
fn all_variants_names_both_shells() {
    assert_eq!(Shell::all_variants(), vec!["zsh", "bash"])
}

#[test]
fn init_shell_puts_the_path_into_the_script_of_the_shell() {
    let zsh = init_shell(Shell::Zsh, "/usr/bin/scotty");
    let bash = init_shell(Shell::Bash, "/usr/bin/scotty");

    assert_eq!(zsh, ZSH_INIT.replace("__SCOTTY__", "\"/usr/bin/scotty\""));
    assert_eq!(bash, BASH_INIT.replace("__SCOTTY__", "\"/usr/bin/scotty\""));
    assert!(zsh.contains("\"/usr/bin/scotty\" add \"${PWD}\""));
    assert!(zsh.contains("add-zsh-hook chpwd"));
    assert!(bash.contains("PROMPT_COMMAND"));
    assert!(!zsh.contains("__SCOTTY__"));
    assert!(!bash.contains("__SCOTTY__"));
    assert_ne!(zsh, bash);
    assert_eq!(Shell::Zsh.script(), ZSH_INIT);
    assert_eq!(Shell::Bash.script(), BASH_INIT)
}

#[test]
fn replace_all_finds_occurrences_from_left_to_right() {
    for (text, token, with) in [
        ("aaa", "aa", "b"),
        ("aaaa", "aa", "b"),
        ("abcabc", "bc", ""),
        ("abc", "abcd", "x"),
        ("abc", "abc", "x"),
        ("", "a", "x"),
        ("ä__ö__", "__", "é"),
        ("a.b", ".", ".."),
        ("xx", "x", "xx"),
    ] {
        assert_eq!(replace_all(text, token, with), text.replace(token, with));
    }
    assert_eq!(replace_all("aaa", "aa", "b"), "ba");
    assert_eq!(replace_all("abcabc", "bc", "-"), "a-a-");
    assert_eq!(replace_all("abc", "", "x"), "abc")
}

#[test]
fn same_text_compares_content() {
    assert!(same_text("", ""));
    assert!(same_text("zsh", "zsh"));
    assert!(!same_text("zsh", "Zsh"));
    assert!(!same_text("zsh", "zsh "))
}
