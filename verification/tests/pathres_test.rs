use backup_core::pathres::{
    expand_path, expand_unix, expand_windows, has_unix_var_syntax, has_windows_var_syntax, Environment,
    ExpandErr, PathState,
};
use backup_core::Platform;

fn env(vars: &[(&str, &str)]) -> Environment {
    Environment {
        vars: vars
            .iter()
            .map(|(k, v)| (k.to_string(), v.to_string()))
            .collect(),
        current_dir: "/work".to_string(),
    }
}

fn resolved(state: PathState) -> String {
    match state {
        PathState::Resolved { path } => path,
        other => panic!("unexpected: {other:?}"),
    }
}

#[test]
fn windows_expand_appdata() {
    let env = env(&[("APPDATA", "C:\\Users\\Test\\AppData\\Roaming")]);
    let state = expand_path("%APPDATA%\\Code\\User", Platform::Windows, None, &env);
    assert_eq!(
        resolved(state),
        "C:\\Users\\Test\\AppData\\Roaming\\Code\\User"
    );
}

#[test]
fn windows_missing_var() {
    let state = expand_path("%NO_SUCH_VAR_XYZ%\\a", Platform::Windows, None, &env(&[]));
    assert!(matches!(state, PathState::UndefinedVar { .. }));
}

#[test]
fn windows_rejects_unix_syntax() {
    let state = expand_path("$HOME/.ssh", Platform::Windows, None, &env(&[]));
    assert!(matches!(state, PathState::OtherPlatform { .. }));
}

#[test]
fn windows_keeps_dollar_literal() {
    let state = expand_path("C:\\Admin$\\data", Platform::Windows, None, &env(&[]));
    assert_eq!(resolved(state), "C:\\Admin$\\data");
}

#[test]
fn windows_rejects_tilde() {
    let state = expand_path("~/x", Platform::Windows, None, &env(&[]));
    assert!(matches!(state, PathState::OtherPlatform { .. }));
}

#[test]
fn unix_keeps_percent_literal() {
    let home = "/home/u";
    let state = expand_path("$HOME/50%off", Platform::Linux, None, &env(&[("HOME", home)]));
    assert_eq!(resolved(state), format!("{home}/50%off"));
}

#[test]
fn windows_nested_expansion() {
    let env = env(&[
        ("BACKUP_TOOL_TEST_BASE", "C:\\base"),
        ("BACKUP_TOOL_TEST_NESTED", "%BACKUP_TOOL_TEST_BASE%\\sub"),
    ]);
    let state = expand_path("%BACKUP_TOOL_TEST_NESTED%\\app", Platform::Windows, None, &env);
    assert_eq!(resolved(state), "C:\\base\\sub\\app");
}

#[test]
fn unix_nested_expansion() {
    let home = "/tmp/fakehome-nested";
    let env = env(&[
        ("BACKUP_TOOL_TEST_NESTED_UNIX", "${HOME}/sub"),
        ("HOME", home),
    ]);
    let state = expand_path("$BACKUP_TOOL_TEST_NESTED_UNIX/app", Platform::Linux, None, &env);
    assert_eq!(resolved(state), format!("{home}/sub/app"));
}

#[test]
fn unix_expand_home() {
    let home = "/tmp/fakehome";
    let state = expand_path("~/config", Platform::Linux, None, &env(&[("HOME", home)]));
    assert_eq!(resolved(state), format!("{home}/config"));
}

#[test]
fn unix_expand_braced() {
    let home = "/tmp/fakehome";
    let state = expand_path("${HOME}/x", Platform::Linux, None, &env(&[("HOME", home)]));
    assert_eq!(resolved(state), format!("{home}/x"));
}

#[test]
fn unix_missing_var() {
    let state = expand_path("$NO_SUCH_VAR_XYZ_2/x", Platform::Linux, None, &env(&[]));
    assert!(matches!(state, PathState::UndefinedVar { var } if var == "NO_SUCH_VAR_XYZ_2"));
}

#[test]
fn unix_rejects_windows_syntax() {
    let state = expand_path("%APPDATA%\\x", Platform::Linux, None, &env(&[]));
    assert!(matches!(state, PathState::OtherPlatform { .. }));
}

#[test]
fn relative_resolves_against_base() {
    let state = expand_path("rel/dir", Platform::Linux, Some("/tmp/base"), &env(&[]));
    assert_eq!(resolved(state), "/tmp/base/rel/dir");
}

#[test]
fn relative_resolves_against_current_dir() {
    let state = expand_path(" rel ", Platform::Linux, None, &env(&[]));
    assert_eq!(resolved(state), "/work/rel");
}

#[test]
fn blank_path_resolves_to_nothing() {
    let state = expand_path(" \t", Platform::Linux, Some("/b"), &env(&[]));
    assert_eq!(resolved(state), "");
}

#[test]
fn home_alone_is_not_expanded_further() {
    let env = env(&[("HOME", "$X"), ("X", "/x")]);
    assert_eq!(
        resolved(expand_path("~", Platform::Linux, None, &env)),
        "/work/$X"
    );
    assert_eq!(
        resolved(expand_path("~/a", Platform::Linux, None, &env)),
        "/x/a"
    );
}

#[test]
fn missing_home_is_reported() {
    for raw in ["~", "~/a"] {
        let state = expand_path(raw, Platform::Macos, None, &env(&[]));
        assert_eq!(
            state,
            PathState::UndefinedVar {
                var: "HOME".to_string()
            }
        );
    }
}

#[test]
fn circles_end_after_some_passes() {
    let env = env(&[("A", "$B"), ("B", "$A")]);
    assert_eq!(
        resolved(expand_path("$A", Platform::Linux, Some("/b"), &env)),
        "/b/$B"
    );
}

#[test]
fn doubled_percent_stays() {
    let env = env(&[("b", "V")]);
    for raw in ["C:\\a%%b%c", "C:\\%%b", "C:\\50%%", "C:\\a%%%%b", "C:\\%"] {
        assert_eq!(resolved(expand_path(raw, Platform::Windows, None, &env)), raw);
    }
    assert_eq!(
        resolved(expand_path("C:\\a%%%b%c", Platform::Windows, None, &env)),
        "C:\\a%%Vc"
    );
    assert_eq!(
        resolved(expand_path("C:\\a%%", Platform::Windows, None, &env)),
        "C:\\a%%"
    );
}

#[test]
fn odd_dollars_stay() {
    let env = env(&[]);
    for raw in ["/a$", "/a$/b", "/a${b", "/a$-"] {
        assert_eq!(resolved(expand_path(raw, Platform::Linux, None, &env)), raw);
    }
    let state = expand_path("/a${}", Platform::Linux, None, &env);
    assert_eq!(state, PathState::UndefinedVar { var: String::new() });
}

#[test]
fn the_system_is_asked_by_the_name_as_written() {
    // A system that does not mind case.
    let system = |name: &str| match name.to_lowercase().as_str() {
        "appdata" => Some("%Größe%\\r"),
        "größe" => Some("D:"),
        _ => None,
    };
    let mut env = env(&[]);
    let mut asked = vec![];
    let state = loop {
        match expand_path("%AppData%\\x", Platform::Windows, None, &env) {
            PathState::UndefinedVar { var } => match system(&var) {
                Some(value) => {
                    asked.push(var.clone());
                    env.answer(var, value.to_string());
                }
                None => panic!("{var} is defined"),
            },
            state => break state,
        }
    };
    assert_eq!(asked, ["AppData", "Größe"]);
    assert_eq!(resolved(state), "D:\\r\\x");
    assert_eq!(env.var("AppData").unwrap(), "%Größe%\\r");
    assert!(env.var("APPDATA").is_none());
}

#[test]
fn texts_without_variables_are_kept() {
    let env = env(&[("A", "x"), ("HOME", "/h")]);
    for raw in ["C:\\%%A%", "%%", "50%", "a$", "a b", ""] {
        assert_eq!(expand_windows(raw, &env).unwrap(), raw);
        assert_eq!(expand_unix(raw, Platform::Linux, &env).unwrap(), raw);
    }
    assert!(matches!(expand_windows("~/x", &env), Err(ExpandErr::OtherPlatform)));
    assert!(matches!(
        expand_unix("%A%", Platform::Macos, &env),
        Err(ExpandErr::OtherPlatform)
    ));
    assert!(matches!(
        expand_windows("%B%", &env),
        Err(ExpandErr::Undefined { var }) if var == "B"
    ));
    assert_eq!(expand_unix("~/$A", Platform::Linux, &env).unwrap(), "/h/x");
}

#[test]
fn syntax_is_told_apart() {
    assert!(has_windows_var_syntax("a%b%"));
    assert!(!has_windows_var_syntax("%%a%"));
    assert!(!has_windows_var_syntax("50%"));
    assert!(has_unix_var_syntax("~"));
    assert!(has_unix_var_syntax("~/x"));
    assert!(!has_unix_var_syntax("~x"));
    assert!(has_unix_var_syntax("a$_"));
    assert!(!has_unix_var_syntax("a$"));
}

#[test]
fn other_platform_keeps_the_text() {
    let state = expand_path("  %X%\\y ", Platform::Linux, None, &env(&[]));
    assert_eq!(
        state,
        PathState::OtherPlatform {
            raw: "%X%\\y".to_string()
        }
    );
    assert!(state.resolved_path().is_none());
}
