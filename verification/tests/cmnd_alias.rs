use sudo_policy::loader::{evaluate, load};
use sudo_policy::model::{ConfigError, ErrorKind};
use sudo_policy::policy::authorize;
use sudo_policy::rule::{AuthorizationDecision, AuthorizationRequest};

const BIN_TRUE: &str = "/usr/bin/true";
const BIN_LS: &str = "/usr/bin/ls";
const USERNAME: &str = "ferris";
const HOST: &str = "container";

const ALLOW: AuthorizationDecision = AuthorizationDecision::Allow { nopasswd: false };
const ALLOW_NOPASSWD: AuthorizationDecision = AuthorizationDecision::Allow { nopasswd: true };
const DENY: AuthorizationDecision = AuthorizationDecision::Deny;

fn sudoers(lines: &[String]) -> String {
    lines.join("\n")
}

/// `sudo <command>` as `user`, for the target `target`.
fn sudo(user: &str, target: &str, command: &str) -> AuthorizationRequest {
    AuthorizationRequest::new(user, target, HOST, command)
}

fn decide(lines: &[String], request: &AuthorizationRequest) -> AuthorizationDecision {
    evaluate(&sudoers(lines), request)
}

#[test]
fn cmnd_alias_works() {
    let env = [
        format!("Cmnd_Alias CMDSGROUP = {BIN_TRUE}, {BIN_LS}"),
        "ALL ALL=(ALL:ALL) CMDSGROUP".to_owned(),
    ];

    assert_eq!(decide(&env, &sudo("root", "root", BIN_TRUE)), ALLOW);
}

#[test]
fn cmnd_alias_nopasswd() {
    let env = [
        format!("Cmnd_Alias CMDSGROUP = {BIN_TRUE}, {BIN_LS}"),
        "ALL ALL=(ALL:ALL) NOPASSWD: CMDSGROUP".to_owned(),
    ];

    assert_eq!(decide(&env, &sudo(USERNAME, "root", BIN_TRUE)), ALLOW_NOPASSWD);
}

#[test]
fn cmnd_alias_can_contain_underscore_and_digits() {
    let env = [
        format!("Cmnd_Alias UNDER_SCORE123 = {BIN_TRUE}, {BIN_LS}"),
        "ALL ALL=(ALL:ALL) UNDER_SCORE123".to_owned(),
    ];

    assert_eq!(decide(&env, &sudo("root", "root", BIN_TRUE)), ALLOW);
}

// A name that starts with an underscore is no identifier: the definition is refused, and
// with it the whole configuration, so that nothing of it is in force.
#[test]
fn cmnd_alias_cannot_start_with_underscore() {
    let env = [
        format!("Cmnd_Alias _INVALID = {BIN_TRUE}"),
        "ALL ALL=(ALL:ALL) NOPASSWD: ALL".to_owned(),
        "ALL ALL=(ALL:ALL) !_INVALID".to_owned(),
    ];

    let fault = ConfigError { kind: ErrorKind::InvalidIdentifier, line: 1 };
    assert_eq!(load(&sudoers(&env)).err(), Some(fault));
    assert_eq!(
        decide(&env, &sudo("root", "root", BIN_TRUE)),
        AuthorizationDecision::ConfigError { reason: fault }
    );
}

#[test]
fn unlisted_cmnd_fails() {
    let env = [
        format!("Cmnd_Alias CMDS = {BIN_LS}"),
        "ALL ALL=(ALL:ALL) CMDSGROUP".to_owned(),
    ];

    let output = decide(&env, &sudo("root", "root", BIN_TRUE));

    assert!(!matches!(output, AuthorizationDecision::Allow { .. }));
    assert!(load(&sudoers(&env)).is_ok());
    assert_eq!(output, DENY);
}

#[test]
fn command_specified_not_by_absolute_path_is_rejected() {
    let env = [
        format!("Cmnd_Alias CMDSGROUP = true, {BIN_LS}"),
        "ALL ALL=(ALL:ALL) CMDSGROUP".to_owned(),
    ];

    let output = decide(&env, &sudo("root", "root", BIN_TRUE));

    assert!(!matches!(output, AuthorizationDecision::Allow { .. }));
    assert_eq!(
        output,
        AuthorizationDecision::ConfigError {
            reason: ConfigError { kind: ErrorKind::Syntax, line: 1 }
        }
    );
}

#[test]
fn command_alias_negation() {
    let env = [
        format!("Cmnd_Alias CMDSGROUP = {BIN_TRUE}, {BIN_LS}"),
        "ALL ALL=(ALL:ALL) !CMDSGROUP".to_owned(),
    ];

    let output = decide(&env, &sudo("root", "root", BIN_TRUE));

    assert!(!matches!(output, AuthorizationDecision::Allow { .. }));
    assert!(load(&sudoers(&env)).is_ok());
    assert_eq!(output, DENY);
}

#[test]
fn combined_cmnd_aliases() {
    let env = [
        format!("Cmnd_Alias TRUEGROUP = /usr/bin/sh, {BIN_TRUE}"),
        format!("Cmnd_Alias LSGROUP = {BIN_LS}, /usr/sbin/dump"),
        "Cmnd_Alias BAZ = !TRUEGROUP, LSGROUP".to_owned(),
        "ALL ALL=(ALL:ALL) BAZ".to_owned(),
    ];

    let output = decide(&env, &sudo("root", "root", BIN_TRUE));

    assert!(!matches!(output, AuthorizationDecision::Allow { .. }));
    assert!(load(&sudoers(&env)).is_ok());
    assert_eq!(output, DENY);

    let second_output = decide(&env, &sudo("root", "root", BIN_LS));

    assert_eq!(second_output, ALLOW);
}

#[test]
fn double_negation() {
    let env = [
        format!("Cmnd_Alias CMDSGROUP = {BIN_TRUE}, {BIN_LS}"),
        "ALL ALL=(ALL:ALL) !!CMDSGROUP".to_owned(),
    ];

    assert_eq!(decide(&env, &sudo("root", "root", BIN_TRUE)), ALLOW);
}

#[test]
fn negation_not_order_sensitive() {
    let env = [
        format!("Cmnd_Alias TRUECMND = {BIN_TRUE}"),
        format!("Cmnd_Alias LSCMND = {BIN_LS}"),
        "Cmnd_Alias BAZ = TRUECMND, !LSCMND".to_owned(),
        "ALL ALL=(ALL:ALL) BAZ".to_owned(),
    ];

    assert_eq!(decide(&env, &sudo("root", "root", BIN_TRUE)), ALLOW);

    let output = decide(&env, &sudo("root", "root", BIN_LS));
    assert!(!matches!(output, AuthorizationDecision::Allow { .. }));
    assert!(load(&sudoers(&env)).is_ok());
    assert_eq!(output, DENY);
}

#[test]
fn negation_combination() {
    let env = [
        format!("Cmnd_Alias TRUECMND = !{BIN_TRUE}"),
        format!("Cmnd_Alias LSCMND = {BIN_LS}"),
        "Cmnd_Alias BAZ = !TRUECMND, LSCMND".to_owned(),
        "ALL ALL=(ALL:ALL) BAZ".to_owned(),
    ];

    let output = decide(&env, &sudo("root", "root", BIN_TRUE));

    assert_eq!(output, ALLOW);

    let second_output = decide(&env, &sudo("root", "root", BIN_LS));

    assert_eq!(second_output, ALLOW);
}

#[test]
fn another_negation_combination() {
    let env = [
        format!("Cmnd_Alias TRUECMND = {BIN_TRUE}"),
        format!("Cmnd_Alias LSCMND = {BIN_LS}"),
        "Cmnd_Alias BAZ = TRUECMND, !LSCMND".to_owned(),
        "ALL ALL=(ALL:ALL) !BAZ".to_owned(),
    ];

    let output = decide(&env, &sudo("root", "root", BIN_TRUE));

    assert!(!matches!(output, AuthorizationDecision::Allow { .. }));
    assert!(load(&sudoers(&env)).is_ok());
    assert_eq!(output, DENY);

    let second_output = decide(&env, &sudo("root", "root", BIN_LS));

    assert_eq!(second_output, ALLOW);
}

#[test]
fn one_more_negation_combination() {
    let env = [
        format!("Cmnd_Alias TRUECMND = {BIN_TRUE}"),
        format!("Cmnd_Alias LSCMND = !{BIN_LS}"),
        "Cmnd_Alias BAZ = TRUECMND, LSCMND".to_owned(),
        "ALL ALL=(ALL:ALL) !BAZ".to_owned(),
    ];

    let output = decide(&env, &sudo("root", "root", BIN_TRUE));

    assert!(!matches!(output, AuthorizationDecision::Allow { .. }));
    assert!(load(&sudoers(&env)).is_ok());
    assert_eq!(output, DENY);

    let second_output = decide(&env, &sudo("root", "root", BIN_LS));

    assert_eq!(second_output, ALLOW);
}

#[test]
fn tripple_negation_combination() {
    let env = [
        format!("Cmnd_Alias TRUECMND = {BIN_TRUE}"),
        format!("Cmnd_Alias LSCMND = !{BIN_LS}"),
        "Cmnd_Alias BAZ = TRUECMND, !LSCMND".to_owned(),
        "ALL ALL=(ALL:ALL) !BAZ".to_owned(),
    ];

    let policy = load(&sudoers(&env));
    assert!(policy.is_ok());
    let policy = policy.unwrap();

    let output = authorize(&policy, &sudo("root", "root", BIN_TRUE));

    assert!(!matches!(output, AuthorizationDecision::Allow { .. }));
    assert_eq!(output, DENY);

    let second_output = authorize(&policy, &sudo("root", "root", BIN_LS));

    assert!(!matches!(second_output, AuthorizationDecision::Allow { .. }));
    assert_eq!(second_output, DENY);
}

#[test]
fn comma_listing_works() {
    let env = [
        format!("Cmnd_Alias TRUEGROUP = /usr/bin/sh, {BIN_TRUE}"),
        format!("Cmnd_Alias LSGROUP = {BIN_LS}, /usr/sbin/dump"),
        "ALL ALL=(ALL:ALL) TRUEGROUP, LSGROUP".to_owned(),
    ];

    let output = decide(&env, &sudo("root", "root", BIN_TRUE));

    assert_eq!(output, ALLOW);

    let second_output = decide(&env, &sudo("root", "root", BIN_LS));

    assert_eq!(second_output, ALLOW);
}

#[test]
fn runas_override() {
    let env = [
        format!("Cmnd_Alias TRUECMND = {BIN_TRUE}"),
        format!("Cmnd_Alias LSCMND = {BIN_LS}"),
        "ALL ALL = (root) LSCMND, (ferris) TRUECMND".to_owned(),
    ];
    let policy = load(&sudoers(&env));
    assert!(policy.is_ok());
    let policy = policy.unwrap();

    let output = authorize(&policy, &sudo("root", "root", BIN_LS).with_argument("/root"));
    assert_eq!(output, ALLOW);

    let output = authorize(&policy, &sudo("root", "ferris", BIN_LS));

    assert!(!matches!(output, AuthorizationDecision::Allow { .. }));
    assert_eq!(output, DENY);

    assert_eq!(authorize(&policy, &sudo("root", "ferris", BIN_TRUE)), ALLOW);

    let second_output = authorize(&policy, &sudo("root", "root", BIN_TRUE));

    assert!(!matches!(second_output, AuthorizationDecision::Allow { .. }));
    assert_eq!(second_output, DENY);
}

#[test]
fn runas_override_repeated_cmnd_means_runas_union() {
    let env = [
        format!("Cmnd_Alias TRUECMND = {BIN_TRUE}"),
        format!("Cmnd_Alias LSCMND = {BIN_LS}"),
        "ALL ALL = (root) TRUECMND, (ferris) TRUECMND".to_owned(),
    ];

    assert_eq!(decide(&env, &sudo("root", "root", BIN_TRUE)), ALLOW);

    assert_eq!(decide(&env, &sudo("root", "ferris", BIN_TRUE)), ALLOW);
}

const KEYWORDS: &[&str] = &[
    "ALL",
    "CHROOT",
    "CWD",
    "EXEC",
    "FOLLOW",
    "INTERCEPT",
    "LOG_INPUT",
    "LOG_OUTPUT",
    "MAIL",
    "NOEXEC",
    "NOFOLLOW",
    "NOINTERCEPT",
    "NOLOG_INPUT",
    "NOLOG_OUTPUT",
    "NOMAIL",
    "NOPASSWD",
    "NOSETENV",
    "NOTAFTER",
    "NOTBEFORE",
    "PASSWD",
    "ROLE",
    "SETENV",
    "TIMEOUT",
    "TYPE",
];

const KEYWORDS_ALIAS_BAD: &[&str] = &[
    "ALL",
    "CHROOT",
    "CWD",
    "NOTAFTER",
    "NOTBEFORE",
    "ROLE",
    "TIMEOUT",
    "TYPE",
];

fn keywords_alias_good() -> Vec<&'static str> {
    KEYWORDS
        .iter()
        .filter(|keyword| !KEYWORDS_ALIAS_BAD.contains(keyword))
        .copied()
        .collect()
}

#[test]
fn keywords() {
    for bad_keyword in KEYWORDS_ALIAS_BAD {
        let env = [
            format!("Cmnd_Alias {bad_keyword} = {BIN_TRUE}"),
            format!("ALL ALL=(ALL:ALL) {bad_keyword}"),
        ];

        let output = decide(&env, &sudo("root", "root", BIN_TRUE));

        assert_eq!(
            *bad_keyword == "ALL",
            matches!(output, AuthorizationDecision::Allow { .. })
        );
        if *bad_keyword != "ALL" {
            assert_eq!(
                output,
                AuthorizationDecision::ConfigError {
                    reason: ConfigError { kind: ErrorKind::InvalidIdentifier, line: 1 }
                }
            );
        }
    }

    for good_keyword in keywords_alias_good() {
        let env = [
            format!("Cmnd_Alias {good_keyword} = {BIN_TRUE}"),
            format!("ALL ALL=(ALL:ALL) {good_keyword}"),
        ];

        let output = decide(&env, &sudo("root", "root", BIN_TRUE));

        assert_eq!(output, ALLOW, "{}", good_keyword);
    }
}
