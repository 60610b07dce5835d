use sudo_policy::alias::AliasTable;
use sudo_policy::ident::{check_alias_shaped, check_reserved, validate_identifier};
use sudo_policy::loader::{evaluate, load, load_bytes};
use sudo_policy::matching::{is_match, scan, Subject};
use sudo_policy::model::{
    AliasKind, ConfigError, ErrorKind, FlatEntry, Pattern, SignedMember, Target,
};
use sudo_policy::parser::{read_list, read_member, read_statement, read_tags, Statement};
use sudo_policy::policy::{authorize, flatten_rule, list_permissions, unusable_rules};
use sudo_policy::rule::{AuthorizationDecision, AuthorizationRequest, Grant, Tag};
use sudo_policy::token::{tokenize, Token};

const ALLOW: AuthorizationDecision = AuthorizationDecision::Allow { nopasswd: false };
const ALLOW_NOPASSWD: AuthorizationDecision = AuthorizationDecision::Allow { nopasswd: true };
const DENY: AuthorizationDecision = AuthorizationDecision::Deny;

fn fault(kind: ErrorKind, line: usize) -> ConfigError {
    ConfigError { kind, line }
}

fn command(path: &str) -> Pattern {
    Pattern::Command { path: path.as_bytes().to_vec(), args: Vec::new() }
}

fn literal(pattern: Pattern) -> SignedMember {
    SignedMember { negated: false, target: Target::Literal(pattern) }
}

fn reference(name: &str) -> SignedMember {
    SignedMember { negated: false, target: Target::Alias(name.as_bytes().to_vec()) }
}

fn not(member: SignedMember) -> SignedMember {
    SignedMember { negated: !member.negated, target: member.target }
}

fn plus(path: &str) -> FlatEntry {
    FlatEntry { pattern: command(path), negated: false }
}

fn minus(path: &str) -> FlatEntry {
    FlatEntry { pattern: command(path), negated: true }
}

fn request(user: &str, target: &str, path: &str) -> AuthorizationRequest {
    AuthorizationRequest::new(user, target, "host", path)
}

fn word(text: &str) -> Token {
    Token::Word(text.as_bytes().to_vec())
}

// ---- identifiers ----

#[test]
fn identifier_rules() {
    assert_eq!(validate_identifier(b"FOO_1", 7), Ok(()));
    assert_eq!(validate_identifier(b"ALL", 7), Ok(()));
    assert_eq!(validate_identifier(b"A", 7), Ok(()));
    assert_eq!(validate_identifier(b"FOO_", 7), Ok(()));
    assert_eq!(validate_identifier(b"NOPASSWD", 7), Ok(()));
    let refused = Err(fault(ErrorKind::InvalidIdentifier, 7));
    assert_eq!(validate_identifier(b"_FOO", 7), refused);
    assert_eq!(validate_identifier(b"", 7), refused);
    assert_eq!(validate_identifier(b"1FOO", 7), refused);
    assert_eq!(validate_identifier(b"Foo", 7), refused);
    assert_eq!(validate_identifier(b"FOO-BAR", 7), refused);
}

#[test]
fn reserved_keywords_are_refused_but_all() {
    for keyword in ["CHROOT", "CWD", "NOTAFTER", "NOTBEFORE", "ROLE", "TIMEOUT", "TYPE"] {
        assert!(check_reserved(keyword.as_bytes()));
        assert_eq!(
            validate_identifier(keyword.as_bytes(), 3),
            Err(fault(ErrorKind::InvalidIdentifier, 3))
        );
    }
    assert!(check_reserved(b"ALL"));
    assert!(!check_reserved(b"ALLX"));
    assert!(!check_reserved(b"PASSWD"));
    assert!(check_alias_shaped(b"CHROOT"));
    assert!(!check_alias_shaped(b"chroot"));
}

// ---- tokens ----

#[test]
fn tokens_of_a_rule() {
    let tokens = tokenize(b"ALL  web1,ALL=(root:%x) NOPASSWD: !!/bin/ls -l\t/tmp, FOO\r");
    assert_eq!(
        tokens,
        vec![
            Token::All,
            word("web1"),
            Token::Comma,
            Token::All,
            Token::Assign,
            Token::Open,
            word("root"),
            Token::Colon,
            word("%x"),
            Token::Close,
            word("NOPASSWD"),
            Token::Colon,
            Token::Not,
            Token::Not,
            word("/bin/ls"),
            word("-l"),
            word("/tmp"),
            Token::Comma,
            word("FOO"),
        ]
    );
}

#[test]
fn tokens_of_nothing() {
    assert_eq!(tokenize(b""), Vec::<Token>::new());
    assert_eq!(tokenize(b" \t \r"), Vec::<Token>::new());
    assert_eq!(tokenize(b"ALLX ALL"), vec![word("ALLX"), Token::All]);
}

// ---- members and lists ----

#[test]
fn negation_parity() {
    for k in 0..7 {
        let text = format!("{}/bin/ls", "!".repeat(k));
        let tokens = tokenize(text.as_bytes());
        let (member, next) = read_member(&tokens, 0, AliasKind::Cmnd).unwrap();
        assert_eq!(member.negated, k % 2 == 1);
        assert_eq!(member.target, Target::Literal(command("/bin/ls")));
        assert_eq!(next, k + 1);
    }
}

#[test]
fn members_by_kind() {
    let tokens = tokenize(b"%wheel ADMINS ferris ALL /bin/ls -l /tmp");
    assert_eq!(
        read_member(&tokens, 0, AliasKind::User),
        Some((literal(Pattern::Group(b"wheel".to_vec())), 1))
    );
    assert_eq!(
        read_member(&tokens, 0, AliasKind::Host),
        Some((literal(Pattern::Name(b"%wheel".to_vec())), 1))
    );
    assert_eq!(read_member(&tokens, 0, AliasKind::Cmnd), None);
    assert_eq!(read_member(&tokens, 1, AliasKind::Cmnd), Some((reference("ADMINS"), 2)));
    assert_eq!(
        read_member(&tokens, 2, AliasKind::Runas),
        Some((literal(Pattern::Name(b"ferris".to_vec())), 3))
    );
    assert_eq!(read_member(&tokens, 2, AliasKind::Cmnd), None);
    assert_eq!(read_member(&tokens, 3, AliasKind::Cmnd), Some((literal(Pattern::All), 4)));
    assert_eq!(
        read_member(&tokens, 4, AliasKind::Cmnd),
        Some((
            literal(Pattern::Command {
                path: b"/bin/ls".to_vec(),
                args: vec![b"-l".to_vec(), b"/tmp".to_vec()],
            }),
            7
        ))
    );
    assert_eq!(read_member(&tokens, 7, AliasKind::Cmnd), None);
    assert_eq!(read_member(&tokens, 70, AliasKind::Cmnd), None);
}

#[test]
fn list_stops_before_the_next_clause() {
    let tokens = tokenize(b"/bin/a, !B, (root) /bin/c");
    assert_eq!(
        read_list(&tokens, 0, AliasKind::Cmnd),
        Some((vec![literal(command("/bin/a")), not(reference("B"))], 4))
    );
    let tokens = tokenize(b"/bin/a,");
    assert_eq!(read_list(&tokens, 0, AliasKind::Cmnd), None);
}

#[test]
fn tag_lists() {
    let tokens = tokenize(b"NOPASSWD, PASSWD: /bin/ls");
    assert_eq!(read_tags(&tokens, 0), Ok((vec![Tag::Nopasswd, Tag::Passwd], 4)));
    // no colon closes the words: they are no tag list
    let tokens = tokenize(b"NOPASSWD, PASSWD");
    assert_eq!(read_tags(&tokens, 0), Ok((vec![], 0)));
    let tokens = tokenize(b"SETENV: /bin/ls");
    assert_eq!(read_tags(&tokens, 0), Err(ErrorKind::Syntax));
    let tokens = tokenize(b"_NOPASSWD: /bin/ls");
    assert_eq!(read_tags(&tokens, 0), Err(ErrorKind::InvalidIdentifier));
    let tokens = tokenize(b"NOPASSWD, CWD: /bin/ls");
    assert_eq!(read_tags(&tokens, 0), Err(ErrorKind::InvalidIdentifier));
}

#[test]
fn statements() {
    assert_eq!(read_statement(&tokenize(b"   ")), Ok(Statement::Blank));
    assert_eq!(
        read_statement(&tokenize(b"Host_Alias WEB = web1, !web2")),
        Ok(Statement::Alias {
            kind: AliasKind::Host,
            name: b"WEB".to_vec(),
            members: vec![
                literal(Pattern::Name(b"web1".to_vec())),
                not(literal(Pattern::Name(b"web2".to_vec()))),
            ],
        })
    );
    for broken in [
        "Cmnd_Alias",
        "Cmnd_Alias A",
        "Cmnd_Alias A =",
        "Cmnd_Alias A = /bin/ls,",
        "Cmnd_Alias A = /bin/ls )",
        "Cmnd_Alias = /bin/ls",
        "Cmnd_Alias A /bin/ls",
        "ALL",
        "ALL ALL",
        "ALL ALL =",
        "ALL ALL = (root /bin/ls",
        "ALL ALL = (root:) ",
        "ALL ALL = /bin/ls (root) /bin/ls",
        "ALL ALL = () NOPASSWD:",
        "ALL ALL = bin/ls",
    ] {
        assert_eq!(
            read_statement(&tokenize(broken.as_bytes())),
            Err(ErrorKind::Syntax),
            "{}",
            broken
        );
    }
    for misnamed in ["Cmnd_Alias _A = /bin/ls", "User_Alias lower = ferris", "Host_Alias TYPE = a"]
    {
        assert_eq!(
            read_statement(&tokenize(misnamed.as_bytes())),
            Err(ErrorKind::InvalidIdentifier),
            "{}",
            misnamed
        );
    }
}

// ---- the alias table ----

fn table_of(definitions: &[(&str, Vec<SignedMember>)]) -> AliasTable {
    let mut table = AliasTable::new();
    for (name, members) in definitions {
        let members: Vec<SignedMember> = members
            .iter()
            .map(|m| SignedMember {
                negated: m.negated,
                target: match &m.target {
                    Target::Literal(p) => Target::Literal(p.duplicate()),
                    Target::Alias(n) => Target::Alias(n.clone()),
                },
            })
            .collect();
        assert_eq!(table.define(AliasKind::Cmnd, name.as_bytes().to_vec(), members), Ok(()));
    }
    table
}

#[test]
fn flattening_keeps_the_order() {
    let table = table_of(&[
        ("A", vec![literal(command("/x")), reference("B")]),
        ("B", vec![literal(command("/y")), literal(command("/z"))]),
    ]);
    assert_eq!(table.flatten(AliasKind::Cmnd, b"A"), Ok(vec![plus("/x"), plus("/y"), plus("/z")]));
    assert_eq!(table.flatten(AliasKind::Cmnd, b"B"), Ok(vec![plus("/y"), plus("/z")]));
}

#[test]
fn reference_in_the_middle_is_expanded_in_place() {
    let table = table_of(&[
        ("A", vec![literal(command("/x")), reference("B"), literal(command("/w"))]),
        ("B", vec![literal(command("/y")), reference("C")]),
        ("C", vec![literal(command("/z"))]),
    ]);
    assert_eq!(
        table.flatten(AliasKind::Cmnd, b"A"),
        Ok(vec![plus("/x"), plus("/y"), plus("/z"), plus("/w")])
    );
}

#[test]
fn negation_composes_through_references() {
    let table = table_of(&[
        ("A", vec![not(reference("B")), literal(command("/x"))]),
        ("B", vec![literal(command("/y")), not(reference("C"))]),
        ("C", vec![not(literal(command("/z"))), literal(command("/w"))]),
    ]);
    assert_eq!(
        table.flatten(AliasKind::Cmnd, b"A"),
        Ok(vec![minus("/y"), minus("/z"), plus("/w"), plus("/x")])
    );
    assert_eq!(
        table.flatten_list(AliasKind::Cmnd, &vec![not(reference("A"))]),
        Ok(vec![plus("/y"), plus("/z"), minus("/w"), minus("/x")])
    );
}

#[test]
fn an_alias_used_twice_is_expanded_twice() {
    let table = table_of(&[
        ("A", vec![reference("B"), not(reference("B"))]),
        ("B", vec![literal(command("/y"))]),
    ]);
    assert_eq!(table.flatten(AliasKind::Cmnd, b"A"), Ok(vec![plus("/y"), minus("/y")]));
    assert_eq!(table.first_cycle(), None);
}

#[test]
fn undefined_and_cyclic_references() {
    let table = table_of(&[
        ("A", vec![literal(command("/x")), reference("NOWHERE")]),
        ("B", vec![reference("C")]),
        ("C", vec![literal(command("/y")), reference("B")]),
        ("D", vec![reference("D")]),
        ("E", vec![reference("NOWHERE"), reference("E")]),
    ]);
    assert_eq!(table.flatten(AliasKind::Cmnd, b"A"), Err(ErrorKind::UndefinedAlias));
    assert_eq!(table.flatten(AliasKind::Cmnd, b"NOWHERE"), Err(ErrorKind::UndefinedAlias));
    assert_eq!(table.flatten(AliasKind::Cmnd, b"B"), Err(ErrorKind::CyclicAlias));
    assert_eq!(table.flatten(AliasKind::Cmnd, b"C"), Err(ErrorKind::CyclicAlias));
    assert_eq!(table.flatten(AliasKind::Cmnd, b"D"), Err(ErrorKind::CyclicAlias));
    // the first fault in reading order is the one reported
    assert_eq!(table.flatten(AliasKind::Cmnd, b"E"), Err(ErrorKind::UndefinedAlias));
    // other kinds have their own names
    assert_eq!(table.flatten(AliasKind::User, b"B"), Err(ErrorKind::UndefinedAlias));
    assert_eq!(table.first_cycle(), Some(1));
    assert_eq!(table.find(AliasKind::Cmnd, b"C"), Some(2));
    assert_eq!(table.find(AliasKind::Host, b"C"), None);
}

#[test]
fn a_name_is_defined_once_per_kind() {
    let mut table = AliasTable::new();
    assert_eq!(table.define(AliasKind::Cmnd, b"A".to_vec(), vec![literal(command("/x"))]), Ok(()));
    assert_eq!(
        table.define(AliasKind::Cmnd, b"A".to_vec(), vec![literal(command("/y"))]),
        Err(ErrorKind::DuplicateAlias)
    );
    assert_eq!(
        table.define(AliasKind::User, b"A".to_vec(), vec![literal(Pattern::All)]),
        Ok(())
    );
    assert_eq!(table.define_at(AliasKind::Cmnd, b"B".to_vec(), vec![], 9), Ok(()));
    assert_eq!(table.aliases.len(), 3);
    assert_eq!(table.aliases[2].line, 9);
    // the first definition stays
    assert_eq!(table.flatten(AliasKind::Cmnd, b"A"), Ok(vec![plus("/x")]));
}

// ---- matching ----

#[test]
fn what_matches_what() {
    let groups = vec![b"wheel".to_vec(), b"staff".to_vec()];
    let args = vec![b"-l".to_vec()];
    let none: Vec<Vec<u8>> = Vec::new();
    let user = Subject::User { name: b"ferris", groups: &groups };
    let host = Subject::Host(b"web1");
    let run = Subject::Command { path: b"/bin/ls", args: &args };
    let bare = Subject::Command { path: b"/bin/ls", args: &none };

    assert!(is_match(&Pattern::All, &user));
    assert!(is_match(&Pattern::All, &run));
    assert!(is_match(&Pattern::Name(b"ferris".to_vec()), &user));
    assert!(!is_match(&Pattern::Name(b"wheel".to_vec()), &user));
    assert!(is_match(&Pattern::Group(b"staff".to_vec()), &user));
    assert!(!is_match(&Pattern::Group(b"ferris".to_vec()), &user));
    assert!(!is_match(&Pattern::Group(b"web1".to_vec()), &host));
    assert!(is_match(&Pattern::Name(b"web1".to_vec()), &host));
    assert!(is_match(&Pattern::Name(b"root".to_vec()), &Subject::RunasUser(b"root")));
    assert!(is_match(&Pattern::Name(b"root".to_vec()), &Subject::RunasGroup(b"root")));
    assert!(!is_match(&Pattern::Name(b"/bin/ls".to_vec()), &run));
    assert!(!is_match(&command("/bin/ls"), &host));
    // no fixed arguments: any arguments
    assert!(is_match(&command("/bin/ls"), &run));
    assert!(is_match(&command("/bin/ls"), &bare));
    assert!(!is_match(&command("/bin/l"), &run));
    // fixed arguments: exactly those
    let fixed = Pattern::Command { path: b"/bin/ls".to_vec(), args: vec![b"-l".to_vec()] };
    assert!(is_match(&fixed, &run));
    assert!(!is_match(&fixed, &bare));
    let other = Pattern::Command { path: b"/bin/ls".to_vec(), args: vec![b"-a".to_vec()] };
    assert!(!is_match(&other, &run));
}

#[test]
fn last_match_wins() {
    let none: Vec<Vec<u8>> = Vec::new();
    let ls = Subject::Command { path: b"/bin/ls", args: &none };
    assert_eq!(scan(&vec![], &ls), None);
    assert_eq!(scan(&vec![plus("/bin/cat")], &ls), None);
    assert_eq!(scan(&vec![plus("/bin/ls"), minus("/bin/cat")], &ls), Some(false));
    assert_eq!(scan(&vec![plus("/bin/ls"), minus("/bin/ls")], &ls), Some(true));
    assert_eq!(scan(&vec![minus("/bin/ls"), plus("/bin/ls"), plus("/x")], &ls), Some(false));
    let all = FlatEntry { pattern: Pattern::All, negated: true };
    assert_eq!(scan(&vec![plus("/bin/ls"), all], &ls), Some(true));
}

// ---- loading ----

#[test]
fn empty_configuration_denies() {
    for text in ["", "\n", "\n\n  \n\t\n"] {
        let policy = load(text).unwrap();
        assert!(policy.rules.is_empty());
        assert!(policy.aliases.aliases.is_empty());
        assert_eq!(authorize(&policy, &request("root", "root", "/bin/ls")), DENY);
    }
}

#[test]
fn lines_are_counted_from_one() {
    let text = "\nCmnd_Alias A = /bin/ls\n\nALL ALL = A\r\nferris ALL = (ALL) ALL";
    let policy = load(text).unwrap();
    assert_eq!(policy.aliases.aliases.len(), 1);
    assert_eq!(policy.aliases.aliases[0].line, 2);
    assert_eq!(policy.rules.len(), 2);
    assert_eq!(policy.rules[0].source_index, 4);
    assert_eq!(policy.rules[1].source_index, 5);
    assert_eq!(load_bytes(text.as_bytes()).unwrap().rules, policy.rules);
}

#[test]
fn faults_carry_their_line() {
    assert_eq!(load("ALL ALL = /bin/ls\nnonsense").err(), Some(fault(ErrorKind::Syntax, 2)));
    assert_eq!(
        load("\n\nCmnd_Alias _X = /bin/ls").err(),
        Some(fault(ErrorKind::InvalidIdentifier, 3))
    );
    assert_eq!(
        load("Cmnd_Alias X = /bin/ls\nUser_Alias X = ferris\nCmnd_Alias X = /bin/cat\n").err(),
        Some(fault(ErrorKind::DuplicateAlias, 3))
    );
    assert_eq!(
        load("ALL ALL = /bin/ls\nCmnd_Alias A = /bin/ls\nCmnd_Alias B = C\nCmnd_Alias C = !B\n")
            .err(),
        Some(fault(ErrorKind::CyclicAlias, 3))
    );
    assert_eq!(load("Cmnd_Alias A = A").err(), Some(fault(ErrorKind::CyclicAlias, 1)));
    assert_eq!(
        load("ALL ALL = lower: /bin/ls").err(),
        Some(fault(ErrorKind::InvalidIdentifier, 1))
    );
    // the first fault in the text is the one reported
    assert_eq!(
        load("Cmnd_Alias A = A\nALL ALL = (").err(),
        Some(fault(ErrorKind::Syntax, 2))
    );
}

#[test]
fn a_faulty_text_answers_with_its_fault() {
    let ask = request("root", "root", "/bin/ls");
    assert_eq!(
        evaluate("ALL ALL = ALL\nCmnd_Alias A = A", &ask),
        AuthorizationDecision::ConfigError { reason: fault(ErrorKind::CyclicAlias, 2) }
    );
    assert_eq!(evaluate("ALL ALL = ALL\n", &ask), ALLOW);
}

#[test]
fn undefined_reference_disables_only_its_rule() {
    let text = "Cmnd_Alias A = /bin/ls, NOWHERE\n\
                ALL ALL = /bin/cat\n\
                ALL ALL = !/bin/cat, A\n\
                ALL ALL = (NOBODY) /bin/true\n\
                ALL ALL = /bin/ls, (root) MISSING\n\
                GHOSTS ALL = /bin/ls\n";
    let policy = load(text).unwrap();
    // the later rules would deny or allow more, but none of them is usable
    assert_eq!(authorize(&policy, &request("root", "root", "/bin/cat")), ALLOW);
    assert_eq!(authorize(&policy, &request("root", "root", "/bin/ls")), DENY);
    assert_eq!(authorize(&policy, &request("root", "root", "/bin/true")), DENY);
    assert_eq!(
        unusable_rules(&policy),
        vec![
            fault(ErrorKind::UndefinedAlias, 3),
            fault(ErrorKind::UndefinedAlias, 4),
            fault(ErrorKind::UndefinedAlias, 5),
            fault(ErrorKind::UndefinedAlias, 6),
        ]
    );
    assert!(flatten_rule(&policy.aliases, &policy.rules[0]).is_ok());
    assert_eq!(
        flatten_rule(&policy.aliases, &policy.rules[1]).err(),
        Some(fault(ErrorKind::UndefinedAlias, 3))
    );
}

// ---- deciding ----

#[test]
fn alias_grants_its_commands() {
    let text = "Cmnd_Alias G = /usr/bin/true, /usr/bin/ls\nALL ALL=(ALL:ALL) G";
    assert_eq!(evaluate(text, &request("ferris", "root", "/usr/bin/true")), ALLOW);
    assert_eq!(evaluate(text, &request("ferris", "root", "/usr/bin/ls")), ALLOW);
    assert_eq!(evaluate(text, &request("ferris", "root", "/usr/bin/cat")), DENY);
}

#[test]
fn tag_is_carried_to_the_decision() {
    let text = "Cmnd_Alias G = /usr/bin/true, /usr/bin/ls\nALL ALL=(ALL:ALL) NOPASSWD: G";
    assert_eq!(evaluate(text, &request("ferris", "root", "/usr/bin/true")), ALLOW_NOPASSWD);
}

#[test]
fn negated_alias_denies() {
    let text = "Cmnd_Alias G = /usr/bin/true, /usr/bin/ls\nALL ALL=(ALL:ALL) !G";
    assert_eq!(evaluate(text, &request("ferris", "root", "/usr/bin/true")), DENY);
}

#[test]
fn twice_negated_alias_allows() {
    let text = "Cmnd_Alias G = /usr/bin/true, /usr/bin/ls\nALL ALL=(ALL:ALL) !!G";
    assert_eq!(evaluate(text, &request("ferris", "root", "/usr/bin/true")), ALLOW);
    let text = "Cmnd_Alias G = /usr/bin/true, /usr/bin/ls\nALL ALL=(ALL:ALL) !!!G";
    assert_eq!(evaluate(text, &request("ferris", "root", "/usr/bin/true")), DENY);
}

#[test]
fn negation_inside_an_alias() {
    let text = "Cmnd_Alias T=/usr/bin/true\n\
                Cmnd_Alias L=/usr/bin/ls\n\
                Cmnd_Alias BAZ = T, !L\n\
                ALL ALL=(ALL:ALL) BAZ";
    assert_eq!(evaluate(text, &request("ferris", "root", "/usr/bin/true")), ALLOW);
    assert_eq!(evaluate(text, &request("ferris", "root", "/usr/bin/ls")), DENY);
}

#[test]
fn clauses_for_distinct_targets() {
    let text = "Cmnd_Alias T=/usr/bin/true\n\
                Cmnd_Alias L=/usr/bin/ls\n\
                ALL ALL=(root) L, (ferris) T";
    assert_eq!(evaluate(text, &request("root", "root", "/usr/bin/ls")), ALLOW);
    assert_eq!(evaluate(text, &request("root", "ferris", "/usr/bin/ls")), DENY);
    assert_eq!(evaluate(text, &request("root", "ferris", "/usr/bin/true")), ALLOW);
    assert_eq!(evaluate(text, &request("root", "root", "/usr/bin/true")), DENY);
}

#[test]
fn same_command_for_two_targets() {
    for text in [
        "ALL ALL = (root) /bin/ls, (ferris) /bin/ls",
        "ALL ALL = (ferris) /bin/ls, (root) /bin/ls",
        "ALL ALL = (root) /bin/ls\nALL ALL = (ferris) /bin/ls",
    ] {
        assert_eq!(evaluate(text, &request("x", "root", "/bin/ls")), ALLOW);
        assert_eq!(evaluate(text, &request("x", "ferris", "/bin/ls")), ALLOW);
        assert_eq!(evaluate(text, &request("x", "ghost", "/bin/ls")), DENY);
    }
}

#[test]
fn last_entry_of_a_list_decides() {
    let ask = request("root", "root", "/bin/ls");
    assert_eq!(evaluate("ALL ALL = /bin/ls, !/bin/ls", &ask), DENY);
    assert_eq!(evaluate("ALL ALL = !/bin/ls, /bin/ls", &ask), ALLOW);
    assert_eq!(evaluate("ALL ALL = ALL, !/bin/ls", &ask), DENY);
    assert_eq!(evaluate("ALL ALL = !/bin/ls, ALL", &ask), ALLOW);
    assert_eq!(evaluate("ALL ALL = !ALL", &ask), DENY);
    assert_eq!(evaluate("ALL ALL = /bin/ls, !/bin/cat", &ask), ALLOW);
}

#[test]
fn later_rules_and_clauses_override() {
    let ask = request("root", "root", "/bin/ls");
    assert_eq!(evaluate("ALL ALL = /bin/ls\nALL ALL = !/bin/ls", &ask), DENY);
    assert_eq!(evaluate("ALL ALL = !/bin/ls\nALL ALL = /bin/ls", &ask), ALLOW);
    assert_eq!(evaluate("ALL ALL = /bin/ls\nALL ALL = NOPASSWD: /bin/ls", &ask), ALLOW_NOPASSWD);
    assert_eq!(evaluate("ALL ALL = NOPASSWD: /bin/ls\nALL ALL = /bin/ls", &ask), ALLOW);
    assert_eq!(evaluate("ALL ALL = (root) /bin/ls, (ALL) !/bin/ls", &ask), DENY);
    assert_eq!(evaluate("ALL ALL = (ALL) !/bin/ls, (root) NOPASSWD: /bin/ls", &ask), ALLOW_NOPASSWD);
    // a rule that says nothing of the command leaves the earlier verdict alone
    assert_eq!(evaluate("ALL ALL = /bin/ls\nALL ALL = !/bin/cat", &ask), ALLOW);
    assert_eq!(evaluate("ALL ALL = /bin/ls\nferris ALL = !/bin/ls", &ask), ALLOW);
}

#[test]
fn last_tag_of_a_list_wins() {
    let ask = request("root", "root", "/bin/ls");
    assert_eq!(evaluate("ALL ALL = NOPASSWD, PASSWD: /bin/ls", &ask), ALLOW);
    assert_eq!(evaluate("ALL ALL = PASSWD, NOPASSWD: /bin/ls", &ask), ALLOW_NOPASSWD);
    assert_eq!(evaluate("ALL ALL = PASSWD: /bin/ls", &ask), ALLOW);
    assert_eq!(evaluate("ALL ALL = (root) NOPASSWD: !/bin/ls", &ask), DENY);
}

#[test]
fn absent_runas_clause_means_root() {
    for text in ["ALL ALL = /bin/ls", "ALL ALL = () /bin/ls", "ALL ALL = (:) /bin/ls"] {
        assert_eq!(evaluate(text, &request("ferris", "root", "/bin/ls")), ALLOW);
        assert_eq!(evaluate(text, &request("ferris", "ferris", "/bin/ls")), DENY);
        assert_eq!(
            evaluate(text, &request("ferris", "root", "/bin/ls").with_target_group("root")),
            ALLOW
        );
        assert_eq!(
            evaluate(text, &request("ferris", "root", "/bin/ls").with_target_group("wheel")),
            DENY
        );
    }
}

#[test]
fn runas_group_list() {
    let text = "Runas_Alias OPS = wheel, !staff\nALL ALL = (ferris, root : OPS, adm) /bin/ls";
    let ask = |target: &str| request("x", target, "/bin/ls");
    assert_eq!(evaluate(text, &ask("ferris")), ALLOW);
    assert_eq!(evaluate(text, &ask("ferris").with_target_group("wheel")), ALLOW);
    assert_eq!(evaluate(text, &ask("root").with_target_group("adm")), ALLOW);
    assert_eq!(evaluate(text, &ask("root").with_target_group("staff")), DENY);
    assert_eq!(evaluate(text, &ask("root").with_target_group("root")), DENY);
    assert_eq!(evaluate(text, &ask("ghost").with_target_group("wheel")), DENY);
    // only groups are named: the user is root
    let text = "ALL ALL = (:wheel) /bin/ls";
    assert_eq!(evaluate(text, &ask("root").with_target_group("wheel")), ALLOW);
    assert_eq!(evaluate(text, &ask("ferris").with_target_group("wheel")), DENY);
}

#[test]
fn user_and_host_lists() {
    let text = "User_Alias ADMINS = ferris, %wheel, !mallory\n\
                Host_Alias WEB = web1, web2\n\
                ADMINS WEB, !web2 = /bin/ls";
    let ask = |user: &str, host: &str| AuthorizationRequest::new(user, "root", host, "/bin/ls");
    assert_eq!(evaluate(text, &ask("ferris", "web1")), ALLOW);
    assert_eq!(evaluate(text, &ask("ferris", "web2")), DENY);
    assert_eq!(evaluate(text, &ask("ferris", "db1")), DENY);
    assert_eq!(evaluate(text, &ask("alice", "web1")), DENY);
    assert_eq!(evaluate(text, &ask("alice", "web1").with_group_membership("wheel")), ALLOW);
    assert_eq!(
        evaluate(text, &ask("alice", "web1").with_group_membership("staff").with_group_membership("wheel")),
        ALLOW
    );
    assert_eq!(evaluate(text, &ask("mallory", "web1").with_group_membership("wheel")), DENY);
    // a user alias is no host alias
    assert_eq!(evaluate("User_Alias X = ferris\nferris X = /bin/ls", &ask("ferris", "web1")), DENY);
}

#[test]
fn fixed_arguments() {
    let text = "ALL ALL = /bin/ls -l /tmp, /bin/cat";
    let ls = || request("root", "root", "/bin/ls");
    assert_eq!(evaluate(text, &ls().with_argument("-l").with_argument("/tmp")), ALLOW);
    assert_eq!(evaluate(text, &ls().with_argument("-l")), DENY);
    assert_eq!(evaluate(text, &ls()), DENY);
    assert_eq!(evaluate(text, &ls().with_argument("/tmp").with_argument("-l")), DENY);
    assert_eq!(
        evaluate(text, &request("root", "root", "/bin/cat").with_argument("/etc/passwd")),
        ALLOW
    );
    // ALL among the arguments is a word like any other
    let text = "ALL ALL = /bin/echo ALL";
    assert_eq!(evaluate(text, &request("root", "root", "/bin/echo").with_argument("ALL")), ALLOW);
    assert_eq!(evaluate(text, &request("root", "root", "/bin/echo").with_argument("x")), DENY);
}

#[test]
fn alias_named_all() {
    // the name is accepted, but in a list ALL stays the keyword
    let text = "Cmnd_Alias ALL = /bin/ls\nALL ALL = ALL";
    let policy = load(text).unwrap();
    assert_eq!(policy.aliases.flatten(AliasKind::Cmnd, b"ALL"), Ok(vec![plus("/bin/ls")]));
    assert_eq!(authorize(&policy, &request("root", "root", "/bin/cat")), ALLOW);
}

// ---- listing ----

#[test]
fn permissions_of_a_user() {
    let text = "Cmnd_Alias A = /bin/ls, !/bin/cat\n\
                ferris ALL = (root) A, (ALL : wheel) NOPASSWD: /bin/true\n\
                alice ALL = ALL\n\
                %staff web1 = !A\n\
                ferris ALL = MISSING\n";
    let policy = load(text).unwrap();
    let none: Vec<Vec<u8>> = Vec::new();
    let root = || FlatEntry { pattern: Pattern::Name(b"root".to_vec()), negated: false };
    let first = Grant {
        source_index: 2,
        runas_user_list: vec![root()],
        runas_group_list: vec![root()],
        nopasswd: false,
        cmnd_list: vec![plus("/bin/ls"), minus("/bin/cat")],
    };
    let second = Grant {
        source_index: 2,
        runas_user_list: vec![FlatEntry { pattern: Pattern::All, negated: false }],
        runas_group_list: vec![FlatEntry { pattern: Pattern::Name(b"wheel".to_vec()), negated: false }],
        nopasswd: true,
        cmnd_list: vec![plus("/bin/true")],
    };
    let third = Grant {
        source_index: 4,
        runas_user_list: vec![root()],
        runas_group_list: vec![root()],
        nopasswd: false,
        cmnd_list: vec![minus("/bin/ls"), plus("/bin/cat")],
    };
    assert_eq!(list_permissions(&policy, b"ferris", &none), vec![first, second]);
    assert_eq!(list_permissions(&policy, b"bob", &vec![b"staff".to_vec()]), vec![third]);
    assert_eq!(list_permissions(&policy, b"bob", &none), vec![]);
    assert_eq!(list_permissions(&policy, b"alice", &none).len(), 1);
}
