use vstd::prelude::*;
use vstd::slice::slice_subrange;
use vstd::string::StringSliceAdditionalSpecFns;
use crate::alias::{
    alias_is_sound, find_alias, first_cycle_from, lemma_find_alias, unique_names, AliasTable,
};
use crate::cycle_laws::{has_cycle, lemma_acyclic_iff_no_cycle};
use crate::model::{AliasModel, ConfigError, ErrorKind};
use crate::parser::{
    lemma_statement_faults, parse_statement, read_statement, Statement, StatementModel,
};
use crate::policy::{authorize, in_source_order, PolicyModel, PolicyView};
use crate::rule::{
    decide, AuthorizationDecision, AuthorizationRequest, PermissionRule, RequestModel, RuleModel,
};
use crate::token::{lex, tokenize};

verus! {

/// The number of bytes from `from` to the end of its line, the line feed not counted.
pub open spec fn line_len(text: Seq<u8>, from: int) -> nat
    decreases text.len() - from,
{
    if 0 <= from < text.len() && text[from] != 0x0a {
        1 + line_len(text, from + 1)
    } else {
        0
    }
}

/// A line ends within the text.
pub proof fn lemma_line_len_bound(text: Seq<u8>, from: int)
    requires
        0 <= from <= text.len(),
    ensures
        from + line_len(text, from) <= text.len(),
    decreases text.len() - from,
{
    if from < text.len() && text[from] != 0x0a {
        lemma_line_len_bound(text, from + 1);
    }
}

/// What the line that starts at `from` says.
pub open spec fn statement_at(text: Seq<u8>, from: int) -> Result<StatementModel, ErrorKind> {
    parse_statement(lex(text.subrange(from, from + line_len(text, from)), 0))
}

/// The aliases and rules once what a line says is added to them: a definition adds an
/// alias, unless its name is taken in its kind, and a rule adds a rule.
pub open spec fn applied(
    said: StatementModel,
    line: usize,
    aliases: Seq<AliasModel>,
    rules: Seq<RuleModel>,
) -> Result<PolicyView, ConfigError> {
    match said {
        StatementModel::Blank => Ok(PolicyView { aliases, rules }),
        StatementModel::Alias { kind, name, members } => if find_alias(aliases, kind, name)
            is Some {
            Err(ConfigError { kind: ErrorKind::DuplicateAlias, line })
        } else {
            Ok(
                PolicyView {
                    aliases: aliases.push(AliasModel { kind, name, members, line }),
                    rules,
                },
            )
        },
        StatementModel::Rule { user_list, host_list, specs } => Ok(
            PolicyView {
                aliases,
                rules: rules.push(RuleModel { user_list, host_list, specs, source_index: line }),
            },
        ),
    }
}

/// The configuration that the lines from `from` on add to `aliases` and `rules`, `line`
/// being the number of the line at `from`.
///
/// A line that cannot be read, and a definition of a name that is taken in its kind, end
/// the load with the number of the line.
pub open spec fn load_lines(
    text: Seq<u8>,
    from: int,
    line: int,
    aliases: Seq<AliasModel>,
    rules: Seq<RuleModel>,
) -> Result<PolicyView, ConfigError>
    decreases text.len() + 1 - from,
{
    if from < 0 || from >= text.len() {
        Ok(PolicyView { aliases, rules })
    } else {
        let next = from + line_len(text, from) + 1;
        proof {
            lemma_line_len_bound(text, from);
        }
        match statement_at(text, from) {
            Err(kind) => Err(ConfigError { kind, line: line as usize }),
            Ok(said) => match applied(said, line as usize, aliases, rules) {
                Err(e) => Err(e),
                Ok(view) => load_lines(text, next, line + 1, view.aliases, view.rules),
            },
        }
    }
}

/// The configuration that a text holds.
///
/// The lines are read in order, from line 1. Once all are read, the first alias from which
/// a cycle is reached, if there is one, ends the load with the line of its definition.
pub open spec fn load_text(text: Seq<u8>) -> Result<PolicyView, ConfigError> {
    match load_lines(text, 0, 1, Seq::empty(), Seq::empty()) {
        Err(e) => Err(e),
        Ok(view) => match first_cycle_from(view.aliases, 0) {
            Some(i) => Err(
                ConfigError { kind: ErrorKind::CyclicAlias, line: view.aliases[i].line },
            ),
            None => Ok(view),
        },
    }
}

/// What an executable result of loading stands for.
pub open spec fn loaded_view(r: Result<PolicyModel, ConfigError>) -> Result<
    PolicyView,
    ConfigError,
> {
    match r {
        Ok(model) => Ok(model.deep_view()),
        Err(e) => Err(e),
    }
}

/// The decision on a request against a configuration text: a text that does not load
/// answers every request with its fault.
pub open spec fn evaluate_text(text: Seq<u8>, request: RequestModel) -> AuthorizationDecision {
    match load_text(text) {
        Ok(view) => decide(view.aliases, view.rules, request),
        Err(reason) => AuthorizationDecision::ConfigError { reason },
    }
}

/// Finds the end of the line that starts at `from`.
fn line_end(text: &[u8], from: usize) -> (end: usize)
    requires
        from <= text.len(),
    ensures
        end == from + line_len(text@, from as int),
        from <= end <= text.len(),
{
    let mut end: usize = from;
    while end < text.len() && text[end] != 0x0a
        invariant
            from <= end <= text.len(),
            line_len(text@, from as int) == (end - from) + line_len(text@, end as int),
        decreases text.len() - end,
    {
        end += 1;
    }
    end
}

/// Reads what the line from `from` to `end` says.
fn read_line(text: &[u8], from: usize, end: usize) -> (out: Result<Statement, ErrorKind>)
    requires
        from <= end <= text.len(),
        end == from + line_len(text@, from as int),
    ensures
        match out {
            Ok(statement) => statement_at(text@, from as int) == Ok::<StatementModel, ErrorKind>(
                statement.deep_view(),
            ),
            Err(e) => statement_at(text@, from as int) == Err::<StatementModel, ErrorKind>(e),
        },
{
    let tokens = tokenize(slice_subrange(text, from, end));
    read_statement(&tokens)
}

/// Adds what a line says to the aliases and rules read so far.
fn apply(
    aliases: &mut AliasTable,
    rules: &mut Vec<PermissionRule>,
    statement: Statement,
    line: usize,
) -> (out: Result<(), ConfigError>)
    requires
        unique_names(old(aliases).deep_view()),
    ensures
        unique_names(final(aliases).deep_view()),
        applied(
            statement.deep_view(),
            line,
            old(aliases).deep_view(),
            old(rules).deep_view(),
        ) == (match out {
            Ok(_) => Ok::<PolicyView, ConfigError>(
                PolicyView { aliases: final(aliases).deep_view(), rules: final(rules).deep_view() },
            ),
            Err(e) => Err::<PolicyView, ConfigError>(e),
        }),
{
    match statement {
        Statement::Blank => Ok(()),
        Statement::Alias { kind, name, members } => {
            if aliases.define_at(kind, name, members, line).is_err() {
                Err(ConfigError { kind: ErrorKind::DuplicateAlias, line })
            } else {
                Ok(())
            }
        },
        Statement::Rule { user_list, host_list, specs } => {
            let ghost before = rules.deep_view();
            let rule = PermissionRule { user_list, host_list, specs, source_index: line };
            let ghost r = rule.deep_view();
            rules.push(rule);
            proof {
                assert(rules.deep_view() =~= before.push(r));
            }
            Ok(())
        },
    }
}

/// Adding a rule of a later line keeps the rules in the order of their lines.
proof fn lemma_push_in_order(rules: Seq<RuleModel>, rule: RuleModel)
    requires
        in_source_order(rules),
        forall|k: int| 0 <= k < rules.len() ==> (#[trigger] rules[k]).source_index
            < rule.source_index,
    ensures
        in_source_order(rules.push(rule)),
{
    let grown = rules.push(rule);
    assert forall|i: int, j: int| 0 <= i < j < grown.len() implies #[trigger] grown[i].source_index
        < #[trigger] grown[j].source_index by {
        assert(grown[i] == rules[i]);
        if j < rules.len() {
            assert(grown[j] == rules[j]);
        }
    }
}

/// Loads a configuration from its bytes.
pub fn load_bytes(text: &[u8]) -> (out: Result<PolicyModel, ConfigError>)
    ensures
        loaded_view(out) == load_text(text@),
        out matches Ok(model) ==> model.deep_view().wf(),
{
    let ghost whole = load_lines(text@, 0, 1, Seq::empty(), Seq::empty());
    let mut aliases = AliasTable::new();
    let mut rules: Vec<PermissionRule> = Vec::new();
    let mut from: usize = 0;
    let mut line: usize = 0;
    let ghost mut at: int = 0;
    proof {
        assert(rules.deep_view() =~= Seq::<RuleModel>::empty());
    }
    while from < text.len()
        invariant
            from <= text.len(),
            line <= from,
            from == at || (from == text.len() && at == text.len() + 1),
            whole == load_lines(text@, 0, 1, Seq::empty(), Seq::empty()),
            whole == load_lines(text@, at, line + 1, aliases.deep_view(), rules.deep_view()),
            unique_names(aliases.deep_view()),
            in_source_order(rules.deep_view()),
            forall|k: int|
                0 <= k < rules.deep_view().len() ==> (#[trigger] rules.deep_view()[k]).source_index
                    <= line,
        decreases text.len() - from,
    {
        line += 1;
        let end = line_end(text, from);
        let ghost old_rules = rules.deep_view();
        let statement = match read_line(text, from, end) {
            Err(kind) => {
                return Err(ConfigError { kind, line });
            },
            Ok(statement) => statement,
        };
        let ghost said = statement.deep_view();
        match apply(&mut aliases, &mut rules, statement, line) {
            Err(e) => {
                return Err(e);
            },
            Ok(_) => {},
        }
        proof {
            at = end + 1;
            if said is Rule {
                lemma_push_in_order(
                    old_rules,
                    RuleModel {
                        user_list: said->user_list,
                        host_list: said->host_list,
                        specs: said->specs,
                        source_index: line,
                    },
                );
            }
        }
        from = if end < text.len() {
            end + 1
        } else {
            end
        };
    }
    match aliases.first_cycle() {
        Some(i) => {
            proof {
                assert(aliases.deep_view()[i as int] == aliases.aliases@[i as int].deep_view());
            }
            Err(ConfigError { kind: ErrorKind::CyclicAlias, line: aliases.aliases[i].line })
        },
        None => Ok(PolicyModel { aliases, rules }),
    }
}

/// Loads a configuration from its text.
///
/// The result is the configuration that the text holds, with no name defined twice, no
/// alias that reaches itself, and the rules in the order of their lines; or the first fault,
/// with its line.
pub fn load(config_text: &str) -> (out: Result<PolicyModel, ConfigError>)
    ensures
        loaded_view(out) == load_text(config_text.spec_bytes()),
        out matches Ok(model) ==> model.deep_view().wf(),
{
    load_bytes(config_text.as_bytes())
}

/// Decides a request against a configuration text.
pub fn evaluate(config_text: &str, request: &AuthorizationRequest) -> (out: AuthorizationDecision)
    ensures
        out == evaluate_text(config_text.spec_bytes(), request.deep_view()),
{
    match load(config_text) {
        Ok(model) => authorize(&model, request),
        Err(reason) => AuthorizationDecision::ConfigError { reason },
    }
}

proof fn lemma_lines_faults(
    text: Seq<u8>,
    from: int,
    line: int,
    aliases: Seq<AliasModel>,
    rules: Seq<RuleModel>,
)
    ensures
        load_lines(text, from, line, aliases, rules) matches Err(e) ==> e.kind
            == ErrorKind::Syntax || e.kind == ErrorKind::InvalidIdentifier || e.kind
            == ErrorKind::DuplicateAlias,
    decreases text.len() + 1 - from,
{
    if !(from < 0 || from >= text.len()) {
        let next = from + line_len(text, from) + 1;
        lemma_line_len_bound(text, from);
        lemma_statement_faults(lex(text.subrange(from, from + line_len(text, from)), 0));
        match statement_at(text, from) {
            Err(kind) => {},
            Ok(said) => match applied(said, line as usize, aliases, rules) {
                Err(e) => {},
                Ok(view) => {
                    lemma_lines_faults(text, next, line + 1, view.aliases, view.rules);
                },
            },
        }
    }
}

/// A text fails to load for its syntax, for an identifier, for a name defined twice or for
/// a cycle; a reference to a name that is not defined never fails the load.
pub proof fn lemma_load_faults(text: Seq<u8>)
    ensures
        load_text(text) matches Err(e) ==> e.kind != ErrorKind::UndefinedAlias,
{
    lemma_lines_faults(text, 0, 1, Seq::empty(), Seq::empty());
}

/// A text fails to load for a cycle exactly where its lines are read without a fault and
/// one of the aliases they define reaches itself; and in what a text loads to, no alias
/// reaches itself.
pub proof fn lemma_load_cycles(text: Seq<u8>)
    ensures
        (load_text(text) matches Err(e) && e.kind == ErrorKind::CyclicAlias) <==> (load_lines(
            text,
            0,
            1,
            Seq::empty(),
            Seq::empty(),
        ) matches Ok(view) && has_cycle(view.aliases)),
        load_text(text) matches Ok(view) ==> !has_cycle(view.aliases),
{
    lemma_lines_faults(text, 0, 1, Seq::empty(), Seq::empty());
    match load_lines(text, 0, 1, Seq::empty(), Seq::empty()) {
        Ok(view) => {
            lemma_acyclic_iff_no_cycle(view.aliases);
            lemma_first_cycle(view.aliases, 0);
        },
        Err(e) => {},
    }
}

proof fn lemma_first_cycle(table: Seq<AliasModel>, from: int)
    requires
        0 <= from,
    ensures
        first_cycle_from(table, from) is None <==> forall|i: int|
            from <= i < table.len() ==> alias_is_sound(table, i),
    decreases table.len() - from,
{
    if from < table.len() {
        lemma_first_cycle(table, from + 1);
    }
}

proof fn lemma_lines_wf(
    text: Seq<u8>,
    from: int,
    line: int,
    aliases: Seq<AliasModel>,
    rules: Seq<RuleModel>,
)
    requires
        text.len() <= usize::MAX,
        0 <= from,
        1 <= line <= from + 1,
        unique_names(aliases),
        in_source_order(rules),
        forall|k: int| 0 <= k < rules.len() ==> (#[trigger] rules[k]).source_index < line,
    ensures
        load_lines(text, from, line, aliases, rules) matches Ok(view) ==> unique_names(
            view.aliases,
        ) && in_source_order(view.rules),
    decreases text.len() + 1 - from,
{
    if from < text.len() {
        let next = from + line_len(text, from) + 1;
        lemma_line_len_bound(text, from);
        match statement_at(text, from) {
            Err(kind) => {},
            Ok(said) => match applied(said, line as usize, aliases, rules) {
                Err(e) => {},
                Ok(view) => {
                    match said {
                        StatementModel::Blank => {},
                        StatementModel::Alias { kind, name, members } => {
                            lemma_find_alias(aliases, kind, name);
                            assert forall|i: int, j: int|
                                0 <= i < j < view.aliases.len() implies !(
                            #[trigger] view.aliases[i].kind == #[trigger] view.aliases[j].kind
                                && view.aliases[i].name == view.aliases[j].name) by {
                                if j < aliases.len() {
                                    assert(aliases[i].kind == view.aliases[i].kind);
                                    assert(aliases[j].kind == view.aliases[j].kind);
                                }
                            }
                        },
                        StatementModel::Rule { user_list, host_list, specs } => {
                            lemma_push_in_order(
                                rules,
                                RuleModel {
                                    user_list,
                                    host_list,
                                    specs,
                                    source_index: line as usize,
                                },
                            );
                        },
                    }
                    assert forall|k: int| 0 <= k < view.rules.len() implies (
                    #[trigger] view.rules[k]).source_index < line + 1 by {
                        if k < rules.len() {
                            assert(view.rules[k] == rules[k]);
                        }
                    }
                    lemma_lines_wf(text, next, line + 1, view.aliases, view.rules);
                },
            },
        }
    }
}

/// What a text loads to is well-formed: no name is defined twice in a kind, no cycle is
/// reached from any alias, and the rules stand in the order of their lines.
pub proof fn lemma_load_wf(text: Seq<u8>)
    requires
        text.len() <= usize::MAX,
    ensures
        load_text(text) matches Ok(view) ==> view.wf(),
{
    lemma_lines_wf(text, 0, 1, Seq::empty(), Seq::empty());
    match load_lines(text, 0, 1, Seq::empty(), Seq::empty()) {
        Ok(view) => {
            lemma_first_cycle(view.aliases, 0);
        },
        Err(e) => {},
    }
}

} // verus!
