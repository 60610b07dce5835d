use vstd::prelude::*;
use crate::alias::{acyclic, flatten_list, flattened_view, unique_names, AliasTable};
use crate::matching::{last_some, lemma_last_some_push, scan, Subject, SubjectModel};
use crate::model::{
    AliasKind, AliasModel, ConfigError, ErrorKind, FlatEntry, Pattern, SignedMember,
};
use crate::rule::{
    decide, default_runas, flat_rule_of, flat_rule_verdict, grant_fault, grant_of, grant_verdict,
    grant_verdicts, grants_fault, grants_of, nopasswd, permissions, rule_fault, rule_verdicts,
    runas_flat, AuthorizationDecision, AuthorizationRequest, FlatRuleModel, Grant,
    PermissionRule, RuleModel, RunasSpec, Tag, Verdict,
};
use crate::text::copy_bytes;

verus! {

/// A loaded configuration: the alias table and the rules in source order.
#[derive(Debug)]
pub struct PolicyModel {
    pub aliases: AliasTable,
    pub rules: Vec<PermissionRule>,
}

/// What a `PolicyModel` stands for: its aliases in the order of definition and its rules in
/// source order.
pub struct PolicyView {
    pub aliases: Seq<AliasModel>,
    pub rules: Seq<RuleModel>,
}

impl DeepView for PolicyModel {
    type V = PolicyView;

    open spec fn deep_view(&self) -> PolicyView {
        PolicyView { aliases: self.aliases.deep_view(), rules: self.rules.deep_view() }
    }
}

/// The rules stand in the order of their lines.
pub open spec fn in_source_order(rules: Seq<RuleModel>) -> bool {
    forall|i: int, j: int|
        0 <= i < j < rules.len() ==> #[trigger] rules[i].source_index
            < #[trigger] rules[j].source_index
}

impl PolicyView {
    /// What loading establishes: no name is defined twice in a kind, no alias reaches
    /// itself, and the rules stand in the order of their lines.
    pub open spec fn wf(self) -> bool {
        &&& unique_names(self.aliases)
        &&& acyclic(self.aliases)
        &&& in_source_order(self.rules)
    }
}

/// The faults of the unusable rules among `rules`, in source order, each with the line of
/// its rule.
pub open spec fn faults_of(aliases: Seq<AliasModel>, rules: Seq<RuleModel>) -> Seq<ConfigError>
    decreases rules.len(),
{
    if rules.len() == 0 {
        Seq::empty()
    } else {
        let before = faults_of(aliases, rules.drop_last());
        match rule_fault(aliases, rules.last()) {
            Some(kind) => before.push(ConfigError { kind, line: rules.last().source_index }),
            None => before,
        }
    }
}

/// A usable rule with all its lists flattened.
pub struct FlatRule {
    pub user_list: Vec<FlatEntry>,
    pub host_list: Vec<FlatEntry>,
    pub grants: Vec<Grant>,
}

impl DeepView for FlatRule {
    type V = FlatRuleModel;

    open spec fn deep_view(&self) -> FlatRuleModel {
        FlatRuleModel {
            user_list: self.user_list.deep_view(),
            host_list: self.host_list.deep_view(),
            grants: self.grants.deep_view(),
        }
    }
}

/// Flattens a runas list; an empty list stands for `root`.
fn runas_entries(table: &AliasTable, members: &Vec<SignedMember>) -> (out: Result<
    Vec<FlatEntry>,
    ErrorKind,
>)
    ensures
        flattened_view(out) == runas_flat(table.deep_view(), members.deep_view()),
{
    if members.len() == 0 {
        let mut entries: Vec<FlatEntry> = Vec::new();
        entries.push(
            FlatEntry { pattern: Pattern::Name(copy_bytes("root".as_bytes())), negated: false },
        );
        proof {
            assert(entries.deep_view() =~= default_runas());
        }
        Ok(entries)
    } else {
        table.flatten_list(AliasKind::Runas, members)
    }
}

/// Whether a tag list asks for no password.
pub fn is_nopasswd(tag_flags: &Vec<Tag>) -> (out: bool)
    ensures
        out == nopasswd(tag_flags@),
{
    if tag_flags.len() == 0 {
        false
    } else {
        tag_flags[tag_flags.len() - 1] == Tag::Nopasswd
    }
}

/// Flattens the lists of a clause, or names the first fault among them.
pub fn grant_for(table: &AliasTable, spec: &RunasSpec, source_index: usize) -> (out: Result<
    Grant,
    ErrorKind,
>)
    ensures
        match out {
            Ok(grant) => grant_of(table.deep_view(), spec.deep_view(), source_index) == Some(
                grant.deep_view(),
            ) && grant_fault(table.deep_view(), spec.deep_view()) is None,
            Err(e) => grant_of(table.deep_view(), spec.deep_view(), source_index) is None
                && grant_fault(table.deep_view(), spec.deep_view()) == Some(e),
        },
{
    let runas_user_list = match runas_entries(table, &spec.runas_user_list) {
        Ok(entries) => entries,
        Err(e) => {
            return Err(e);
        },
    };
    let runas_group_list = match runas_entries(table, &spec.runas_group_list) {
        Ok(entries) => entries,
        Err(e) => {
            return Err(e);
        },
    };
    let cmnd_list = match table.flatten_list(AliasKind::Cmnd, &spec.cmnd_list) {
        Ok(entries) => entries,
        Err(e) => {
            return Err(e);
        },
    };
    Ok(
        Grant {
            source_index,
            runas_user_list,
            runas_group_list,
            nopasswd: is_nopasswd(&spec.tag_flags),
            cmnd_list,
        },
    )
}

/// Flattens every list of a rule. A rule with a list that cannot be flattened is unusable:
/// the fault is handed out with the line of the rule.
pub fn flatten_rule(table: &AliasTable, rule: &PermissionRule) -> (out: Result<
    FlatRule,
    ConfigError,
>)
    ensures
        match out {
            Ok(flat) => flat_rule_of(table.deep_view(), rule.deep_view()) == Some(
                flat.deep_view(),
            ) && rule_fault(table.deep_view(), rule.deep_view()) is None,
            Err(e) => flat_rule_of(table.deep_view(), rule.deep_view()) is None && rule_fault(
                table.deep_view(),
                rule.deep_view(),
            ) == Some(e.kind) && e.line == rule.source_index,
        },
{
    let user_list = match table.flatten_list(AliasKind::User, &rule.user_list) {
        Ok(entries) => entries,
        Err(kind) => {
            return Err(ConfigError { kind, line: rule.source_index });
        },
    };
    let host_list = match table.flatten_list(AliasKind::Host, &rule.host_list) {
        Ok(entries) => entries,
        Err(kind) => {
            return Err(ConfigError { kind, line: rule.source_index });
        },
    };
    let ghost aliases = table.deep_view();
    let ghost model = rule.deep_view();
    let mut grants: Vec<Grant> = Vec::new();
    let mut k: usize = 0;
    while k < rule.specs.len()
        invariant
            k <= rule.specs.len(),
            aliases == table.deep_view(),
            model == rule.deep_view(),
            grants@.len() == k,
            forall|j: int|
                0 <= j < k ==> grant_of(aliases, #[trigger] model.specs[j], model.source_index)
                    == Some(grants@[j].deep_view()),
            grants_fault(aliases, model.specs, 0) == grants_fault(aliases, model.specs, k as int),
            flatten_list(aliases, AliasKind::User, model.user_list) is Ok,
            flatten_list(aliases, AliasKind::Host, model.host_list) is Ok,
        decreases rule.specs.len() - k,
    {
        proof {
            assert(model.specs[k as int] == rule.specs@[k as int].deep_view());
        }
        match grant_for(table, &rule.specs[k], rule.source_index) {
            Ok(grant) => {
                grants.push(grant);
            },
            Err(kind) => {
                return Err(ConfigError { kind, line: rule.source_index });
            },
        }
        k += 1;
    }
    proof {
        assert(grants.deep_view() =~= grants_of(aliases, model)->Some_0);
    }
    Ok(FlatRule { user_list, host_list, grants })
}

/// The unusable rules of a configuration, in source order: for each, its first fault and
/// its line.
pub fn unusable_rules(model: &PolicyModel) -> (out: Vec<ConfigError>)
    ensures
        out@ == faults_of(model.deep_view().aliases, model.deep_view().rules),
{
    let ghost aliases = model.deep_view().aliases;
    let ghost rules = model.deep_view().rules;
    let mut out: Vec<ConfigError> = Vec::new();
    let mut i: usize = 0;
    proof {
        assert(out@ =~= faults_of(aliases, rules.take(0)));
    }
    while i < model.rules.len()
        invariant
            i <= model.rules.len(),
            aliases == model.deep_view().aliases,
            rules == model.deep_view().rules,
            out@ == faults_of(aliases, rules.take(i as int)),
        decreases model.rules.len() - i,
    {
        proof {
            assert(rules[i as int] == model.rules@[i as int].deep_view());
            assert(rules.take(i as int + 1).drop_last() =~= rules.take(i as int));
            assert(rules.take(i as int + 1).last() == rules[i as int]);
        }
        match flatten_rule(&model.aliases, &model.rules[i]) {
            Ok(_) => {},
            Err(e) => {
                out.push(e);
            },
        }
        i += 1;
    }
    proof {
        assert(rules.take(i as int) =~= rules);
    }
    out
}

/// What a clause says of a request.
pub fn verdict_of_grant(grant: &Grant, request: &AuthorizationRequest) -> (out: Option<Verdict>)
    ensures
        out == grant_verdict(grant.deep_view(), request.deep_view()),
{
    let user = Subject::RunasUser(request.target_user.as_slice());
    match scan(&grant.runas_user_list, &user) {
        Some(false) => {},
        _ => {
            return None;
        },
    }
    match &request.target_group {
        Some(group) => {
            let wanted = Subject::RunasGroup(group.as_slice());
            match scan(&grant.runas_group_list, &wanted) {
                Some(false) => {},
                _ => {
                    return None;
                },
            }
        },
        None => {},
    }
    let command = Subject::Command {
        path: request.command_absolute_path.as_slice(),
        args: &request.command_arguments,
    };
    match scan(&grant.cmnd_list, &command) {
        Some(negated) => Some(Verdict { negated, nopasswd: grant.nopasswd }),
        None => None,
    }
}

/// What a flattened rule says of a request: the verdict of its last clause that has one.
pub fn verdict_of_rule(rule: &FlatRule, request: &AuthorizationRequest) -> (out: Option<Verdict>)
    ensures
        out == flat_rule_verdict(rule.deep_view(), request.deep_view()),
{
    let invoker = Subject::User {
        name: request.invoking_user.as_slice(),
        groups: &request.invoking_group_memberships,
    };
    match scan(&rule.user_list, &invoker) {
        Some(false) => {},
        _ => {
            return None;
        },
    }
    let host = Subject::Host(request.hostname.as_slice());
    match scan(&rule.host_list, &host) {
        Some(false) => {},
        _ => {
            return None;
        },
    }
    let ghost all = grant_verdicts(rule.deep_view().grants, request.deep_view());
    let mut current: Option<Verdict> = None;
    let mut k: usize = 0;
    while k < rule.grants.len()
        invariant
            k <= rule.grants.len(),
            all == grant_verdicts(rule.deep_view().grants, request.deep_view()),
            current == last_some(all.take(k as int)),
        decreases rule.grants.len() - k,
    {
        proof {
            assert(rule.deep_view().grants[k as int] == rule.grants@[k as int].deep_view());
            assert(all.take(k as int + 1) =~= all.take(k as int).push(all[k as int]));
            lemma_last_some_push(all.take(k as int), all[k as int]);
        }
        match verdict_of_grant(&rule.grants[k], request) {
            Some(v) => {
                current = Some(v);
            },
            None => {},
        }
        k += 1;
    }
    proof {
        assert(all.take(k as int) =~= all);
    }
    current
}

/// Decides a request against a loaded configuration.
///
/// The rules are taken in source order. A rule speaks of the request where it is usable and
/// its user and host lists admit the invoking user and the host; within it, a clause speaks
/// where its runas lists admit the target and one of its flattened command entries matches
/// the command. The last clause that speaks decides: a positive entry allows, with the
/// clause's password tag, a negated one denies. Where nothing speaks, the request is denied.
pub fn authorize(model: &PolicyModel, request: &AuthorizationRequest) -> (out:
    AuthorizationDecision)
    ensures
        out == decide(model.deep_view().aliases, model.deep_view().rules, request.deep_view()),
        !(out is ConfigError),
{
    let ghost aliases = model.deep_view().aliases;
    let ghost rules = model.deep_view().rules;
    let ghost all = rule_verdicts(aliases, rules, request.deep_view());
    let mut current: Option<Verdict> = None;
    let mut i: usize = 0;
    while i < model.rules.len()
        invariant
            i <= model.rules.len(),
            aliases == model.deep_view().aliases,
            rules == model.deep_view().rules,
            all == rule_verdicts(aliases, rules, request.deep_view()),
            current == last_some(all.take(i as int)),
        decreases model.rules.len() - i,
    {
        proof {
            assert(rules[i as int] == model.rules@[i as int].deep_view());
            assert(all.take(i as int + 1) =~= all.take(i as int).push(all[i as int]));
            lemma_last_some_push(all.take(i as int), all[i as int]);
        }
        match flatten_rule(&model.aliases, &model.rules[i]) {
            Ok(flat) => match verdict_of_rule(&flat, request) {
                Some(v) => {
                    current = Some(v);
                },
                None => {},
            },
            Err(_) => {},
        }
        i += 1;
    }
    proof {
        assert(all.take(i as int) =~= all);
    }
    match current {
        Some(v) => if v.negated {
            AuthorizationDecision::Deny
        } else {
            AuthorizationDecision::Allow { nopasswd: v.nopasswd }
        },
        None => AuthorizationDecision::Deny,
    }
}

/// The effective grants of a user: the flattened clauses of every usable rule whose user
/// list admits the user, in source order, whatever the host and the command.
pub fn list_permissions(model: &PolicyModel, user: &[u8], groups: &Vec<Vec<u8>>) -> (out: Vec<
    Grant,
>)
    ensures
        out.deep_view() == permissions(
            model.deep_view().aliases,
            model.deep_view().rules,
            SubjectModel::User { name: user@, groups: groups.deep_view() },
        ),
{
    let subject = Subject::User { name: user, groups };
    let ghost who = subject.deep_view();
    let ghost aliases = model.deep_view().aliases;
    let ghost rules = model.deep_view().rules;
    let mut out: Vec<Grant> = Vec::new();
    let mut i: usize = 0;
    proof {
        assert(out.deep_view() =~= permissions(aliases, rules.take(0), who));
    }
    while i < model.rules.len()
        invariant
            i <= model.rules.len(),
            aliases == model.deep_view().aliases,
            rules == model.deep_view().rules,
            who == subject.deep_view(),
            out.deep_view() == permissions(aliases, rules.take(i as int), who),
        decreases model.rules.len() - i,
    {
        let ghost before = out.deep_view();
        proof {
            assert(rules[i as int] == model.rules@[i as int].deep_view());
            assert(rules.take(i as int + 1).drop_last() =~= rules.take(i as int));
            assert(rules.take(i as int + 1).last() == rules[i as int]);
        }
        match flatten_rule(&model.aliases, &model.rules[i]) {
            Ok(flat) => {
                if let Some(false) = scan(&flat.user_list, &subject) {
                    let mut grants = flat.grants;
                    let ghost added = grants.deep_view();
                    out.append(&mut grants);
                    proof {
                        assert(out.deep_view() =~= before + added);
                    }
                } else {
                    proof {
                        assert(before + Seq::empty() =~= before);
                    }
                }
            },
            Err(_) => {
                proof {
                    assert(before + Seq::empty() =~= before);
                }
            },
        }
        i += 1;
    }
    proof {
        assert(rules.take(i as int) =~= rules);
    }
    out
}

} // verus!
