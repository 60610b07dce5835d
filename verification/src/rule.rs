use vstd::prelude::*;
use vstd::string::StringSliceAdditionalSpecFns;
use crate::alias::{acyclic, flatten_list, Flattened};
use crate::flatten_laws::{lemma_acyclic_never_cyclic, lemma_flatten_faults};
use crate::text::copy_bytes;
use crate::matching::{
    admits, last_match, last_some, lemma_last_some_push, lemma_last_some_without, SubjectModel,
};
use crate::model::{
    AliasKind, AliasModel, ConfigError, ErrorKind, FlatEntry, FlatModel, MemberModel,
    PatternModel, SignedMember,
};

verus! {

/// A modifier written before a command list.
#[derive(Clone, Copy, PartialEq, Eq, Structural, Debug)]
pub enum Tag {
    Nopasswd,
    Passwd,
}

/// One `(user:group) TAG: commands` clause of a rule.
#[derive(Debug, PartialEq, Eq)]
pub struct RunasSpec {
    pub runas_user_list: Vec<SignedMember>,
    pub runas_group_list: Vec<SignedMember>,
    pub tag_flags: Vec<Tag>,
    pub cmnd_list: Vec<SignedMember>,
}

/// What a `RunasSpec` stands for.
pub struct SpecModel {
    pub runas_user_list: Seq<MemberModel>,
    pub runas_group_list: Seq<MemberModel>,
    pub tag_flags: Seq<Tag>,
    pub cmnd_list: Seq<MemberModel>,
}

impl DeepView for RunasSpec {
    type V = SpecModel;

    open spec fn deep_view(&self) -> SpecModel {
        SpecModel {
            runas_user_list: self.runas_user_list.deep_view(),
            runas_group_list: self.runas_group_list.deep_view(),
            tag_flags: self.tag_flags@,
            cmnd_list: self.cmnd_list.deep_view(),
        }
    }
}

/// A permission rule: who, on which hosts, may run what as whom. `source_index` is the line
/// of the rule; rules are kept in the order of their lines.
#[derive(Debug, PartialEq, Eq)]
pub struct PermissionRule {
    pub user_list: Vec<SignedMember>,
    pub host_list: Vec<SignedMember>,
    pub specs: Vec<RunasSpec>,
    pub source_index: usize,
}

/// What a `PermissionRule` stands for.
pub struct RuleModel {
    pub user_list: Seq<MemberModel>,
    pub host_list: Seq<MemberModel>,
    pub specs: Seq<SpecModel>,
    pub source_index: usize,
}

impl DeepView for PermissionRule {
    type V = RuleModel;

    open spec fn deep_view(&self) -> RuleModel {
        RuleModel {
            user_list: self.user_list.deep_view(),
            host_list: self.host_list.deep_view(),
            specs: self.specs.deep_view(),
            source_index: self.source_index,
        }
    }
}

/// A request to run a command as another identity.
#[derive(Debug, PartialEq, Eq)]
pub struct AuthorizationRequest {
    pub invoking_user: Vec<u8>,
    pub invoking_group_memberships: Vec<Vec<u8>>,
    pub target_user: Vec<u8>,
    /// `None` asks for the primary group of the target user.
    pub target_group: Option<Vec<u8>>,
    pub hostname: Vec<u8>,
    pub command_absolute_path: Vec<u8>,
    pub command_arguments: Vec<Vec<u8>>,
}

/// What an `AuthorizationRequest` stands for.
pub struct RequestModel {
    pub invoking_user: Seq<u8>,
    pub invoking_group_memberships: Seq<Seq<u8>>,
    pub target_user: Seq<u8>,
    pub target_group: Option<Seq<u8>>,
    pub hostname: Seq<u8>,
    pub command_absolute_path: Seq<u8>,
    pub command_arguments: Seq<Seq<u8>>,
}

impl DeepView for AuthorizationRequest {
    type V = RequestModel;

    open spec fn deep_view(&self) -> RequestModel {
        RequestModel {
            invoking_user: self.invoking_user@,
            invoking_group_memberships: self.invoking_group_memberships.deep_view(),
            target_user: self.target_user@,
            target_group: match self.target_group {
                Some(group) => Some(group@),
                None => None,
            },
            hostname: self.hostname@,
            command_absolute_path: self.command_absolute_path@,
            command_arguments: self.command_arguments.deep_view(),
        }
    }
}

/// The answer to a request.
#[derive(Clone, Copy, PartialEq, Eq, Structural, Debug)]
pub enum AuthorizationDecision {
    Allow { nopasswd: bool },
    Deny,
    ConfigError { reason: ConfigError },
}

/// What one clause says of a request: the sign of the last command entry that matches, and
/// whether the clause asks for no password.
#[derive(Clone, Copy, PartialEq, Eq, Structural, Debug)]
pub struct Verdict {
    pub negated: bool,
    pub nopasswd: bool,
}

/// A clause of a usable rule with its lists flattened: as whom, with or without a password,
/// which commands.
#[derive(Debug, PartialEq, Eq)]
pub struct Grant {
    pub source_index: usize,
    pub runas_user_list: Vec<FlatEntry>,
    pub runas_group_list: Vec<FlatEntry>,
    pub nopasswd: bool,
    pub cmnd_list: Vec<FlatEntry>,
}

/// What a `Grant` stands for.
pub struct GrantModel {
    pub source_index: usize,
    pub runas_user_list: Seq<FlatModel>,
    pub runas_group_list: Seq<FlatModel>,
    pub nopasswd: bool,
    pub cmnd_list: Seq<FlatModel>,
}

impl DeepView for Grant {
    type V = GrantModel;

    open spec fn deep_view(&self) -> GrantModel {
        GrantModel {
            source_index: self.source_index,
            runas_user_list: self.runas_user_list.deep_view(),
            runas_group_list: self.runas_group_list.deep_view(),
            nopasswd: self.nopasswd,
            cmnd_list: self.cmnd_list.deep_view(),
        }
    }
}

/// A usable rule with all its lists flattened.
pub struct FlatRuleModel {
    pub user_list: Seq<FlatModel>,
    pub host_list: Seq<FlatModel>,
    pub grants: Seq<GrantModel>,
}

/// The name that an empty runas list stands for.
pub open spec fn root_name() -> Seq<u8> {
    "root".spec_bytes()
}

/// What an empty runas list stands for: `root` and nobody else.
pub open spec fn default_runas() -> Seq<FlatModel> {
    seq![FlatModel { pattern: PatternModel::Name(root_name()), negated: false }]
}

/// The flattening of a runas list, an empty list standing for `root`.
pub open spec fn runas_flat(table: Seq<AliasModel>, members: Seq<MemberModel>) -> Flattened {
    if members.len() == 0 {
        Ok(default_runas())
    } else {
        flatten_list(table, AliasKind::Runas, members)
    }
}

/// Whether a tag list asks for no password: the last tag decides, and without a tag a
/// password is asked for.
pub open spec fn nopasswd(tag_flags: Seq<Tag>) -> bool {
    tag_flags.len() > 0 && tag_flags.last() == Tag::Nopasswd
}

/// The clause with its lists flattened; `None` where one of them holds a reference that
/// cannot be resolved.
pub open spec fn grant_of(table: Seq<AliasModel>, spec: SpecModel, source_index: usize) -> Option<
    GrantModel,
> {
    match (
        runas_flat(table, spec.runas_user_list),
        runas_flat(table, spec.runas_group_list),
        flatten_list(table, AliasKind::Cmnd, spec.cmnd_list),
    ) {
        (Ok(runas_user_list), Ok(runas_group_list), Ok(cmnd_list)) => Some(
            GrantModel {
                source_index,
                runas_user_list,
                runas_group_list,
                nopasswd: nopasswd(spec.tag_flags),
                cmnd_list,
            },
        ),
        _ => None,
    }
}

/// The clauses of a rule, flattened, in the order in which they are written; `None` where one
/// of them cannot be flattened.
pub open spec fn grants_of(table: Seq<AliasModel>, rule: RuleModel) -> Option<Seq<GrantModel>> {
    if forall|k: int|
        0 <= k < rule.specs.len() ==> grant_of(table, #[trigger] rule.specs[k], rule.source_index)
            is Some {
        Some(
            Seq::new(
                rule.specs.len(),
                |k: int| grant_of(table, rule.specs[k], rule.source_index)->Some_0,
            ),
        )
    } else {
        None
    }
}

/// The rule with every list flattened; `None` where the rule is unusable, that is where any
/// of its lists holds a reference that cannot be resolved.
pub open spec fn flat_rule_of(table: Seq<AliasModel>, rule: RuleModel) -> Option<FlatRuleModel> {
    match (
        flatten_list(table, AliasKind::User, rule.user_list),
        flatten_list(table, AliasKind::Host, rule.host_list),
        grants_of(table, rule),
    ) {
        (Ok(user_list), Ok(host_list), Some(grants)) => Some(FlatRuleModel { user_list, host_list, grants }),
        _ => None,
    }
}

/// The first fault among the lists of a clause: its runas users, its runas groups, its
/// commands.
pub open spec fn grant_fault(table: Seq<AliasModel>, spec: SpecModel) -> Option<ErrorKind> {
    match runas_flat(table, spec.runas_user_list) {
        Err(e) => Some(e),
        Ok(_) => match runas_flat(table, spec.runas_group_list) {
            Err(e) => Some(e),
            Ok(_) => match flatten_list(table, AliasKind::Cmnd, spec.cmnd_list) {
                Err(e) => Some(e),
                Ok(_) => None,
            },
        },
    }
}

/// The first fault among the clauses from `from` on.
pub open spec fn grants_fault(table: Seq<AliasModel>, specs: Seq<SpecModel>, from: int) -> Option<
    ErrorKind,
>
    decreases specs.len() - from,
{
    if from < 0 || from >= specs.len() {
        None
    } else {
        match grant_fault(table, specs[from]) {
            Some(e) => Some(e),
            None => grants_fault(table, specs, from + 1),
        }
    }
}

/// What makes a rule unusable: the first fault among its lists, in the order in which they
/// are written. `None` for a usable rule.
pub open spec fn rule_fault(table: Seq<AliasModel>, rule: RuleModel) -> Option<ErrorKind> {
    match flatten_list(table, AliasKind::User, rule.user_list) {
        Err(e) => Some(e),
        Ok(_) => match flatten_list(table, AliasKind::Host, rule.host_list) {
            Err(e) => Some(e),
            Ok(_) => grants_fault(table, rule.specs, 0),
        },
    }
}

proof fn lemma_grants_fault(table: Seq<AliasModel>, rule: RuleModel, from: int)
    requires
        0 <= from,
    ensures
        grants_fault(table, rule.specs, from) is None <==> forall|k: int|
            from <= k < rule.specs.len() ==> grant_of(
                table,
                #[trigger] rule.specs[k],
                rule.source_index,
            ) is Some,
        grants_fault(table, rule.specs, from) matches Some(e) ==> e == ErrorKind::CyclicAlias
            || e == ErrorKind::UndefinedAlias,
        acyclic(table) ==> grants_fault(table, rule.specs, from) != Some(ErrorKind::CyclicAlias),
    decreases rule.specs.len() - from,
{
    if from < rule.specs.len() {
        let spec = rule.specs[from];
        lemma_grants_fault(table, rule, from + 1);
        lemma_flatten_faults(table, AliasKind::Runas, spec.runas_user_list, 0, false, Seq::empty(), true);
        lemma_flatten_faults(table, AliasKind::Runas, spec.runas_group_list, 0, false, Seq::empty(), true);
        lemma_flatten_faults(table, AliasKind::Cmnd, spec.cmnd_list, 0, false, Seq::empty(), true);
        if acyclic(table) {
            lemma_acyclic_never_cyclic(table, AliasKind::Runas, spec.runas_user_list);
            lemma_acyclic_never_cyclic(table, AliasKind::Runas, spec.runas_group_list);
            lemma_acyclic_never_cyclic(table, AliasKind::Cmnd, spec.cmnd_list);
        }
        if grant_fault(table, spec) is None {
            assert(grant_of(table, spec, rule.source_index) is Some);
            if grants_fault(table, rule.specs, from + 1) is None {
                assert forall|k: int| from <= k < rule.specs.len() implies grant_of(
                    table,
                    #[trigger] rule.specs[k],
                    rule.source_index,
                ) is Some by {
                    if k > from {
                    }
                }
            }
        } else {
            assert(grant_of(table, rule.specs[from], rule.source_index) is None);
        }
    }
}

/// A rule is unusable exactly where one of its lists cannot be flattened; the fault is a
/// cycle or a name that is not defined, and once no alias reaches itself it is a name that
/// is not defined.
pub proof fn lemma_rule_fault(table: Seq<AliasModel>, rule: RuleModel)
    ensures
        rule_fault(table, rule) is None <==> flat_rule_of(table, rule) is Some,
        rule_fault(table, rule) matches Some(e) ==> e == ErrorKind::CyclicAlias || e
            == ErrorKind::UndefinedAlias,
        acyclic(table) ==> rule_fault(table, rule) is None || rule_fault(table, rule) == Some(
            ErrorKind::UndefinedAlias,
        ),
{
    lemma_grants_fault(table, rule, 0);
    lemma_flatten_faults(table, AliasKind::User, rule.user_list, 0, false, Seq::empty(), true);
    lemma_flatten_faults(table, AliasKind::Host, rule.host_list, 0, false, Seq::empty(), true);
    if acyclic(table) {
        lemma_acyclic_never_cyclic(table, AliasKind::User, rule.user_list);
        lemma_acyclic_never_cyclic(table, AliasKind::Host, rule.host_list);
    }
}

/// Who invokes, with the groups they are in.
pub open spec fn invoker_of(request: RequestModel) -> SubjectModel {
    SubjectModel::User {
        name: request.invoking_user,
        groups: request.invoking_group_memberships,
    }
}

/// The command that is asked for, with its arguments.
pub open spec fn command_of(request: RequestModel) -> SubjectModel {
    SubjectModel::Command {
        path: request.command_absolute_path,
        args: request.command_arguments,
    }
}

/// Whether the clause is for the target of the request: its user list admits the target
/// user, and its group list admits the target group where the request names one.
pub open spec fn runas_matches(grant: GrantModel, request: RequestModel) -> bool {
    &&& admits(grant.runas_user_list, SubjectModel::RunasUser(request.target_user))
    &&& match request.target_group {
        Some(group) => admits(grant.runas_group_list, SubjectModel::RunasGroup(group)),
        None => true,
    }
}

/// What a clause says of a request: nothing where it is for another target or where none of
/// its commands matches, else the sign of the last command entry that matches.
pub open spec fn grant_verdict(grant: GrantModel, request: RequestModel) -> Option<Verdict> {
    if runas_matches(grant, request) {
        match last_match(grant.cmnd_list, command_of(request)) {
            Some(negated) => Some(Verdict { negated, nopasswd: grant.nopasswd }),
            None => None,
        }
    } else {
        None
    }
}

/// What each clause says of a request, in the order of the clauses.
pub open spec fn grant_verdicts(grants: Seq<GrantModel>, request: RequestModel) -> Seq<
    Option<Verdict>,
> {
    Seq::new(grants.len(), |k: int| grant_verdict(grants[k], request))
}

/// Whether the rule is for the invoking user on the host of the request.
pub open spec fn rule_applies(rule: FlatRuleModel, request: RequestModel) -> bool {
    admits(rule.user_list, invoker_of(request)) && admits(
        rule.host_list,
        SubjectModel::Host(request.hostname),
    )
}

/// What a flattened rule says of a request: the verdict of its last clause that has one.
pub open spec fn flat_rule_verdict(rule: FlatRuleModel, request: RequestModel) -> Option<Verdict> {
    if rule_applies(rule, request) {
        last_some(grant_verdicts(rule.grants, request))
    } else {
        None
    }
}

/// What a rule says of a request; an unusable rule says nothing.
pub open spec fn rule_verdict(table: Seq<AliasModel>, rule: RuleModel, request: RequestModel)
    -> Option<Verdict> {
    match flat_rule_of(table, rule) {
        Some(flat) => flat_rule_verdict(flat, request),
        None => None,
    }
}

/// What each rule says of a request, in source order.
pub open spec fn rule_verdicts(
    table: Seq<AliasModel>,
    rules: Seq<RuleModel>,
    request: RequestModel,
) -> Seq<Option<Verdict>> {
    Seq::new(rules.len(), |i: int| rule_verdict(table, rules[i], request))
}

/// The decision that a verdict, or the want of one, comes to.
pub open spec fn decision_of(verdict: Option<Verdict>) -> AuthorizationDecision {
    match verdict {
        Some(v) => if v.negated {
            AuthorizationDecision::Deny
        } else {
            AuthorizationDecision::Allow { nopasswd: v.nopasswd }
        },
        None => AuthorizationDecision::Deny,
    }
}

/// The decision on a request: the last rule, in source order, that says anything decides,
/// and within it the last clause that says anything; where nothing is said, the request is
/// denied.
pub open spec fn decide(table: Seq<AliasModel>, rules: Seq<RuleModel>, request: RequestModel)
    -> AuthorizationDecision {
    decision_of(last_some(rule_verdicts(table, rules, request)))
}

/// The grants of a rule that a user may list: those of a usable rule whose user list admits
/// the user.
pub open spec fn rule_grants_for(table: Seq<AliasModel>, rule: RuleModel, user: SubjectModel)
    -> Seq<GrantModel> {
    match flat_rule_of(table, rule) {
        Some(flat) => if admits(flat.user_list, user) {
            flat.grants
        } else {
            Seq::empty()
        },
        None => Seq::empty(),
    }
}

/// The grants of all rules that a user may list, in source order.
pub open spec fn permissions(table: Seq<AliasModel>, rules: Seq<RuleModel>, user: SubjectModel)
    -> Seq<GrantModel>
    decreases rules.len(),
{
    if rules.len() == 0 {
        Seq::empty()
    } else {
        permissions(table, rules.drop_last(), user) + rule_grants_for(table, rules.last(), user)
    }
}

/// A clause that is for another target than the one asked for says nothing of the request.
pub proof fn lemma_other_target_says_nothing(grant: GrantModel, request: RequestModel)
    requires
        !admits(grant.runas_user_list, SubjectModel::RunasUser(request.target_user)),
    ensures
        grant_verdict(grant, request) is None,
{
}

/// Clauses for distinct targets do not suppress each other: a clause that says nothing of a
/// request, as every clause for another target does, can be taken out of a rule, wherever it
/// stands, without changing what the rule says of the request.
pub proof fn lemma_silent_grant_is_inert(rule: FlatRuleModel, k: int, request: RequestModel)
    requires
        0 <= k < rule.grants.len(),
        grant_verdict(rule.grants[k], request) is None,
    ensures
        flat_rule_verdict(
            FlatRuleModel { user_list: rule.user_list, host_list: rule.host_list, grants: rule.grants.remove(k) },
            request,
        ) == flat_rule_verdict(rule, request),
{
    let all = grant_verdicts(rule.grants, request);
    assert(grant_verdicts(rule.grants.remove(k), request) =~= all.remove(k));
    lemma_last_some_without(all, k);
}

/// The same holds of the rules as they are written: a usable clause that says nothing of a
/// request, as every usable clause for another target does, can be written into a rule, at
/// any place, without changing what the rule says of the request.
pub proof fn lemma_clause_for_other_target_is_inert(
    table: Seq<AliasModel>,
    rule: RuleModel,
    k: int,
    spec: SpecModel,
    request: RequestModel,
)
    requires
        0 <= k <= rule.specs.len(),
        grant_of(table, spec, rule.source_index) matches Some(grant) && grant_verdict(
            grant,
            request,
        ) is None,
    ensures
        rule_verdict(
            table,
            RuleModel {
                user_list: rule.user_list,
                host_list: rule.host_list,
                specs: rule.specs.insert(k, spec),
                source_index: rule.source_index,
            },
            request,
        ) == rule_verdict(table, rule, request),
{
    let longer = RuleModel {
        user_list: rule.user_list,
        host_list: rule.host_list,
        specs: rule.specs.insert(k, spec),
        source_index: rule.source_index,
    };
    let grant = grant_of(table, spec, rule.source_index)->Some_0;
    if grants_of(table, rule) is Some {
        assert forall|x: int| 0 <= x < longer.specs.len() implies grant_of(
            table,
            #[trigger] longer.specs[x],
            longer.source_index,
        ) is Some by {
            if x < k {
                assert(longer.specs[x] == rule.specs[x]);
            } else if x > k {
                assert(longer.specs[x] == rule.specs[x - 1]);
            }
        }
        let grants = grants_of(table, rule)->Some_0;
        let more = grants_of(table, longer)->Some_0;
        assert(more =~= grants.insert(k, grant));
        assert(more.remove(k) =~= grants);
        if flat_rule_of(table, rule) is Some {
            let flat = flat_rule_of(table, longer)->Some_0;
            lemma_silent_grant_is_inert(flat, k, request);
        }
    } else {
        let x = choose|x: int|
            0 <= x < rule.specs.len() && !(grant_of(
                table,
                #[trigger] rule.specs[x],
                rule.source_index,
            ) is Some);
        if x < k {
            assert(longer.specs[x] == rule.specs[x]);
        } else {
            assert(longer.specs[x + 1] == rule.specs[x]);
        }
    }
}

/// Two clauses that grant to two targets both stay in force, in either order: for a request
/// that only one of them speaks of, that one decides.
pub proof fn lemma_distinct_targets_both_hold(
    first: GrantModel,
    second: GrantModel,
    request: RequestModel,
)
    ensures
        grant_verdict(second, request) is None ==> last_some(
            grant_verdicts(seq![first, second], request),
        ) == grant_verdict(first, request),
        grant_verdict(first, request) is None ==> last_some(
            grant_verdicts(seq![first, second], request),
        ) == grant_verdict(second, request),
{
    let a = grant_verdict(first, request);
    let b = grant_verdict(second, request);
    let none = Seq::<Option<Verdict>>::empty();
    assert(grant_verdicts(seq![first, second], request) =~= none.push(a).push(b));
    lemma_last_some_push(none.push(a), b);
    lemma_last_some_push(none, a);
}

/// A rule that says nothing of a request, as an unusable rule or a rule for another user or
/// host does, can be taken out of the rules without changing the decision.
pub proof fn lemma_silent_rule_is_inert(
    table: Seq<AliasModel>,
    rules: Seq<RuleModel>,
    i: int,
    request: RequestModel,
)
    requires
        0 <= i < rules.len(),
        rule_verdict(table, rules[i], request) is None,
    ensures
        decide(table, rules.remove(i), request) == decide(table, rules, request),
{
    let all = rule_verdicts(table, rules, request);
    assert(rule_verdicts(table, rules.remove(i), request) =~= all.remove(i));
    lemma_last_some_without(all, i);
}

/// Later rules override earlier ones: where the last rule says anything of a request, it
/// decides.
pub proof fn lemma_last_rule_decides(
    table: Seq<AliasModel>,
    rules: Seq<RuleModel>,
    request: RequestModel,
)
    requires
        rules.len() > 0,
        rule_verdict(table, rules.last(), request) is Some,
    ensures
        decide(table, rules, request) == decision_of(rule_verdict(table, rules.last(), request)),
{
}

/// Without rules every request is denied.
pub proof fn lemma_no_rules_deny(table: Seq<AliasModel>, request: RequestModel)
    ensures
        decide(table, Seq::empty(), request) == AuthorizationDecision::Deny,
{
}

impl AuthorizationRequest {
    /// The request of `invoking_user`, who is in no group, to run the command at
    /// `command_absolute_path` without arguments on `hostname` as `target_user`, in the
    /// primary group of that user.
    pub fn new(
        invoking_user: &str,
        target_user: &str,
        hostname: &str,
        command_absolute_path: &str,
    ) -> (request: AuthorizationRequest)
        ensures
            request.deep_view() == (RequestModel {
                invoking_user: invoking_user.spec_bytes(),
                invoking_group_memberships: Seq::empty(),
                target_user: target_user.spec_bytes(),
                target_group: None,
                hostname: hostname.spec_bytes(),
                command_absolute_path: command_absolute_path.spec_bytes(),
                command_arguments: Seq::empty(),
            }),
    {
        let request = AuthorizationRequest {
            invoking_user: copy_bytes(invoking_user.as_bytes()),
            invoking_group_memberships: Vec::new(),
            target_user: copy_bytes(target_user.as_bytes()),
            target_group: None,
            hostname: copy_bytes(hostname.as_bytes()),
            command_absolute_path: copy_bytes(command_absolute_path.as_bytes()),
            command_arguments: Vec::new(),
        };
        proof {
            assert(request.invoking_group_memberships.deep_view() =~= Seq::<Seq<u8>>::empty());
            assert(request.command_arguments.deep_view() =~= Seq::<Seq<u8>>::empty());
        }
        request
    }

    /// The same request by a user who is also a member of `group`.
    pub fn with_group_membership(self, group: &str) -> (request: AuthorizationRequest)
        ensures
            request.deep_view() == (RequestModel {
                invoking_group_memberships: self.deep_view().invoking_group_memberships.push(
                    group.spec_bytes(),
                ),
                ..self.deep_view()
            }),
    {
        let mut request = self;
        let ghost before = request.invoking_group_memberships.deep_view();
        let name = copy_bytes(group.as_bytes());
        proof {
            assert(name.deep_view() =~= group.spec_bytes());
        }
        request.invoking_group_memberships.push(name);
        proof {
            assert(request.invoking_group_memberships.deep_view() =~= before.push(
                group.spec_bytes(),
            ));
        }
        request
    }

    /// The same request, asking for `group` as the target group.
    pub fn with_target_group(self, group: &str) -> (request: AuthorizationRequest)
        ensures
            request.deep_view() == (RequestModel {
                target_group: Some(group.spec_bytes()),
                ..self.deep_view()
            }),
    {
        let mut request = self;
        request.target_group = Some(copy_bytes(group.as_bytes()));
        request
    }

    /// The same request with one more argument after those it has.
    pub fn with_argument(self, argument: &str) -> (request: AuthorizationRequest)
        ensures
            request.deep_view() == (RequestModel {
                command_arguments: self.deep_view().command_arguments.push(
                    argument.spec_bytes(),
                ),
                ..self.deep_view()
            }),
    {
        let mut request = self;
        let ghost before = request.command_arguments.deep_view();
        let text = copy_bytes(argument.as_bytes());
        proof {
            assert(text.deep_view() =~= argument.spec_bytes());
        }
        request.command_arguments.push(text);
        proof {
            assert(request.command_arguments.deep_view() =~= before.push(argument.spec_bytes()));
        }
        request
    }
}

} // verus!
