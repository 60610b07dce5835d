use vstd::prelude::*;
use vstd::string::StringSliceAdditionalSpecFns;
use crate::ident::{alias_shaped, all_keyword, check_alias_shaped, is_identifier, validate_identifier};
use crate::model::{
    AliasKind, ErrorKind, MemberModel, Pattern, PatternModel, SignedMember, Target, TargetModel,
};
use crate::rule::{RunasSpec, SpecModel, Tag};
use crate::text::{bytes_eq, copy_bytes, copy_range};
use crate::token::{Token, TokenModel};

verus! {

/// What a line of a configuration says.
#[derive(Debug, PartialEq, Eq)]
pub enum Statement {
    /// Nothing: the line holds no token.
    Blank,
    /// `Kind_Alias NAME = member, ...`
    Alias { kind: AliasKind, name: Vec<u8>, members: Vec<SignedMember> },
    /// `users hosts = (runas) TAG: commands, ...`
    Rule { user_list: Vec<SignedMember>, host_list: Vec<SignedMember>, specs: Vec<RunasSpec> },
}

/// What a `Statement` stands for.
pub enum StatementModel {
    Blank,
    Alias { kind: AliasKind, name: Seq<u8>, members: Seq<MemberModel> },
    Rule { user_list: Seq<MemberModel>, host_list: Seq<MemberModel>, specs: Seq<SpecModel> },
}

impl DeepView for Statement {
    type V = StatementModel;

    open spec fn deep_view(&self) -> StatementModel {
        match *self {
            Statement::Blank => StatementModel::Blank,
            Statement::Alias { kind, name, members } => StatementModel::Alias {
                kind,
                name: name@,
                members: members.deep_view(),
            },
            Statement::Rule { user_list, host_list, specs } => StatementModel::Rule {
                user_list: user_list.deep_view(),
                host_list: host_list.deep_view(),
                specs: specs.deep_view(),
            },
        }
    }
}

/// The number of negation markers that follow each other from `from` on.
pub open spec fn not_run(ts: Seq<TokenModel>, from: int) -> nat
    decreases ts.len() - from,
{
    if 0 <= from < ts.len() && ts[from] is Not {
        1 + not_run(ts, from + 1)
    } else {
        0
    }
}

/// The text of a token that can stand where a name or an argument is expected.
pub open spec fn word_text(t: TokenModel) -> Option<Seq<u8>> {
    match t {
        TokenModel::Word(text) => Some(text),
        TokenModel::All => Some(all_keyword()),
        _ => None,
    }
}

/// The number of words that follow each other from `from` on.
pub open spec fn word_run(ts: Seq<TokenModel>, from: int) -> nat
    decreases ts.len() - from,
{
    if 0 <= from < ts.len() && word_text(ts[from]) is Some {
        1 + word_run(ts, from + 1)
    } else {
        0
    }
}

/// The texts of the `count` words from `from` on.
pub open spec fn words_at(ts: Seq<TokenModel>, from: int, count: nat) -> Seq<Seq<u8>> {
    Seq::new(count, |i: int| word_text(ts[from + i])->Some_0)
}

/// What a word names in a list of `kind`.
///
/// A word of the shape of an alias name is a reference. In a command list any other word
/// has to be an absolute path, and the words after it are its fixed arguments. In a user
/// list `%name` is a group. Any other word is the name of a user, a host or a group.
pub open spec fn word_target(kind: AliasKind, word: Seq<u8>, args: Seq<Seq<u8>>) -> Option<
    TargetModel,
> {
    if alias_shaped(word) {
        Some(TargetModel::Alias(word))
    } else if kind == AliasKind::Cmnd {
        if word.len() > 0 && word[0] == 0x2f {
            Some(TargetModel::Literal(PatternModel::Command { path: word, args }))
        } else {
            None
        }
    } else if kind == AliasKind::User && word.len() > 1 && word[0] == 0x25 {
        Some(TargetModel::Literal(PatternModel::Group(word.subrange(1, word.len() as int))))
    } else {
        Some(TargetModel::Literal(PatternModel::Name(word)))
    }
}

/// Whether the word at `at` takes the words after it as its arguments.
pub open spec fn takes_arguments(kind: AliasKind, word: Seq<u8>) -> bool {
    kind == AliasKind::Cmnd && !alias_shaped(word) && word.len() > 0 && word[0] == 0x2f
}

/// The member that starts at `from`, and the position after it.
///
/// The member is negated where an odd number of negation markers precede it.
pub open spec fn parse_member(ts: Seq<TokenModel>, from: int, kind: AliasKind) -> Option<
    (MemberModel, int),
> {
    let nots = not_run(ts, from);
    let at = from + nots;
    let negated = nots % 2 == 1;
    if from < 0 || at >= ts.len() {
        None
    } else {
        match ts[at] {
            TokenModel::All => Some(
                (MemberModel { negated, target: TargetModel::Literal(PatternModel::All) }, at + 1),
            ),
            TokenModel::Word(word) => {
                let count = if takes_arguments(kind, word) {
                    word_run(ts, at + 1)
                } else {
                    0
                };
                match word_target(kind, word, words_at(ts, at + 1, count)) {
                    Some(target) => Some((MemberModel { negated, target }, at + 1 + count)),
                    None => None,
                }
            },
            _ => None,
        }
    }
}

/// Whether the list goes on after the member that ends at `next`: a comma follows, and no
/// new clause starts after it.
pub open spec fn list_goes_on(ts: Seq<TokenModel>, next: int) -> bool {
    &&& 0 <= next < ts.len()
    &&& ts[next] is Comma
    &&& !(next + 1 < ts.len() && ts[next + 1] is Open)
}

/// The comma-separated members from `from` on, and the position after the last of them.
pub open spec fn parse_list(ts: Seq<TokenModel>, from: int, kind: AliasKind) -> Option<
    (Seq<MemberModel>, int),
>
    decreases ts.len() - from,
{
    match parse_member(ts, from, kind) {
        None => None,
        Some((member, next)) => if list_goes_on(ts, next) {
            match parse_list(ts, next + 1, kind) {
                None => None,
                Some((rest, end)) => Some((seq![member] + rest, end)),
            }
        } else {
            Some((seq![member], next))
        },
    }
}

/// The tag that a word names.
pub open spec fn tag_named(word: Seq<u8>) -> Option<Tag> {
    if word == "NOPASSWD".spec_bytes() {
        Some(Tag::Nopasswd)
    } else if word == "PASSWD".spec_bytes() {
        Some(Tag::Passwd)
    } else {
        None
    }
}

/// Where the tag list that starts at `from` ends: a tag list is made of words separated by
/// commas and closed by a colon. `None` where no tag list starts at `from`.
pub open spec fn tag_list_end(ts: Seq<TokenModel>, from: int) -> Option<int>
    decreases ts.len() - from,
{
    if from < 0 || from + 1 >= ts.len() || word_text(ts[from]) is None {
        None
    } else if ts[from + 1] is Colon {
        Some(from + 2)
    } else if ts[from + 1] is Comma {
        tag_list_end(ts, from + 2)
    } else {
        None
    }
}

/// The tags that the words of the tag list from `from` to `end` name. A word that is no
/// identifier is refused as such; an identifier that names no tag is a syntax error.
pub open spec fn parse_tags(ts: Seq<TokenModel>, from: int, end: int) -> Result<
    Seq<Tag>,
    ErrorKind,
>
    decreases end + 1 - from,
{
    if from < 0 || from >= end || from >= ts.len() {
        Ok(Seq::empty())
    } else {
        match word_text(ts[from]) {
            None => Err(ErrorKind::Syntax),
            Some(word) => if !is_identifier(word) {
                Err(ErrorKind::InvalidIdentifier)
            } else {
                match tag_named(word) {
                    None => Err(ErrorKind::Syntax),
                    Some(tag) => match parse_tags(ts, from + 2, end) {
                        Err(e) => Err(e),
                        Ok(rest) => Ok(seq![tag] + rest),
                    },
                }
            },
        }
    }
}

/// A runas list inside the parentheses, which may be left empty: it ends before `:` or `)`.
pub open spec fn parse_runas_list(ts: Seq<TokenModel>, from: int) -> Option<
    (Seq<MemberModel>, int),
> {
    if 0 <= from < ts.len() && (ts[from] is Colon || ts[from] is Close) {
        Some((Seq::empty(), from))
    } else {
        parse_list(ts, from, AliasKind::Runas)
    }
}

/// The runas clause `(users:groups)` whose opening parenthesis is at `from`.
pub open spec fn parse_runas(ts: Seq<TokenModel>, from: int) -> Option<
    (Seq<MemberModel>, Seq<MemberModel>, int),
> {
    match parse_runas_list(ts, from + 1) {
        None => None,
        Some((user_list, mid)) => if 0 <= mid < ts.len() && ts[mid] is Close {
            Some((user_list, Seq::empty(), mid + 1))
        } else if 0 <= mid < ts.len() && ts[mid] is Colon {
            match parse_runas_list(ts, mid + 1) {
                None => None,
                Some((groups, end)) => if 0 <= end < ts.len() && ts[end] is Close {
                    Some((user_list, groups, end + 1))
                } else {
                    None
                },
            }
        } else {
            None
        },
    }
}

/// The tag list at `from`, if one starts there, and the position after it.
pub open spec fn parse_tag_list(ts: Seq<TokenModel>, from: int) -> Result<(Seq<Tag>, int), ErrorKind> {
    match tag_list_end(ts, from) {
        Some(end) => match parse_tags(ts, from, end) {
            Ok(tag_flags) => Ok((tag_flags, end)),
            Err(e) => Err(e),
        },
        None => Ok((Seq::empty(), from)),
    }
}

/// The clause that starts at `from`: an optional runas clause, an optional tag list, and a
/// command list.
pub open spec fn parse_spec(ts: Seq<TokenModel>, from: int) -> Result<(SpecModel, int), ErrorKind> {
    let runas = if 0 <= from < ts.len() && ts[from] is Open {
        parse_runas(ts, from)
    } else {
        Some((Seq::empty(), Seq::empty(), from))
    };
    match runas {
        None => Err(ErrorKind::Syntax),
        Some((runas_user_list, runas_group_list, after_runas)) => match parse_tag_list(ts, after_runas) {
            Err(e) => Err(e),
            Ok((tag_flags, after_tags)) => match parse_list(ts, after_tags, AliasKind::Cmnd) {
                None => Err(ErrorKind::Syntax),
                Some((cmnd_list, end)) => Ok(
                    (SpecModel { runas_user_list, runas_group_list, tag_flags, cmnd_list }, end),
                ),
            },
        },
    }
}

/// The clauses from `from` to the end of the line, separated by commas.
pub open spec fn parse_specs(ts: Seq<TokenModel>, from: int) -> Result<Seq<SpecModel>, ErrorKind>
    decreases ts.len() - from,
{
    match parse_spec(ts, from) {
        Err(e) => Err(e),
        Ok((spec, next)) => if next == ts.len() {
            Ok(seq![spec])
        } else if from < next < ts.len() && ts[next] is Comma {
            match parse_specs(ts, next + 1) {
                Err(e) => Err(e),
                Ok(rest) => Ok(seq![spec] + rest),
            }
        } else {
            Err(ErrorKind::Syntax)
        },
    }
}

/// The kind that a definition keyword names.
pub open spec fn alias_keyword(t: TokenModel) -> Option<AliasKind> {
    match t {
        TokenModel::Word(text) => if text == "User_Alias".spec_bytes() {
            Some(AliasKind::User)
        } else if text == "Runas_Alias".spec_bytes() {
            Some(AliasKind::Runas)
        } else if text == "Host_Alias".spec_bytes() {
            Some(AliasKind::Host)
        } else if text == "Cmnd_Alias".spec_bytes() {
            Some(AliasKind::Cmnd)
        } else {
            None
        },
        _ => None,
    }
}

/// The alias definition that a line starting with the keyword of `kind` makes.
pub open spec fn parse_alias(ts: Seq<TokenModel>, kind: AliasKind) -> Result<
    StatementModel,
    ErrorKind,
> {
    if ts.len() < 2 {
        Err(ErrorKind::Syntax)
    } else {
        match word_text(ts[1]) {
            None => Err(ErrorKind::Syntax),
            Some(name) => if !is_identifier(name) {
                Err(ErrorKind::InvalidIdentifier)
            } else if ts.len() < 3 || !(ts[2] is Assign) {
                Err(ErrorKind::Syntax)
            } else {
                match parse_list(ts, 3, kind) {
                    Some((members, end)) => if end == ts.len() {
                        Ok(StatementModel::Alias { kind, name, members })
                    } else {
                        Err(ErrorKind::Syntax)
                    },
                    None => Err(ErrorKind::Syntax),
                }
            },
        }
    }
}

/// The permission rule that a line makes.
pub open spec fn parse_rule(ts: Seq<TokenModel>) -> Result<StatementModel, ErrorKind> {
    match parse_list(ts, 0, AliasKind::User) {
        None => Err(ErrorKind::Syntax),
        Some((user_list, after_users)) => match parse_list(ts, after_users, AliasKind::Host) {
            None => Err(ErrorKind::Syntax),
            Some((host_list, after_hosts)) => if 0 <= after_hosts < ts.len()
                && ts[after_hosts] is Assign {
                match parse_specs(ts, after_hosts + 1) {
                    Ok(specs) => Ok(StatementModel::Rule { user_list, host_list, specs }),
                    Err(e) => Err(e),
                }
            } else {
                Err(ErrorKind::Syntax)
            },
        },
    }
}

/// What the tokens of a line say.
pub open spec fn parse_statement(ts: Seq<TokenModel>) -> Result<StatementModel, ErrorKind> {
    if ts.len() == 0 {
        Ok(StatementModel::Blank)
    } else {
        match alias_keyword(ts[0]) {
            Some(kind) => parse_alias(ts, kind),
            None => parse_rule(ts),
        }
    }
}

/// The members done so far, followed by what is still to be read.
pub open spec fn with_members(done: Seq<MemberModel>, rest: Option<(Seq<MemberModel>, int)>)
    -> Option<(Seq<MemberModel>, int)> {
    match rest {
        None => None,
        Some((more, end)) => Some((done + more, end)),
    }
}

/// The tags done so far, followed by what is still to be read.
pub open spec fn with_tags(done: Seq<Tag>, rest: Result<Seq<Tag>, ErrorKind>) -> Result<
    Seq<Tag>,
    ErrorKind,
> {
    match rest {
        Err(e) => Err(e),
        Ok(more) => Ok(done + more),
    }
}

/// The clauses done so far, followed by what is still to be read.
pub open spec fn with_specs(done: Seq<SpecModel>, rest: Result<Seq<SpecModel>, ErrorKind>)
    -> Result<Seq<SpecModel>, ErrorKind> {
    match rest {
        Err(e) => Err(e),
        Ok(more) => Ok(done + more),
    }
}

fn is_not(t: &Token) -> (out: bool)
    ensures
        out == (t.deep_view() is Not),
{
    match t {
        Token::Not => true,
        _ => false,
    }
}

fn is_comma(t: &Token) -> (out: bool)
    ensures
        out == (t.deep_view() is Comma),
{
    match t {
        Token::Comma => true,
        _ => false,
    }
}

fn is_assign(t: &Token) -> (out: bool)
    ensures
        out == (t.deep_view() is Assign),
{
    match t {
        Token::Assign => true,
        _ => false,
    }
}

fn is_colon(t: &Token) -> (out: bool)
    ensures
        out == (t.deep_view() is Colon),
{
    match t {
        Token::Colon => true,
        _ => false,
    }
}

fn is_open(t: &Token) -> (out: bool)
    ensures
        out == (t.deep_view() is Open),
{
    match t {
        Token::Open => true,
        _ => false,
    }
}

fn is_close(t: &Token) -> (out: bool)
    ensures
        out == (t.deep_view() is Close),
{
    match t {
        Token::Close => true,
        _ => false,
    }
}

fn is_word(t: &Token) -> (out: bool)
    ensures
        out == (word_text(t.deep_view()) is Some),
{
    match t {
        Token::Word(_) => true,
        Token::All => true,
        _ => false,
    }
}

fn text_of(t: &Token) -> (out: Vec<u8>)
    requires
        word_text(t.deep_view()) is Some,
    ensures
        word_text(t.deep_view()) == Some(out@),
{
    match t {
        Token::Word(text) => copy_bytes(text.as_slice()),
        _ => copy_bytes("ALL".as_bytes()),
    }
}

/// Reads the member that starts at `from`.
pub fn read_member(ts: &Vec<Token>, from: usize, kind: AliasKind) -> (out: Option<
    (SignedMember, usize),
>)
    ensures
        match out {
            Some((member, next)) => parse_member(ts.deep_view(), from as int, kind) == Some(
                (member.deep_view(), next as int),
            ) && from < next <= ts.len(),
            None => parse_member(ts.deep_view(), from as int, kind) is None,
        },
{
    let ghost tm = ts.deep_view();
    if from >= ts.len() {
        return None;
    }
    let mut at: usize = from;
    let mut negated = false;
    while at < ts.len() && is_not(&ts[at])
        invariant
            from <= at <= ts.len(),
            tm == ts.deep_view(),
            forall|k: int| 0 <= k < ts.len() ==> tm[k] == (#[trigger] ts@[k]).deep_view(),
            not_run(tm, from as int) == (at - from) + not_run(tm, at as int),
            negated == ((at - from) % 2 == 1),
        decreases ts.len() - at,
    {
        at += 1;
        negated = !negated;
    }
    if at >= ts.len() {
        return None;
    }
    match &ts[at] {
        Token::All => Some(
            (SignedMember { negated, target: Target::Literal(Pattern::All) }, at + 1),
        ),
        Token::Word(word) => {
            if check_alias_shaped(word.as_slice()) {
                Some(
                    (
                        SignedMember { negated, target: Target::Alias(copy_bytes(word.as_slice())) },
                        at + 1,
                    ),
                )
            } else if kind == AliasKind::Cmnd {
                if word.len() > 0 && word[0] == 0x2f {
                    let mut args: Vec<Vec<u8>> = Vec::new();
                    let mut j: usize = at + 1;
                    proof {
                        assert(args.deep_view() =~= words_at(tm, at + 1, 0));
                    }
                    while j < ts.len() && is_word(&ts[j])
                        invariant
                            at < j <= ts.len(),
                            tm == ts.deep_view(),
                            forall|k: int|
                                0 <= k < ts.len() ==> tm[k] == (#[trigger] ts@[k]).deep_view(),
                            word_run(tm, at + 1) == (j - (at + 1)) + word_run(tm, j as int),
                            args.deep_view() == words_at(tm, at + 1, (j - (at + 1)) as nat),
                        decreases ts.len() - j,
                    {
                        let ghost before = args.deep_view();
                        let text = text_of(&ts[j]);
                        let ghost t = text@;
                        proof {
                            assert(text.deep_view() =~= t);
                        }
                        args.push(text);
                        j += 1;
                        proof {
                            assert(args.deep_view() =~= before.push(t));
                            assert(before.push(t) =~= words_at(
                                tm,
                                at + 1,
                                (j - (at + 1)) as nat,
                            ));
                        }
                    }
                    Some(
                        (
                            SignedMember {
                                negated,
                                target: Target::Literal(
                                    Pattern::Command { path: copy_bytes(word.as_slice()), args },
                                ),
                            },
                            j,
                        ),
                    )
                } else {
                    None
                }
            } else if kind == AliasKind::User && word.len() > 1 && word[0] == 0x25 {
                Some(
                    (
                        SignedMember {
                            negated,
                            target: Target::Literal(
                                Pattern::Group(copy_range(word.as_slice(), 1, word.len())),
                            ),
                        },
                        at + 1,
                    ),
                )
            } else {
                Some(
                    (
                        SignedMember {
                            negated,
                            target: Target::Literal(Pattern::Name(copy_bytes(word.as_slice()))),
                        },
                        at + 1,
                    ),
                )
            }
        },
        _ => None,
    }
}

/// Reads the comma-separated members from `from` on.
pub fn read_list(ts: &Vec<Token>, from: usize, kind: AliasKind) -> (out: Option<
    (Vec<SignedMember>, usize),
>)
    ensures
        match out {
            Some((members, end)) => parse_list(ts.deep_view(), from as int, kind) == Some(
                (members.deep_view(), end as int),
            ) && from < end <= ts.len(),
            None => parse_list(ts.deep_view(), from as int, kind) is None,
        },
{
    let ghost tm = ts.deep_view();
    let mut members: Vec<SignedMember> = Vec::new();
    let mut pos: usize = from;
    proof {
        let whole = parse_list(tm, from as int, kind);
        if whole is Some {
            assert(members.deep_view() + whole->Some_0.0 =~= whole->Some_0.0);
        }
    }
    loop
        invariant
            from <= pos,
            tm == ts.deep_view(),
            forall|k: int| 0 <= k < ts.len() ==> tm[k] == (#[trigger] ts@[k]).deep_view(),
            parse_list(tm, from as int, kind) == with_members(
                members.deep_view(),
                parse_list(tm, pos as int, kind),
            ),
        decreases ts.len() - pos,
    {
        let ghost done = members.deep_view();
        match read_member(ts, pos, kind) {
            None => {
                return None;
            },
            Some((member, next)) => {
                let ghost m = member.deep_view();
                members.push(member);
                proof {
                    assert(members.deep_view() =~= done.push(m));
                }
                if next < ts.len() && is_comma(&ts[next]) && !(next + 1 < ts.len() && is_open(
                    &ts[next + 1],
                )) {
                    proof {
                        let rest = parse_list(tm, next + 1, kind);
                        if rest is Some {
                            assert(done + (seq![m] + rest->Some_0.0) =~= done.push(m)
                                + rest->Some_0.0);
                        }
                    }
                    pos = next + 1;
                } else {
                    proof {
                        assert(done + seq![m] =~= done.push(m));
                    }
                    return Some((members, next));
                }
            },
        }
    }
}

fn tag_for(word: &[u8]) -> (out: Option<Tag>)
    ensures
        out == tag_named(word@),
{
    if bytes_eq(word, "NOPASSWD".as_bytes()) {
        Some(Tag::Nopasswd)
    } else if bytes_eq(word, "PASSWD".as_bytes()) {
        Some(Tag::Passwd)
    } else {
        None
    }
}

/// Looks ahead for the colon that closes a tag list.
fn find_tag_list_end(ts: &Vec<Token>, from: usize) -> (out: Option<usize>)
    ensures
        (match out {
            Some(end) => Some(end as int),
            None => None,
        }) == tag_list_end(ts.deep_view(), from as int),
        out matches Some(end) ==> from < end <= ts.len() && (end - from) % 2 == 0,
{
    let ghost tm = ts.deep_view();
    let mut pos: usize = from;
    loop
        invariant
            from <= pos,
            (pos - from) % 2 == 0,
            tm == ts.deep_view(),
            forall|k: int| 0 <= k < ts.len() ==> tm[k] == (#[trigger] ts@[k]).deep_view(),
            tag_list_end(tm, from as int) == tag_list_end(tm, pos as int),
        decreases ts.len() - pos,
    {
        if pos >= ts.len() || ts.len() - pos < 2 {
            return None;
        }
        if !is_word(&ts[pos]) {
            return None;
        }
        if is_colon(&ts[pos + 1]) {
            return Some(pos + 2);
        }
        if !is_comma(&ts[pos + 1]) {
            return None;
        }
        pos = pos + 2;
    }
}

/// Reads the tag list that starts at `from`, if one starts there.
pub fn read_tags(ts: &Vec<Token>, from: usize) -> (out: Result<(Vec<Tag>, usize), ErrorKind>)
    ensures
        match out {
            Ok((tag_flags, end)) => parse_tag_list(ts.deep_view(), from as int) == Ok::<
                (Seq<Tag>, int),
                ErrorKind,
            >((tag_flags@, end as int)) && from <= end,
            Err(e) => parse_tag_list(ts.deep_view(), from as int) == Err::<
                (Seq<Tag>, int),
                ErrorKind,
            >(e),
        },
{
    let ghost tm = ts.deep_view();
    let mut tag_flags: Vec<Tag> = Vec::new();
    let end = match find_tag_list_end(ts, from) {
        None => {
            proof {
                assert(tag_flags@ =~= Seq::<Tag>::empty());
            }
            return Ok((tag_flags, from));
        },
        Some(end) => end,
    };
    let mut pos: usize = from;
    proof {
        let whole = parse_tags(tm, from as int, end as int);
        if whole is Ok {
            assert(tag_flags@ + whole->Ok_0 =~= whole->Ok_0);
        }
    }
    while pos < end
        invariant
            from <= pos <= end <= ts.len(),
            (end - pos) % 2 == 0,
            tm == ts.deep_view(),
            forall|k: int| 0 <= k < ts.len() ==> tm[k] == (#[trigger] ts@[k]).deep_view(),
            tag_list_end(tm, from as int) == Some(end as int),
            parse_tags(tm, from as int, end as int) == with_tags(
                tag_flags@,
                parse_tags(tm, pos as int, end as int),
            ),
        decreases end - pos,
    {
        let ghost done = tag_flags@;
        if !is_word(&ts[pos]) {
            return Err(ErrorKind::Syntax);
        }
        let word = text_of(&ts[pos]);
        if validate_identifier(word.as_slice(), 0).is_err() {
            return Err(ErrorKind::InvalidIdentifier);
        }
        match tag_for(word.as_slice()) {
            None => {
                return Err(ErrorKind::Syntax);
            },
            Some(tag) => {
                tag_flags.push(tag);
                proof {
                    let rest = parse_tags(tm, pos + 2, end as int);
                    if rest is Ok {
                        assert(done + (seq![tag] + rest->Ok_0) =~= done.push(tag) + rest->Ok_0);
                    }
                }
                pos = pos + 2;
            },
        }
    }
    proof {
        assert(tag_flags@ + Seq::<Tag>::empty() =~= tag_flags@);
    }
    Ok((tag_flags, end))
}

fn read_runas_list(ts: &Vec<Token>, from: usize) -> (out: Option<(Vec<SignedMember>, usize)>)
    ensures
        match out {
            Some((members, end)) => parse_runas_list(ts.deep_view(), from as int) == Some(
                (members.deep_view(), end as int),
            ) && from <= end <= ts.len(),
            None => parse_runas_list(ts.deep_view(), from as int) is None,
        },
{
    let ghost tm = ts.deep_view();
    if from < ts.len() && (is_colon(&ts[from]) || is_close(&ts[from])) {
        let members: Vec<SignedMember> = Vec::new();
        proof {
            assert(tm[from as int] == ts@[from as int].deep_view());
            assert(members.deep_view() =~= Seq::<MemberModel>::empty());
        }
        Some((members, from))
    } else {
        proof {
            if from < ts.len() {
                assert(tm[from as int] == ts@[from as int].deep_view());
            }
        }
        read_list(ts, from, AliasKind::Runas)
    }
}

/// Reads the runas clause whose opening parenthesis is at `from`.
pub fn read_runas(ts: &Vec<Token>, from: usize) -> (out: Option<
    (Vec<SignedMember>, Vec<SignedMember>, usize),
>)
    requires
        from < ts.len(),
    ensures
        match out {
            Some((user_list, groups, end)) => parse_runas(ts.deep_view(), from as int) == Some(
                (user_list.deep_view(), groups.deep_view(), end as int),
            ) && from < end <= ts.len(),
            None => parse_runas(ts.deep_view(), from as int) is None,
        },
{
    let ghost tm = ts.deep_view();
    let (user_list, mid) = match read_runas_list(ts, from + 1) {
        None => {
            return None;
        },
        Some(found) => found,
    };
    if mid >= ts.len() {
        return None;
    }
    proof {
        assert(tm[mid as int] == ts@[mid as int].deep_view());
    }
    if is_close(&ts[mid]) {
        let groups: Vec<SignedMember> = Vec::new();
        proof {
            assert(groups.deep_view() =~= Seq::<MemberModel>::empty());
        }
        return Some((user_list, groups, mid + 1));
    }
    if !is_colon(&ts[mid]) {
        return None;
    }
    let (groups, end) = match read_runas_list(ts, mid + 1) {
        None => {
            return None;
        },
        Some(found) => found,
    };
    if end >= ts.len() {
        return None;
    }
    proof {
        assert(tm[end as int] == ts@[end as int].deep_view());
    }
    if is_close(&ts[end]) {
        Some((user_list, groups, end + 1))
    } else {
        None
    }
}

/// Reads the clause that starts at `from`.
pub fn read_spec(ts: &Vec<Token>, from: usize) -> (out: Result<(RunasSpec, usize), ErrorKind>)
    ensures
        match out {
            Ok((spec, end)) => parse_spec(ts.deep_view(), from as int) == Ok::<
                (SpecModel, int),
                ErrorKind,
            >((spec.deep_view(), end as int)) && from < end <= ts.len(),
            Err(e) => parse_spec(ts.deep_view(), from as int) == Err::<
                (SpecModel, int),
                ErrorKind,
            >(e),
        },
{
    let ghost tm = ts.deep_view();
    let mut runas_user_list: Vec<SignedMember> = Vec::new();
    let mut runas_group_list: Vec<SignedMember> = Vec::new();
    let mut pos: usize = from;
    proof {
        assert(runas_user_list.deep_view() =~= Seq::<MemberModel>::empty());
        assert(runas_group_list.deep_view() =~= Seq::<MemberModel>::empty());
        if from < ts.len() {
            assert(tm[from as int] == ts@[from as int].deep_view());
        }
    }
    if from < ts.len() && is_open(&ts[from]) {
        match read_runas(ts, from) {
            None => {
                return Err(ErrorKind::Syntax);
            },
            Some((user_list, groups, end)) => {
                runas_user_list = user_list;
                runas_group_list = groups;
                pos = end;
            },
        }
    }
    let (tag_flags, after_tags) = match read_tags(ts, pos) {
        Ok(found) => found,
        Err(e) => {
            return Err(e);
        },
    };
    match read_list(ts, after_tags, AliasKind::Cmnd) {
        None => Err(ErrorKind::Syntax),
        Some((cmnd_list, end)) => Ok((RunasSpec { runas_user_list, runas_group_list, tag_flags, cmnd_list }, end)),
    }
}

/// Reads the clauses from `from` to the end of the line.
pub fn read_specs(ts: &Vec<Token>, from: usize) -> (out: Result<Vec<RunasSpec>, ErrorKind>)
    ensures
        match out {
            Ok(specs) => parse_specs(ts.deep_view(), from as int) == Ok::<
                Seq<SpecModel>,
                ErrorKind,
            >(specs.deep_view()),
            Err(e) => parse_specs(ts.deep_view(), from as int) == Err::<Seq<SpecModel>, ErrorKind>(
                e,
            ),
        },
{
    let ghost tm = ts.deep_view();
    let mut specs: Vec<RunasSpec> = Vec::new();
    let mut pos: usize = from;
    proof {
        let whole = parse_specs(tm, from as int);
        if whole is Ok {
            assert(specs.deep_view() + whole->Ok_0 =~= whole->Ok_0);
        }
    }
    loop
        invariant
            from <= pos,
            tm == ts.deep_view(),
            forall|k: int| 0 <= k < ts.len() ==> tm[k] == (#[trigger] ts@[k]).deep_view(),
            parse_specs(tm, from as int) == with_specs(
                specs.deep_view(),
                parse_specs(tm, pos as int),
            ),
        decreases ts.len() - pos,
    {
        let ghost done = specs.deep_view();
        match read_spec(ts, pos) {
            Err(e) => {
                return Err(e);
            },
            Ok((spec, next)) => {
                let ghost s = spec.deep_view();
                specs.push(spec);
                proof {
                    assert(specs.deep_view() =~= done.push(s));
                }
                if next == ts.len() {
                    proof {
                        assert(done + seq![s] =~= done.push(s));
                    }
                    return Ok(specs);
                } else if is_comma(&ts[next]) {
                    proof {
                        let rest = parse_specs(tm, next + 1);
                        if rest is Ok {
                            assert(done + (seq![s] + rest->Ok_0) =~= done.push(s) + rest->Ok_0);
                        }
                    }
                    pos = next + 1;
                } else {
                    return Err(ErrorKind::Syntax);
                }
            },
        }
    }
}

fn keyword_kind(t: &Token) -> (out: Option<AliasKind>)
    ensures
        out == alias_keyword(t.deep_view()),
{
    match t {
        Token::Word(text) => {
            if bytes_eq(text.as_slice(), "User_Alias".as_bytes()) {
                Some(AliasKind::User)
            } else if bytes_eq(text.as_slice(), "Runas_Alias".as_bytes()) {
                Some(AliasKind::Runas)
            } else if bytes_eq(text.as_slice(), "Host_Alias".as_bytes()) {
                Some(AliasKind::Host)
            } else if bytes_eq(text.as_slice(), "Cmnd_Alias".as_bytes()) {
                Some(AliasKind::Cmnd)
            } else {
                None
            }
        },
        _ => None,
    }
}

/// Reads an alias definition from a line that starts with the keyword of `kind`.
pub fn read_alias(ts: &Vec<Token>, kind: AliasKind) -> (out: Result<Statement, ErrorKind>)
    ensures
        match out {
            Ok(statement) => parse_alias(ts.deep_view(), kind) == Ok::<StatementModel, ErrorKind>(
                statement.deep_view(),
            ),
            Err(e) => parse_alias(ts.deep_view(), kind) == Err::<StatementModel, ErrorKind>(e),
        },
{
    let ghost tm = ts.deep_view();
    if ts.len() < 2 {
        return Err(ErrorKind::Syntax);
    }
    proof {
        assert(tm[1] == ts@[1].deep_view());
    }
    if !is_word(&ts[1]) {
        return Err(ErrorKind::Syntax);
    }
    let name = text_of(&ts[1]);
    if validate_identifier(name.as_slice(), 0).is_err() {
        return Err(ErrorKind::InvalidIdentifier);
    }
    if ts.len() < 3 {
        return Err(ErrorKind::Syntax);
    }
    proof {
        assert(tm[2] == ts@[2].deep_view());
    }
    if !is_assign(&ts[2]) {
        return Err(ErrorKind::Syntax);
    }
    match read_list(ts, 3, kind) {
        Some((members, end)) => {
            if end == ts.len() {
                Ok(Statement::Alias { kind, name, members })
            } else {
                Err(ErrorKind::Syntax)
            }
        },
        None => Err(ErrorKind::Syntax),
    }
}

/// Reads a permission rule from a line.
pub fn read_rule(ts: &Vec<Token>) -> (out: Result<Statement, ErrorKind>)
    ensures
        match out {
            Ok(statement) => parse_rule(ts.deep_view()) == Ok::<StatementModel, ErrorKind>(
                statement.deep_view(),
            ),
            Err(e) => parse_rule(ts.deep_view()) == Err::<StatementModel, ErrorKind>(e),
        },
{
    let ghost tm = ts.deep_view();
    let (user_list, after_users) = match read_list(ts, 0, AliasKind::User) {
        None => {
            return Err(ErrorKind::Syntax);
        },
        Some(found) => found,
    };
    let (host_list, after_hosts) = match read_list(ts, after_users, AliasKind::Host) {
        None => {
            return Err(ErrorKind::Syntax);
        },
        Some(found) => found,
    };
    if after_hosts >= ts.len() {
        return Err(ErrorKind::Syntax);
    }
    proof {
        assert(tm[after_hosts as int] == ts@[after_hosts as int].deep_view());
    }
    if !is_assign(&ts[after_hosts]) {
        return Err(ErrorKind::Syntax);
    }
    match read_specs(ts, after_hosts + 1) {
        Ok(specs) => Ok(Statement::Rule { user_list, host_list, specs }),
        Err(e) => Err(e),
    }
}

/// Reads what the tokens of a line say: nothing, an alias definition or a rule.
pub fn read_statement(ts: &Vec<Token>) -> (out: Result<Statement, ErrorKind>)
    ensures
        match out {
            Ok(statement) => parse_statement(ts.deep_view()) == Ok::<StatementModel, ErrorKind>(
                statement.deep_view(),
            ),
            Err(e) => parse_statement(ts.deep_view()) == Err::<StatementModel, ErrorKind>(e),
        },
{
    if ts.len() == 0 {
        return Ok(Statement::Blank);
    }
    proof {
        assert(ts.deep_view()[0] == ts@[0].deep_view());
    }
    match keyword_kind(&ts[0]) {
        Some(kind) => read_alias(ts, kind),
        None => read_rule(ts),
    }
}

/// The run of negation markers at `from` holds nothing but markers and ends before the
/// first token that is none.
pub proof fn lemma_not_run(ts: Seq<TokenModel>, from: int)
    requires
        0 <= from,
    ensures
        forall|i: int| from <= i < from + not_run(ts, from) ==> ts[i] is Not,
        from + not_run(ts, from) <= ts.len() || not_run(ts, from) == 0,
        from + not_run(ts, from) < ts.len() ==> !(ts[from + not_run(ts, from)] is Not),
    decreases ts.len() - from,
{
    if from < ts.len() && ts[from] is Not {
        lemma_not_run(ts, from + 1);
    }
}

/// Markers that follow each other up to a token that is none are the run of markers.
pub proof fn lemma_markers_counted(ts: Seq<TokenModel>, from: int, k: nat)
    requires
        0 <= from,
        from + k <= ts.len(),
        forall|i: int| from <= i < from + k ==> ts[i] is Not,
        from + k < ts.len() ==> !(ts[from + k] is Not),
    ensures
        not_run(ts, from) == k,
    decreases k,
{
    if k > 0 {
        lemma_markers_counted(ts, from + 1, (k - 1) as nat);
    }
}

/// Negation parity: a member that `k` negation markers precede is negated exactly where `k`
/// is odd, and is otherwise the member that is read without the markers.
pub proof fn lemma_negation_parity(ts: Seq<TokenModel>, from: int, k: nat, kind: AliasKind)
    requires
        0 <= from,
        from + k < ts.len(),
        forall|i: int| from <= i < from + k ==> ts[i] is Not,
        !(ts[from + k] is Not),
    ensures
        parse_member(ts, from, kind) is Some <==> parse_member(ts, from + k, kind) is Some,
        parse_member(ts, from, kind) matches Some((member, next)) ==> {
            let plain = parse_member(ts, from + k, kind)->Some_0;
            &&& member.negated <==> k % 2 == 1
            &&& !plain.0.negated
            &&& member.target == plain.0.target
            &&& next == plain.1
        },
{
    lemma_markers_counted(ts, from, k);
    lemma_markers_counted(ts, from + k, 0);
}

/// Two negation markers cancel: a member reads the same with and without them.
pub proof fn lemma_double_negation(ts: Seq<TokenModel>, from: int, kind: AliasKind)
    requires
        0 <= from,
        from + 1 < ts.len(),
        ts[from] is Not,
        ts[from + 1] is Not,
    ensures
        parse_member(ts, from, kind) == parse_member(ts, from + 2, kind),
{
    assert(not_run(ts, from) == 1 + not_run(ts, from + 1));
    assert(not_run(ts, from + 1) == 1 + not_run(ts, from + 2));
}

proof fn lemma_tags_faults(ts: Seq<TokenModel>, from: int, end: int)
    ensures
        parse_tags(ts, from, end) matches Err(e) ==> e == ErrorKind::Syntax || e
            == ErrorKind::InvalidIdentifier,
    decreases end + 1 - from,
{
    if !(from < 0 || from >= end || from >= ts.len()) {
        lemma_tags_faults(ts, from + 2, end);
    }
}

proof fn lemma_specs_faults(ts: Seq<TokenModel>, from: int)
    ensures
        parse_specs(ts, from) matches Err(e) ==> e == ErrorKind::Syntax || e
            == ErrorKind::InvalidIdentifier,
    decreases ts.len() - from,
{
    match parse_spec(ts, from) {
        Err(e) => {
            let after_runas = if 0 <= from < ts.len() && ts[from] is Open {
                match parse_runas(ts, from) {
                    Some(found) => found.2,
                    None => from,
                }
            } else {
                from
            };
            if tag_list_end(ts, after_runas) is Some {
                lemma_tags_faults(ts, after_runas, tag_list_end(ts, after_runas)->Some_0);
            }
        },
        Ok((spec, next)) => {
            if next != ts.len() && from < next < ts.len() && ts[next] is Comma {
                lemma_specs_faults(ts, next + 1);
            }
        },
    }
}

/// A line is refused for its syntax or for the name it defines or uses as a tag, and for
/// nothing else.
pub proof fn lemma_statement_faults(ts: Seq<TokenModel>)
    ensures
        parse_statement(ts) matches Err(e) ==> e == ErrorKind::Syntax || e
            == ErrorKind::InvalidIdentifier,
{
    if ts.len() > 0 && alias_keyword(ts[0]) is None {
        match parse_list(ts, 0, AliasKind::User) {
            None => {},
            Some((user_list, after_users)) => match parse_list(ts, after_users, AliasKind::Host) {
                None => {},
                Some((host_list, after_hosts)) => {
                    lemma_specs_faults(ts, after_hosts + 1);
                },
            },
        }
    }
}

} // verus!
