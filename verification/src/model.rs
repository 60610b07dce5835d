use vstd::prelude::*;
use crate::text::{copy_bytes, copy_list};

verus! {

/// The four alias namespaces. A name defined in one kind says nothing about the others.
#[derive(Clone, Copy, PartialEq, Eq, Structural, Debug)]
pub enum AliasKind {
    User,
    Runas,
    Host,
    Cmnd,
}

/// What can be wrong with a configuration.
#[derive(Clone, Copy, PartialEq, Eq, Structural, Debug)]
pub enum ErrorKind {
    /// A line is neither blank, nor an alias definition, nor a rule.
    Syntax,
    /// An alias is defined under a name that is not an identifier.
    InvalidIdentifier,
    /// The same name is defined twice within one kind.
    DuplicateAlias,
    /// An alias reaches itself through its references.
    CyclicAlias,
    /// A reference names an alias that is not defined in its kind.
    UndefinedAlias,
}

/// A fault together with the line of the configuration text that holds it (lines count from 1).
#[derive(Clone, Copy, PartialEq, Eq, Structural, Debug)]
pub struct ConfigError {
    pub kind: ErrorKind,
    pub line: usize,
}

/// A literal that a list entry is held against.
#[derive(Debug, PartialEq, Eq)]
pub enum Pattern {
    /// The keyword `ALL`: matches anything.
    All,
    /// The name of a user, a host or a group, depending on the list.
    Name(Vec<u8>),
    /// `%name` in a user list: every member of the group.
    Group(Vec<u8>),
    /// An absolute path; with no fixed arguments it admits any arguments.
    Command { path: Vec<u8>, args: Vec<Vec<u8>> },
}

/// What a `Pattern` stands for: the same literal over sequences of bytes.
pub enum PatternModel {
    All,
    Name(Seq<u8>),
    Group(Seq<u8>),
    Command { path: Seq<u8>, args: Seq<Seq<u8>> },
}

impl DeepView for Pattern {
    type V = PatternModel;

    open spec fn deep_view(&self) -> PatternModel {
        match *self {
            Pattern::All => PatternModel::All,
            Pattern::Name(name) => PatternModel::Name(name@),
            Pattern::Group(name) => PatternModel::Group(name@),
            Pattern::Command { path, args } => PatternModel::Command {
                path: path@,
                args: args.deep_view(),
            },
        }
    }
}

impl Pattern {
    /// A fresh pattern equal to this one.
    pub fn duplicate(&self) -> (out: Pattern)
        ensures
            out.deep_view() == self.deep_view(),
    {
        match self {
            Pattern::All => Pattern::All,
            Pattern::Name(name) => Pattern::Name(copy_bytes(name.as_slice())),
            Pattern::Group(name) => Pattern::Group(copy_bytes(name.as_slice())),
            Pattern::Command { path, args } => Pattern::Command {
                path: copy_bytes(path.as_slice()),
                args: copy_list(args),
            },
        }
    }
}

/// What a list member names: a literal, or another alias of the list's kind.
#[derive(Debug, PartialEq, Eq)]
pub enum Target {
    Literal(Pattern),
    Alias(Vec<u8>),
}

/// What a `Target` stands for.
pub enum TargetModel {
    Literal(PatternModel),
    Alias(Seq<u8>),
}

impl DeepView for Target {
    type V = TargetModel;

    open spec fn deep_view(&self) -> TargetModel {
        match *self {
            Target::Literal(pattern) => TargetModel::Literal(pattern.deep_view()),
            Target::Alias(name) => TargetModel::Alias(name@),
        }
    }
}

/// A list member: `negated` is set when an odd number of `!` precede it.
#[derive(Debug, PartialEq, Eq)]
pub struct SignedMember {
    pub negated: bool,
    pub target: Target,
}

/// What a `SignedMember` stands for.
pub struct MemberModel {
    pub negated: bool,
    pub target: TargetModel,
}

impl DeepView for SignedMember {
    type V = MemberModel;

    open spec fn deep_view(&self) -> MemberModel {
        MemberModel { negated: self.negated, target: self.target.deep_view() }
    }
}

/// An entry of a flattened list: a literal with the sign that its whole path gave it.
#[derive(Debug, PartialEq, Eq)]
pub struct FlatEntry {
    pub pattern: Pattern,
    pub negated: bool,
}

/// What a `FlatEntry` stands for.
pub struct FlatModel {
    pub pattern: PatternModel,
    pub negated: bool,
}

impl DeepView for FlatEntry {
    type V = FlatModel;

    open spec fn deep_view(&self) -> FlatModel {
        FlatModel { pattern: self.pattern.deep_view(), negated: self.negated }
    }
}

/// A named, ordered, signed list of members of one kind.
#[derive(Debug, PartialEq, Eq)]
pub struct Alias {
    pub kind: AliasKind,
    pub name: Vec<u8>,
    pub members: Vec<SignedMember>,
    /// The line that defines the alias; 0 where it does not come from a text.
    pub line: usize,
}

/// What an `Alias` stands for.
pub struct AliasModel {
    pub kind: AliasKind,
    pub name: Seq<u8>,
    pub members: Seq<MemberModel>,
    pub line: usize,
}

impl DeepView for Alias {
    type V = AliasModel;

    open spec fn deep_view(&self) -> AliasModel {
        AliasModel {
            kind: self.kind,
            name: self.name@,
            members: self.members.deep_view(),
            line: self.line,
        }
    }
}

} // verus!
