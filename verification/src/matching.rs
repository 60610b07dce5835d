use vstd::prelude::*;
use crate::model::{FlatEntry, FlatModel, Pattern, PatternModel};
use crate::text::{bytes_eq, list_contains, lists_eq};

verus! {

/// What a list is asked about: who invokes, on which host, as whom, or which command.
pub enum Subject<'a> {
    User { name: &'a [u8], groups: &'a Vec<Vec<u8>> },
    Host(&'a [u8]),
    RunasUser(&'a [u8]),
    RunasGroup(&'a [u8]),
    Command { path: &'a [u8], args: &'a Vec<Vec<u8>> },
}

/// What a `Subject` stands for.
pub enum SubjectModel {
    User { name: Seq<u8>, groups: Seq<Seq<u8>> },
    Host(Seq<u8>),
    RunasUser(Seq<u8>),
    RunasGroup(Seq<u8>),
    Command { path: Seq<u8>, args: Seq<Seq<u8>> },
}

impl<'a> DeepView for Subject<'a> {
    type V = SubjectModel;

    open spec fn deep_view(&self) -> SubjectModel {
        match *self {
            Subject::User { name, groups } => SubjectModel::User {
                name: name@,
                groups: groups.deep_view(),
            },
            Subject::Host(name) => SubjectModel::Host(name@),
            Subject::RunasUser(name) => SubjectModel::RunasUser(name@),
            Subject::RunasGroup(name) => SubjectModel::RunasGroup(name@),
            Subject::Command { path, args } => SubjectModel::Command {
                path: path@,
                args: args.deep_view(),
            },
        }
    }
}

/// Whether a literal matches a subject.
///
/// `ALL` matches everything. A name matches the user, host or group of that name. `%group`
/// matches a user who is a member of the group. A command matches the same absolute path,
/// with any arguments where it fixes none, and with exactly its own arguments where it does.
pub open spec fn pattern_matches(pattern: PatternModel, subject: SubjectModel) -> bool {
    match pattern {
        PatternModel::All => true,
        PatternModel::Name(wanted) => match subject {
            SubjectModel::User { name, groups } => wanted == name,
            SubjectModel::Host(name) => wanted == name,
            SubjectModel::RunasUser(name) => wanted == name,
            SubjectModel::RunasGroup(name) => wanted == name,
            SubjectModel::Command { path, args } => false,
        },
        PatternModel::Group(wanted) => match subject {
            SubjectModel::User { name, groups } => groups.contains(wanted),
            _ => false,
        },
        PatternModel::Command { path: wanted, args: fixed } => match subject {
            SubjectModel::Command { path, args } => wanted == path && (fixed.len() == 0 || fixed
                == args),
            _ => false,
        },
    }
}

/// The last of the values that are there.
pub open spec fn last_some<T>(items: Seq<Option<T>>) -> Option<T>
    decreases items.len(),
{
    if items.len() == 0 {
        None
    } else if items.last() is Some {
        items.last()
    } else {
        last_some(items.drop_last())
    }
}

/// For each entry that matches the subject, its sign.
pub open spec fn match_signs(flat: Seq<FlatModel>, subject: SubjectModel) -> Seq<Option<bool>> {
    Seq::new(
        flat.len(),
        |i: int|
            if pattern_matches(flat[i].pattern, subject) {
                Some(flat[i].negated)
            } else {
                None
            },
    )
}

/// The sign of the last entry that matches the subject: `Some(true)` where that entry is
/// negated, `None` where no entry matches.
pub open spec fn last_match(flat: Seq<FlatModel>, subject: SubjectModel) -> Option<bool> {
    last_some(match_signs(flat, subject))
}

/// The last entry that matches is one that is not negated.
pub open spec fn admits(flat: Seq<FlatModel>, subject: SubjectModel) -> bool {
    last_match(flat, subject) == Some(false)
}

/// Adding an item at the end: it wins where it is there, and changes nothing where it is not.
pub proof fn lemma_last_some_push<T>(items: Seq<Option<T>>, item: Option<T>)
    ensures
        last_some(items.push(item)) == (if item is Some {
            item
        } else {
            last_some(items)
        }),
{
    assert(items.push(item).drop_last() =~= items);
}

/// The last value that is there is the value of an item after which none is there; and
/// nothing is the answer only where no item is there.
pub proof fn lemma_last_some<T>(items: Seq<Option<T>>)
    ensures
        match last_some(items) {
            Some(v) => exists|i: int|
                0 <= i < items.len() && items[i] == Some(v) && forall|j: int|
                    i < j < items.len() ==> items[j] is None,
            None => forall|i: int| 0 <= i < items.len() ==> items[i] is None,
        },
    decreases items.len(),
{
    if items.len() > 0 {
        if items.last() is Some {
            let i = items.len() - 1;
            assert(items[i] == Some(items.last()->Some_0));
        } else {
            let rest = items.drop_last();
            lemma_last_some(rest);
            match last_some(rest) {
                Some(v) => {
                    let i = choose|i: int|
                        0 <= i < rest.len() && rest[i] == Some(v) && forall|j: int|
                            i < j < rest.len() ==> rest[j] is None;
                    assert(items[i] == Some(v));
                    assert forall|j: int| i < j < items.len() implies items[j] is None by {
                        if j < rest.len() {
                            assert(rest[j] is None);
                        }
                    }
                },
                None => {
                    assert forall|i: int| 0 <= i < items.len() implies items[i] is None by {
                        if i < rest.len() {
                            assert(rest[i] is None);
                        }
                    }
                },
            }
        }
    }
}

/// An item after which none is there is the answer.
pub proof fn lemma_last_some_at<T>(items: Seq<Option<T>>, i: int)
    requires
        0 <= i < items.len(),
        items[i] is Some,
        forall|j: int| i < j < items.len() ==> items[j] is None,
    ensures
        last_some(items) == items[i],
    decreases items.len(),
{
    if i < items.len() - 1 {
        assert(items.last() is None);
        lemma_last_some_at(items.drop_last(), i);
    }
}

/// An item that is not there can be taken out without changing the answer.
pub proof fn lemma_last_some_without<T>(items: Seq<Option<T>>, i: int)
    requires
        0 <= i < items.len(),
        items[i] is None,
    ensures
        last_some(items.remove(i)) == last_some(items),
    decreases items.len(),
{
    if i == items.len() - 1 {
        assert(items.remove(i) =~= items.drop_last());
    } else {
        assert(items.remove(i).last() == items.last());
        assert(items.remove(i).drop_last() =~= items.drop_last().remove(i));
        if items.last() is None {
            lemma_last_some_without(items.drop_last(), i);
        }
    }
}

/// Last match wins: the answer of a flattened list is the sign of the last entry whose
/// pattern matches the subject, and there is no answer exactly where no entry matches.
pub proof fn lemma_last_match_wins(flat: Seq<FlatModel>, subject: SubjectModel)
    ensures
        match last_match(flat, subject) {
            Some(negated) => exists|i: int|
                0 <= i < flat.len() && pattern_matches(flat[i].pattern, subject)
                    && flat[i].negated == negated && forall|j: int|
                    i < j < flat.len() ==> !pattern_matches(flat[j].pattern, subject),
            None => forall|i: int|
                0 <= i < flat.len() ==> !pattern_matches(flat[i].pattern, subject),
        },
{
    let signs = match_signs(flat, subject);
    lemma_last_some(signs);
    match last_some(signs) {
        Some(negated) => {
            let i = choose|i: int|
                0 <= i < signs.len() && signs[i] == Some(negated) && forall|j: int|
                    i < j < signs.len() ==> signs[j] is None;
            assert(pattern_matches(flat[i].pattern, subject) && flat[i].negated == negated);
            assert forall|j: int| i < j < flat.len() implies !pattern_matches(
                flat[j].pattern,
                subject,
            ) by {
                assert(signs[j] is None);
            }
        },
        None => {
            assert forall|i: int| 0 <= i < flat.len() implies !pattern_matches(
                flat[i].pattern,
                subject,
            ) by {
                assert(signs[i] is None);
            }
        },
    }
}

/// Whether a literal matches a subject.
pub fn is_match(pattern: &Pattern, subject: &Subject) -> (hit: bool)
    ensures
        hit == pattern_matches(pattern.deep_view(), subject.deep_view()),
{
    match pattern {
        Pattern::All => true,
        Pattern::Name(wanted) => match subject {
            Subject::User { name, groups } => bytes_eq(wanted.as_slice(), name),
            Subject::Host(name) => bytes_eq(wanted.as_slice(), name),
            Subject::RunasUser(name) => bytes_eq(wanted.as_slice(), name),
            Subject::RunasGroup(name) => bytes_eq(wanted.as_slice(), name),
            Subject::Command { path, args } => false,
        },
        Pattern::Group(wanted) => match subject {
            Subject::User { name, groups } => list_contains(groups, wanted.as_slice()),
            _ => false,
        },
        Pattern::Command { path: wanted, args: fixed } => match subject {
            Subject::Command { path, args } => {
                if !bytes_eq(wanted.as_slice(), path) {
                    false
                } else if fixed.len() == 0 {
                    true
                } else {
                    lists_eq(fixed, args)
                }
            },
            _ => false,
        },
    }
}

/// Scans a flattened list from left to right and keeps the sign of the last entry that
/// matches the subject.
pub fn scan(flat: &Vec<FlatEntry>, subject: &Subject) -> (found: Option<bool>)
    ensures
        found == last_match(flat.deep_view(), subject.deep_view()),
{
    let ghost signs = match_signs(flat.deep_view(), subject.deep_view());
    let mut found: Option<bool> = None;
    let mut i: usize = 0;
    while i < flat.len()
        invariant
            i <= flat.len(),
            signs == match_signs(flat.deep_view(), subject.deep_view()),
            found == last_some(signs.take(i as int)),
        decreases flat.len() - i,
    {
        proof {
            assert(flat.deep_view()[i as int] == flat@[i as int].deep_view());
            assert(signs.take(i as int + 1) =~= signs.take(i as int).push(signs[i as int]));
            lemma_last_some_push(signs.take(i as int), signs[i as int]);
        }
        if is_match(&flat[i].pattern, subject) {
            found = Some(flat[i].negated);
        }
        i += 1;
    }
    proof {
        assert(signs.take(i as int) =~= signs);
    }
    found
}

} // verus!
