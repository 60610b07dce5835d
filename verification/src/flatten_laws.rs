use vstd::prelude::*;
use crate::alias::{
    acyclic, alias_is_sound, expand, find_alias, flatten_list, join, lemma_find_alias,
    lemma_join_assoc, lemma_join_empty, reference_to, Flattened,
};
use crate::model::{AliasKind, AliasModel, ErrorKind, FlatModel, MemberModel, TargetModel};

verus! {

/// The same entries with every sign turned over.
pub open spec fn flipped(r: Flattened) -> Flattened {
    match r {
        Ok(entries) => Ok(
            Seq::new(
                entries.len(),
                |i: int| FlatModel { pattern: entries[i].pattern, negated: !entries[i].negated },
            ),
        ),
        Err(e) => Err(e),
    }
}

proof fn lemma_flip_join(a: Flattened, b: Flattened)
    ensures
        flipped(join(a, b)) == join(flipped(a), flipped(b)),
{
    if a is Ok && b is Ok {
        assert(flipped(join(a, b))->Ok_0 =~= flipped(a)->Ok_0 + flipped(b)->Ok_0);
    }
}

/// Turning a sign over twice gives the entries back.
pub proof fn lemma_flip_twice(r: Flattened)
    ensures
        flipped(flipped(r)) == r,
{
    if r is Ok {
        assert(flipped(flipped(r))->Ok_0 =~= r->Ok_0);
    }
}

/// Negation is composed by exclusive-or: a list read under the opposite sign gives the same
/// literals in the same order, each with the opposite sign, and the same fault if there is
/// one.
pub proof fn lemma_negation_flips(
    table: Seq<AliasModel>,
    kind: AliasKind,
    members: Seq<MemberModel>,
    from: int,
    negated: bool,
    path: Seq<int>,
    strict: bool,
)
    ensures
        expand(table, kind, members, from, !negated, path, strict) == flipped(
            expand(table, kind, members, from, negated, path, strict),
        ),
    decreases table.len() - path.len(), members.len() - from,
{
    if 0 <= from < members.len() {
        let sign = negated != members[from].negated;
        lemma_negation_flips(table, kind, members, from + 1, negated, path, strict);
        let tail = expand(table, kind, members, from + 1, negated, path, strict);
        match members[from].target {
            TargetModel::Literal(pattern) => {
                let head: Flattened = Ok(seq![FlatModel { pattern, negated: sign }]);
                let turned: Flattened = Ok(seq![FlatModel { pattern, negated: !sign }]);
                assert(flipped(head)->Ok_0 =~= turned->Ok_0);
                lemma_flip_join(head, tail);
            },
            TargetModel::Alias(name) => {
                match find_alias(table, kind, name) {
                    None => {
                        let head: Flattened = if strict {
                            Err(ErrorKind::UndefinedAlias)
                        } else {
                            Ok(Seq::empty())
                        };
                        if !strict {
                            assert(flipped(head)->Ok_0 =~= Seq::<FlatModel>::empty());
                        }
                        lemma_flip_join(head, tail);
                    },
                    Some(i) => {
                        if path.contains(i) || path.len() >= table.len() {
                            lemma_flip_join(Err(ErrorKind::CyclicAlias), tail);
                        } else {
                            lemma_negation_flips(
                                table,
                                kind,
                                table[i].members,
                                0,
                                sign,
                                path.push(i),
                                strict,
                            );
                            lemma_flip_join(
                                expand(table, kind, table[i].members, 0, sign, path.push(i), strict),
                                tail,
                            );
                        }
                    },
                }
            },
        }
    } else {
        assert(flipped(Ok(Seq::<FlatModel>::empty()))->Ok_0 =~= Seq::<FlatModel>::empty());
    }
}

proof fn lemma_expand_suffix(
    table: Seq<AliasModel>,
    kind: AliasKind,
    a: Seq<MemberModel>,
    b: Seq<MemberModel>,
    from: int,
    negated: bool,
    path: Seq<int>,
    strict: bool,
)
    requires
        0 <= from,
    ensures
        expand(table, kind, a + b, a.len() + from, negated, path, strict) == expand(
            table,
            kind,
            b,
            from,
            negated,
            path,
            strict,
        ),
    decreases b.len() - from,
{
    if from < b.len() {
        assert((a + b)[a.len() + from] == b[from]);
        lemma_expand_suffix(table, kind, a, b, from + 1, negated, path, strict);
    }
}

proof fn lemma_expand_prefix(
    table: Seq<AliasModel>,
    kind: AliasKind,
    a: Seq<MemberModel>,
    b: Seq<MemberModel>,
    from: int,
    negated: bool,
    path: Seq<int>,
    strict: bool,
)
    requires
        0 <= from <= a.len(),
    ensures
        expand(table, kind, a + b, from, negated, path, strict) == join(
            expand(table, kind, a, from, negated, path, strict),
            expand(table, kind, b, 0, negated, path, strict),
        ),
    decreases a.len() - from,
{
    let whole = expand(table, kind, b, 0, negated, path, strict);
    if from < a.len() {
        assert((a + b)[from] == a[from]);
        lemma_expand_prefix(table, kind, a, b, from + 1, negated, path, strict);
        let sign = negated != a[from].negated;
        let head: Flattened = match a[from].target {
            TargetModel::Literal(pattern) => Ok(seq![FlatModel { pattern, negated: sign }]),
            TargetModel::Alias(name) => match find_alias(table, kind, name) {
                None => if strict {
                    Err(ErrorKind::UndefinedAlias)
                } else {
                    Ok(Seq::empty())
                },
                Some(i) => if path.contains(i) || path.len() >= table.len() {
                    Err(ErrorKind::CyclicAlias)
                } else {
                    expand(table, kind, table[i].members, 0, sign, path.push(i), strict)
                },
            },
        };
        lemma_join_assoc(
            head,
            expand(table, kind, a, from + 1, negated, path, strict),
            whole,
        );
    } else {
        lemma_expand_suffix(table, kind, a, b, 0, negated, path, strict);
        lemma_join_empty(whole);
    }
}

/// Flattening keeps the order of a list: the flattening of two lists written one after the
/// other is the flattening of the first followed by the flattening of the second.
pub proof fn lemma_flatten_concat(
    table: Seq<AliasModel>,
    kind: AliasKind,
    a: Seq<MemberModel>,
    b: Seq<MemberModel>,
)
    ensures
        flatten_list(table, kind, a + b) == join(
            flatten_list(table, kind, a),
            flatten_list(table, kind, b),
        ),
{
    lemma_expand_prefix(table, kind, a, b, 0, false, Seq::empty(), true);
}

/// A literal stands for itself, with the sign written before it.
pub proof fn lemma_flatten_literal(table: Seq<AliasModel>, kind: AliasKind, member: MemberModel)
    requires
        member.target is Literal,
    ensures
        flatten_list(table, kind, seq![member]) == Ok::<Seq<FlatModel>, ErrorKind>(
            seq![FlatModel { pattern: member.target->Literal_0, negated: member.negated }],
        ),
{
    let members = seq![member];
    assert(expand(table, kind, members, 1, false, Seq::empty(), true) == Ok::<
        Seq<FlatModel>,
        ErrorKind,
    >(Seq::empty()));
    lemma_join_empty(
        Ok(seq![FlatModel { pattern: member.target->Literal_0, negated: member.negated }]),
    );
}

/// A reference to a defined alias stands for the members of that alias, flattened in turn and
/// read under the sign written before the reference.
pub proof fn lemma_flatten_reference(
    table: Seq<AliasModel>,
    kind: AliasKind,
    member: MemberModel,
    i: int,
)
    requires
        member.target is Alias,
        find_alias(table, kind, member.target->Alias_0) == Some(i),
    ensures
        flatten_list(table, kind, seq![member]) == expand(
            table,
            kind,
            table[i].members,
            0,
            member.negated,
            seq![i],
            true,
        ),
{
    let members = seq![member];
    lemma_find_alias(table, kind, member.target->Alias_0);
    assert(Seq::<int>::empty().push(i) =~= seq![i]);
    assert(expand(table, kind, members, 1, false, Seq::empty(), true) == Ok::<
        Seq<FlatModel>,
        ErrorKind,
    >(Seq::empty()));
    lemma_join_empty(
        expand(table, kind, table[i].members, 0, member.negated, seq![i], true),
    );
}

/// A reference is expanded where it stands: what is written before it comes first, then the
/// content of the alias, then what is written after it.
pub proof fn lemma_reference_expands_in_place(
    table: Seq<AliasModel>,
    kind: AliasKind,
    before: Seq<MemberModel>,
    member: MemberModel,
    after: Seq<MemberModel>,
    i: int,
)
    requires
        member.target is Alias,
        find_alias(table, kind, member.target->Alias_0) == Some(i),
    ensures
        flatten_list(table, kind, before + seq![member] + after) == join(
            join(
                flatten_list(table, kind, before),
                expand(table, kind, table[i].members, 0, member.negated, seq![i], true),
            ),
            flatten_list(table, kind, after),
        ),
{
    lemma_flatten_concat(table, kind, before + seq![member], after);
    lemma_flatten_concat(table, kind, before, seq![member]);
    lemma_flatten_reference(table, kind, member, i);
}

/// Where nothing is left undefined and no cycle is met, being strict changes nothing; and a
/// strict expansion meets a cycle only where a lenient one meets it too.
proof fn lemma_lenient_covers(
    table: Seq<AliasModel>,
    kind: AliasKind,
    members: Seq<MemberModel>,
    from: int,
    negated: bool,
    path: Seq<int>,
)
    requires
        expand(table, kind, members, from, negated, path, false) is Ok,
    ensures
        expand(table, kind, members, from, negated, path, true) != Err::<
            Seq<FlatModel>,
            ErrorKind,
        >(ErrorKind::CyclicAlias),
    decreases table.len() - path.len(), members.len() - from,
{
    if 0 <= from < members.len() {
        let sign = negated != members[from].negated;
        lemma_lenient_covers(table, kind, members, from + 1, negated, path);
        match members[from].target {
            TargetModel::Literal(pattern) => {},
            TargetModel::Alias(name) => {
                match find_alias(table, kind, name) {
                    None => {},
                    Some(i) => {
                        lemma_lenient_covers(table, kind, table[i].members, 0, sign, path.push(i));
                    },
                }
            },
        }
    }
}

/// A lenient expansion that meets no cycle meets none under another sign and with fewer
/// aliases held open.
proof fn lemma_lenient_monotone(
    table: Seq<AliasModel>,
    kind: AliasKind,
    members: Seq<MemberModel>,
    from: int,
    negated: bool,
    path: Seq<int>,
    other_sign: bool,
    other_path: Seq<int>,
)
    requires
        expand(table, kind, members, from, negated, path, false) is Ok,
        other_path.len() <= path.len(),
        forall|x: int| other_path.contains(x) ==> path.contains(x),
    ensures
        expand(table, kind, members, from, other_sign, other_path, false) is Ok,
    decreases table.len() - path.len(), members.len() - from,
{
    if 0 <= from < members.len() {
        let sign = negated != members[from].negated;
        let other = other_sign != members[from].negated;
        lemma_lenient_monotone(
            table,
            kind,
            members,
            from + 1,
            negated,
            path,
            other_sign,
            other_path,
        );
        match members[from].target {
            TargetModel::Literal(pattern) => {},
            TargetModel::Alias(name) => {
                match find_alias(table, kind, name) {
                    None => {},
                    Some(i) => {
                        assert forall|x: int| other_path.push(i).contains(x) implies path.push(
                            i,
                        ).contains(x) by {
                            let k = choose|k: int|
                                0 <= k < other_path.push(i).len() && other_path.push(i)[k] == x;
                            if k < other_path.len() {
                                assert(other_path[k] == x);
                                assert(other_path.contains(x));
                                let m = choose|m: int| 0 <= m < path.len() && path[m] == x;
                                assert(path.push(i)[m] == x);
                            } else {
                                assert(path.push(i)[path.len() as int] == x);
                            }
                        }
                        lemma_lenient_monotone(
                            table,
                            kind,
                            table[i].members,
                            0,
                            sign,
                            path.push(i),
                            other,
                            other_path.push(i),
                        );
                    },
                }
            },
        }
    }
}

proof fn lemma_acyclic_lenient(
    table: Seq<AliasModel>,
    kind: AliasKind,
    members: Seq<MemberModel>,
    from: int,
    negated: bool,
)
    requires
        acyclic(table),
    ensures
        expand(table, kind, members, from, negated, Seq::empty(), false) is Ok,
    decreases members.len() - from,
{
    if 0 <= from < members.len() {
        let sign = negated != members[from].negated;
        lemma_acyclic_lenient(table, kind, members, from + 1, negated);
        match members[from].target {
            TargetModel::Literal(pattern) => {},
            TargetModel::Alias(name) => {
                lemma_find_alias(table, kind, name);
                match find_alias(table, kind, name) {
                    None => {},
                    Some(i) => {
                        assert(alias_is_sound(table, i));
                        let probe = seq![reference_to(table[i].name)];
                        assert(probe[0] == reference_to(name));
                        assert(expand(table, kind, probe, 1, false, Seq::empty(), false) is Ok);
                        let inner = expand(
                            table,
                            kind,
                            table[i].members,
                            0,
                            false,
                            Seq::<int>::empty().push(i),
                            false,
                        );
                        assert(!Seq::<int>::empty().contains(i));
                        assert(inner is Ok);
                        lemma_lenient_monotone(
                            table,
                            kind,
                            table[i].members,
                            0,
                            false,
                            Seq::<int>::empty().push(i),
                            sign,
                            Seq::<int>::empty().push(i),
                        );
                    },
                }
            },
        }
    }
}

/// Once no alias reaches itself, no flattening reports a cycle, whatever list is flattened.
pub proof fn lemma_acyclic_never_cyclic(
    table: Seq<AliasModel>,
    kind: AliasKind,
    members: Seq<MemberModel>,
)
    requires
        acyclic(table),
    ensures
        flatten_list(table, kind, members) != Err::<Seq<FlatModel>, ErrorKind>(
            ErrorKind::CyclicAlias,
        ),
{
    lemma_acyclic_lenient(table, kind, members, 0, false);
    lemma_lenient_covers(table, kind, members, 0, false, Seq::empty());
}

/// A flattening fails only for a cycle or for a name that is not defined.
pub proof fn lemma_flatten_faults(
    table: Seq<AliasModel>,
    kind: AliasKind,
    members: Seq<MemberModel>,
    from: int,
    negated: bool,
    path: Seq<int>,
    strict: bool,
)
    ensures
        match expand(table, kind, members, from, negated, path, strict) {
            Ok(_) => true,
            Err(e) => e == ErrorKind::CyclicAlias || (strict && e == ErrorKind::UndefinedAlias),
        },
    decreases table.len() - path.len(), members.len() - from,
{
    if 0 <= from < members.len() {
        let sign = negated != members[from].negated;
        lemma_flatten_faults(table, kind, members, from + 1, negated, path, strict);
        match members[from].target {
            TargetModel::Literal(pattern) => {},
            TargetModel::Alias(name) => {
                match find_alias(table, kind, name) {
                    None => {},
                    Some(i) => {
                        if !(path.contains(i) || path.len() >= table.len()) {
                            lemma_flatten_faults(
                                table,
                                kind,
                                table[i].members,
                                0,
                                sign,
                                path.push(i),
                                strict,
                            );
                        }
                    },
                }
            },
        }
    }
}

} // verus!
