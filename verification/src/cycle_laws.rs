use vstd::prelude::*;
use crate::alias::{
    acyclic, alias_is_sound, expand, find_alias, lemma_find_alias, lemma_open_aliases_bounded,
    reference_to,
};
use crate::model::{AliasModel, MemberModel, TargetModel};

verus! {

/// The member at `k` of the alias at `i` is a reference that resolves to the alias at `j`.
pub open spec fn refers_at(table: Seq<AliasModel>, i: int, k: int, j: int) -> bool {
    &&& 0 <= i < table.len()
    &&& 0 <= k < table[i].members.len()
    &&& table[i].members[k].target matches TargetModel::Alias(name) && find_alias(
        table,
        table[i].kind,
        name,
    ) == Some(j)
}

/// The alias at `i` holds a reference that resolves to the alias at `j`.
pub open spec fn refers_to(table: Seq<AliasModel>, i: int, j: int) -> bool {
    exists|k: int| refers_at(table, i, k, j)
}

/// The alias at position `m` of the walk refers to the one after it.
pub open spec fn step_ok(table: Seq<AliasModel>, walk: Seq<int>, m: int) -> bool {
    refers_to(table, walk[m], walk[m + 1])
}

/// Each alias of the walk refers to the next.
pub open spec fn is_walk(table: Seq<AliasModel>, walk: Seq<int>) -> bool {
    forall|m: int| 0 <= m < walk.len() - 1 ==> #[trigger] step_ok(table, walk, m)
}

/// Some alias reaches itself through references: there is a walk of at least one step that
/// ends where it starts.
pub open spec fn has_cycle(table: Seq<AliasModel>) -> bool {
    exists|walk: Seq<int>| #[trigger]
        is_walk(table, walk) && walk.len() >= 2 && walk.first() == walk.last()
}

/// The aliases held open are distinct positions of the table.
spec fn open_ok(table: Seq<AliasModel>, path: Seq<int>) -> bool {
    &&& path.no_duplicates()
    &&& forall|k: int| 0 <= k < path.len() ==> 0 <= #[trigger] path[k] < table.len()
}

proof fn lemma_open_push(table: Seq<AliasModel>, path: Seq<int>, j: int)
    requires
        open_ok(table, path),
        0 <= j < table.len(),
        !path.contains(j),
    ensures
        open_ok(table, path.push(j)),
{
    let grown = path.push(j);
    assert forall|a: int, b: int| 0 <= a < grown.len() && 0 <= b < grown.len() && a
        != b implies grown[a] != grown[b] by {
        if a < path.len() && b < path.len() {
            assert(path[a] != path[b]);
        } else if a < path.len() {
            assert(path[a] != j);
        } else {
            assert(path[b] != j);
        }
    }
}

/// A lenient expansion that fails while a walk is held open shows a cycle.
proof fn lemma_fault_shows_cycle(
    table: Seq<AliasModel>,
    members: Seq<MemberModel>,
    from: int,
    negated: bool,
    path: Seq<int>,
)
    requires
        path.len() >= 1,
        open_ok(table, path),
        is_walk(table, path),
        members == table[path.last()].members,
        0 <= from,
        expand(table, table[path.last()].kind, members, from, negated, path, false) is Err,
    ensures
        has_cycle(table),
    decreases table.len() - path.len(), members.len() - from,
{
    let kind = table[path.last()].kind;
    if from < members.len() {
        let sign = negated != members[from].negated;
        let tail = expand(table, kind, members, from + 1, negated, path, false);
        match members[from].target {
            TargetModel::Literal(pattern) => {
                lemma_fault_shows_cycle(table, members, from + 1, negated, path);
            },
            TargetModel::Alias(name) => {
                lemma_find_alias(table, kind, name);
                match find_alias(table, kind, name) {
                    None => {
                        lemma_fault_shows_cycle(table, members, from + 1, negated, path);
                    },
                    Some(j) => {
                        assert(refers_at(table, path.last(), from, j));
                        assert(refers_to(table, path.last(), j));
                        if path.contains(j) {
                            let m = choose|m: int| 0 <= m < path.len() && path[m] == j;
                            let walk = path.subrange(m, path.len() as int).push(j);
                            assert forall|x: int| 0 <= x < walk.len() - 1 implies #[trigger] step_ok(
                                table,
                                walk,
                                x,
                            ) by {
                                if x < walk.len() - 2 {
                                    assert(step_ok(table, path, m + x));
                                    assert(walk[x] == path[m + x]);
                                    assert(walk[x + 1] == path[m + x + 1]);
                                } else {
                                    assert(walk[x] == path.last());
                                    assert(walk[x + 1] == j);
                                }
                            }
                            assert(is_walk(table, walk));
                            assert(walk.first() == j);
                        } else {
                            lemma_open_aliases_bounded(table, path, j);
                            let grown = path.push(j);
                            let head = expand(table, kind, table[j].members, 0, sign, grown, false);
                            if head is Err {
                                lemma_open_push(table, path, j);
                                assert forall|x: int| 0 <= x < grown.len() - 1 implies #[trigger] step_ok(
                                    table,
                                    grown,
                                    x,
                                ) by {
                                    if x < path.len() - 1 {
                                        assert(step_ok(table, path, x));
                                        assert(grown[x] == path[x]);
                                        assert(grown[x + 1] == path[x + 1]);
                                    } else {
                                        assert(grown[x] == path.last());
                                    }
                                }
                                lemma_fault_shows_cycle(table, table[j].members, 0, sign, grown);
                            } else {
                                lemma_fault_shows_cycle(table, members, from + 1, negated, path);
                            }
                        }
                    },
                }
            },
        }
    }
}

/// In a lenient expansion that succeeds, each reference that is still to come resolves to
/// an alias that is not held open, and the expansion of that alias succeeds too.
proof fn lemma_reference_is_open(
    table: Seq<AliasModel>,
    members: Seq<MemberModel>,
    from: int,
    negated: bool,
    path: Seq<int>,
    i: int,
    k: int,
    j: int,
)
    requires
        0 <= from <= k,
        members == table[i].members,
        refers_at(table, i, k, j),
        expand(table, table[i].kind, members, from, negated, path, false) is Ok,
    ensures
        !path.contains(j),
        expand(
            table,
            table[i].kind,
            table[j].members,
            0,
            negated != members[k].negated,
            path.push(j),
            false,
        ) is Ok,
    decreases k - from,
{
    if from < k {
        lemma_reference_is_open(table, members, from + 1, negated, path, i, k, j);
    }
}

/// A walk that returns to its start cannot be followed to its end: the expansion of one of
/// its aliases, with the walk up to it held open, meets a cycle.
proof fn lemma_walk_fails(table: Seq<AliasModel>, walk: Seq<int>, m: int, negated: bool)
    requires
        is_walk(table, walk),
        walk.len() >= 2,
        walk.first() == walk.last(),
        0 <= m < walk.len() - 1,
        0 <= walk[m] < table.len(),
    ensures
        expand(
            table,
            table[walk[m]].kind,
            table[walk[m]].members,
            0,
            negated,
            walk.take(m + 1),
            false,
        ) is Err,
    decreases walk.len() - m,
{
    let i = walk[m];
    let j = walk[m + 1];
    let path = walk.take(m + 1);
    if expand(table, table[i].kind, table[i].members, 0, negated, path, false) is Ok {
        assert(step_ok(table, walk, m));
        let k = choose|k: int| refers_at(table, i, k, j);
        lemma_reference_is_open(table, table[i].members, 0, negated, path, i, k, j);
        lemma_find_alias(table, table[i].kind, table[i].members[k].target->Alias_0);
        if m + 1 == walk.len() - 1 {
            assert(path[0] == walk[0]);
            assert(path.contains(j));
        } else {
            assert(path.push(j) =~= walk.take(m + 2));
            lemma_walk_fails(table, walk, m + 1, negated != table[i].members[k].negated);
        }
    }
}

/// The check for cycles is exact: it passes exactly where no alias reaches itself through
/// references, each reference resolved to the first definition of its name in its kind.
pub proof fn lemma_acyclic_iff_no_cycle(table: Seq<AliasModel>)
    ensures
        acyclic(table) <==> !has_cycle(table),
{
    if !acyclic(table) {
        let i = choose|i: int| 0 <= i < table.len() && !alias_is_sound(table, i);
        let kind = table[i].kind;
        let probe = seq![reference_to(table[i].name)];
        lemma_find_alias(table, kind, table[i].name);
        let first = find_alias(table, kind, table[i].name)->Some_0;
        let path = Seq::<int>::empty().push(first);
        assert(!Seq::<int>::empty().contains(first));
        assert(expand(table, kind, probe, 1, false, Seq::empty(), false) is Ok);
        assert(expand(table, kind, table[first].members, 0, false, path, false) is Err);
        assert(is_walk(table, path));
        lemma_fault_shows_cycle(table, table[first].members, 0, false, path);
    }
    if has_cycle(table) && acyclic(table) {
        let walk = choose|walk: Seq<int>| #[trigger]
            is_walk(table, walk) && walk.len() >= 2 && walk.first() == walk.last();
        let last = walk.len() - 2;
        assert(step_ok(table, walk, last));
        let start = walk[0];
        let k = choose|k: int| refers_at(table, walk[last], k, start);
        lemma_find_alias(
            table,
            table[walk[last]].kind,
            table[walk[last]].members[k].target->Alias_0,
        );
        assert(alias_is_sound(table, start));
        let probe = seq![reference_to(table[start].name)];
        assert(find_alias(table, table[start].kind, table[start].name) == Some(start));
        assert(!Seq::<int>::empty().contains(start));
        assert(Seq::<int>::empty().push(start) =~= walk.take(1));
        lemma_walk_fails(table, walk, 0, false);
        assert(expand(table, table[start].kind, probe, 1, false, Seq::empty(), false) is Ok);
    }
}

} // verus!
