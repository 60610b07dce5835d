use vstd::prelude::*;
use vstd::set_lib::{lemma_int_range, lemma_len_subset, set_int_range};
use crate::model::{
    Alias, AliasKind, AliasModel, ErrorKind, FlatEntry, FlatModel, MemberModel, SignedMember,
    Target, TargetModel,
};
use crate::text::{bytes_eq, copy_bytes};

verus! {

/// The alias definitions of a configuration, in the order in which they were made.
#[derive(Debug)]
pub struct AliasTable {
    pub aliases: Vec<Alias>,
}

impl DeepView for AliasTable {
    type V = Seq<AliasModel>;

    open spec fn deep_view(&self) -> Seq<AliasModel> {
        self.aliases.deep_view()
    }
}

/// The result of a flattening: the entries in order, or the first fault met.
pub type Flattened = Result<Seq<FlatModel>, ErrorKind>;

/// The first position at or after `from` that defines `name` in `kind`.
pub open spec fn find_from(table: Seq<AliasModel>, kind: AliasKind, name: Seq<u8>, from: int)
    -> Option<int>
    decreases table.len() - from,
{
    if from < 0 || from >= table.len() {
        None
    } else if table[from].kind == kind && table[from].name == name {
        Some(from)
    } else {
        find_from(table, kind, name, from + 1)
    }
}

/// The position of the definition of `name` in `kind`, if there is one.
pub open spec fn find_alias(table: Seq<AliasModel>, kind: AliasKind, name: Seq<u8>) -> Option<int> {
    find_from(table, kind, name, 0)
}

/// No (kind, name) is defined twice.
pub open spec fn unique_names(table: Seq<AliasModel>) -> bool {
    forall|i: int, j: int|
        0 <= i < j < table.len() ==> !(#[trigger] table[i].kind == #[trigger] table[j].kind
            && table[i].name == table[j].name)
}

/// One flattening after another: the first fault wins, else the entries follow each other.
pub open spec fn join(first: Flattened, second: Flattened) -> Flattened {
    match first {
        Err(e) => Err(e),
        Ok(a) => match second {
            Err(e) => Err(e),
            Ok(b) => Ok(a + b),
        },
    }
}

/// The reference to `name`, used once and not negated.
pub open spec fn reference_to(name: Seq<u8>) -> MemberModel {
    MemberModel { negated: false, target: TargetModel::Alias(name) }
}

/// The flattening of `members[from..]`, read under the sign `negated`, while the aliases at
/// the positions in `path` are being expanded.
///
/// A literal stands for itself, with its own sign composed by exclusive-or with `negated`. A
/// reference stands, in its place, for the flattening of the alias it names, read under the
/// composed sign. A reference to an alias on `path` is a cycle. A reference to a name that is
/// not defined is a fault where `strict` is set, and stands for nothing where it is not.
///
/// The bound on the length of `path` makes the definition well-founded and decides nothing
/// on its own: see `lemma_open_aliases_bounded`.
pub open spec fn expand(
    table: Seq<AliasModel>,
    kind: AliasKind,
    members: Seq<MemberModel>,
    from: int,
    negated: bool,
    path: Seq<int>,
    strict: bool,
) -> Flattened
    decreases table.len() - path.len(), members.len() - from,
{
    if from < 0 || from >= members.len() {
        Ok(Seq::empty())
    } else {
        let sign = negated != members[from].negated;
        let head: Flattened = match members[from].target {
            TargetModel::Literal(pattern) => Ok(seq![FlatModel { pattern, negated: sign }]),
            TargetModel::Alias(name) => match find_alias(table, kind, name) {
                None => if strict {
                    Err(ErrorKind::UndefinedAlias)
                } else {
                    Ok(Seq::empty())
                },
                Some(i) => if path.contains(i) || path.len() >= table.len() {
                    Err(ErrorKind::CyclicAlias)
                } else {
                    expand(table, kind, table[i].members, 0, sign, path.push(i), strict)
                },
            },
        };
        join(head, expand(table, kind, members, from + 1, negated, path, strict))
    }
}

/// The flattening of a whole list as a rule uses it.
pub open spec fn flatten_list(table: Seq<AliasModel>, kind: AliasKind, members: Seq<MemberModel>)
    -> Flattened {
    expand(table, kind, members, 0, false, Seq::empty(), true)
}

/// The flattening of the alias `name` of `kind`.
pub open spec fn flatten_name(table: Seq<AliasModel>, kind: AliasKind, name: Seq<u8>) -> Flattened {
    flatten_list(table, kind, seq![reference_to(name)])
}

/// No cycle is reached from the alias at position `i`, whatever is left undefined.
pub open spec fn alias_is_sound(table: Seq<AliasModel>, i: int) -> bool {
    expand(
        table,
        table[i].kind,
        seq![reference_to(table[i].name)],
        0,
        false,
        Seq::empty(),
        false,
    ) is Ok
}

/// The first position at or after `from` of an alias from which a cycle is reached.
pub open spec fn first_cycle_from(table: Seq<AliasModel>, from: int) -> Option<int>
    decreases table.len() - from,
{
    if from < 0 || from >= table.len() {
        None
    } else if !alias_is_sound(table, from) {
        Some(from)
    } else {
        first_cycle_from(table, from + 1)
    }
}

/// No alias reaches itself through its references: no cycle is reached from any alias.
pub open spec fn acyclic(table: Seq<AliasModel>) -> bool {
    forall|i: int| 0 <= i < table.len() ==> alias_is_sound(table, i)
}

/// A list under expansion: the alias that holds it (`None` for the list that was asked for),
/// the position of its next member, and the sign under which it is read.
struct Frame {
    alias: Option<usize>,
    pos: usize,
    negated: bool,
}

spec fn frame_members(table: Seq<AliasModel>, root: Seq<MemberModel>, f: Frame) -> Seq<
    MemberModel,
> {
    match f.alias {
        None => root,
        Some(i) => table[i as int].members,
    }
}

spec fn frame_ok(table: Seq<AliasModel>, root: Seq<MemberModel>, f: Frame) -> bool {
    &&& f.alias matches Some(i) ==> i < table.len()
    &&& f.pos <= frame_members(table, root, f).len()
}

/// The aliases under expansion, outermost first.
spec fn path_of(stack: Seq<Frame>) -> Seq<int>
    decreases stack.len(),
{
    if stack.len() == 0 {
        Seq::empty()
    } else {
        let below = path_of(stack.drop_last());
        match stack.last().alias {
            None => below,
            Some(i) => below.push(i as int),
        }
    }
}

/// What is still to come from the lists on the stack, innermost first.
spec fn resume(
    table: Seq<AliasModel>,
    kind: AliasKind,
    root: Seq<MemberModel>,
    stack: Seq<Frame>,
    strict: bool,
) -> Flattened
    decreases stack.len(),
{
    if stack.len() == 0 {
        Ok(Seq::empty())
    } else {
        let f = stack.last();
        join(
            expand(
                table,
                kind,
                frame_members(table, root, f),
                f.pos as int,
                f.negated,
                path_of(stack),
                strict,
            ),
            resume(table, kind, root, stack.drop_last(), strict),
        )
    }
}

/// The number of steps that the expansion of `members[from..]` takes.
spec fn effort(
    table: Seq<AliasModel>,
    kind: AliasKind,
    members: Seq<MemberModel>,
    from: int,
    path: Seq<int>,
) -> nat
    decreases table.len() - path.len(), members.len() - from,
{
    if from < 0 || from >= members.len() {
        1
    } else {
        let head: nat = match members[from].target {
            TargetModel::Literal(pattern) => 1,
            TargetModel::Alias(name) => match find_alias(table, kind, name) {
                None => 1,
                Some(i) => if path.contains(i) || path.len() >= table.len() {
                    1
                } else {
                    1 + effort(table, kind, table[i].members, 0, path.push(i))
                },
            },
        };
        head + effort(table, kind, members, from + 1, path)
    }
}

/// The number of steps that the lists on the stack still take.
spec fn pending(table: Seq<AliasModel>, kind: AliasKind, root: Seq<MemberModel>, stack: Seq<Frame>)
    -> nat
    decreases stack.len(),
{
    if stack.len() == 0 {
        0
    } else {
        let f = stack.last();
        effort(table, kind, frame_members(table, root, f), f.pos as int, path_of(stack)) + pending(
            table,
            kind,
            root,
            stack.drop_last(),
        )
    }
}

/// Joining is associative.
pub proof fn lemma_join_assoc(a: Flattened, b: Flattened, c: Flattened)
    ensures
        join(join(a, b), c) == join(a, join(b, c)),
{
    if a is Ok && b is Ok && c is Ok {
        assert((a->Ok_0 + b->Ok_0) + c->Ok_0 =~= a->Ok_0 + (b->Ok_0 + c->Ok_0));
    }
}

/// A flattening without entries changes nothing where it is joined.
pub proof fn lemma_join_empty(a: Flattened)
    ensures
        join(Ok(Seq::empty()), a) == a,
        join(a, Ok(Seq::empty())) == a,
{
    if a is Ok {
        assert(Seq::<FlatModel>::empty() + a->Ok_0 =~= a->Ok_0);
        assert(a->Ok_0 + Seq::<FlatModel>::empty() =~= a->Ok_0);
    }
}

/// What a stack with `f` on top stands for, in terms of what is below `f`.
proof fn lemma_top_frame(
    table: Seq<AliasModel>,
    kind: AliasKind,
    root: Seq<MemberModel>,
    below: Seq<Frame>,
    f: Frame,
    strict: bool,
)
    ensures
        path_of(below.push(f)) == (match f.alias {
            None => path_of(below),
            Some(i) => path_of(below).push(i as int),
        }),
        resume(table, kind, root, below.push(f), strict) == join(
            expand(
                table,
                kind,
                frame_members(table, root, f),
                f.pos as int,
                f.negated,
                path_of(below.push(f)),
                strict,
            ),
            resume(table, kind, root, below, strict),
        ),
        pending(table, kind, root, below.push(f)) == effort(
            table,
            kind,
            frame_members(table, root, f),
            f.pos as int,
            path_of(below.push(f)),
        ) + pending(table, kind, root, below),
{
    assert(below.push(f).drop_last() =~= below);
    assert(below.push(f).last() == f);
}

/// Distinct positions below `n` are at most `n`.
proof fn lemma_path_bound(path: Seq<int>, n: int)
    requires
        0 <= n,
        path.no_duplicates(),
        forall|k: int| 0 <= k < path.len() ==> 0 <= #[trigger] path[k] < n,
    ensures
        path.len() <= n,
{
    path.unique_seq_to_set();
    lemma_int_range(0, n);
    assert(path.to_set().subset_of(set_int_range(0, n))) by {
        assert forall|x: int| path.to_set().contains(x) implies set_int_range(0, n).contains(
            x,
        ) by {
            let k = choose|k: int| 0 <= k < path.len() && path[k] == x;
            assert(0 <= path[k] < n);
        }
    }
    lemma_len_subset(path.to_set(), set_int_range(0, n));
}

/// `find_alias` gives the first definition of the name in the kind, and `None` only where
/// there is none.
pub proof fn lemma_find_alias(table: Seq<AliasModel>, kind: AliasKind, name: Seq<u8>)
    ensures
        match find_alias(table, kind, name) {
            Some(i) => 0 <= i < table.len() && table[i].kind == kind && table[i].name == name
                && forall|j: int| 0 <= j < i ==> !(table[j].kind == kind && table[j].name == name),
            None => forall|j: int|
                0 <= j < table.len() ==> !(table[j].kind == kind && table[j].name == name),
        },
{
    lemma_find_from(table, kind, name, 0);
}

proof fn lemma_find_from(table: Seq<AliasModel>, kind: AliasKind, name: Seq<u8>, from: int)
    requires
        0 <= from,
    ensures
        match find_from(table, kind, name, from) {
            Some(i) => from <= i < table.len() && table[i].kind == kind && table[i].name == name
                && forall|j: int|
                from <= j < i ==> !(table[j].kind == kind && table[j].name == name),
            None => forall|j: int|
                from <= j < table.len() ==> !(table[j].kind == kind && table[j].name == name),
        },
    decreases table.len() - from,
{
    if from < table.len() && !(table[from].kind == kind && table[from].name == name) {
        lemma_find_from(table, kind, name, from + 1);
    }
}

/// The flattening that an executable result stands for.
pub open spec fn flattened_view(r: Result<Vec<FlatEntry>, ErrorKind>) -> Flattened {
    match r {
        Ok(entries) => Ok(entries.deep_view()),
        Err(e) => Err(e),
    }
}

proof fn lemma_push_distinct(p: Seq<int>, i: int)
    ensures
        p.push(i).no_duplicates() <==> (p.no_duplicates() && !p.contains(i)),
        forall|x: int| p.push(i).contains(x) <==> (p.contains(x) || x == i),
{
    let q = p.push(i);
    if q.no_duplicates() {
        assert forall|a: int, b: int| 0 <= a < p.len() && 0 <= b < p.len() && a != b implies p[a]
            != p[b] by {
            assert(q[a] == p[a] && q[b] == p[b]);
        }
        if p.contains(i) {
            let a = choose|a: int| 0 <= a < p.len() && p[a] == i;
            assert(q[a] == i && q[p.len() as int] == i);
        }
    }
    assert forall|x: int| q.contains(x) <==> (p.contains(x) || x == i) by {
        if q.contains(x) {
            let a = choose|a: int| 0 <= a < q.len() && q[a] == x;
            if a < p.len() {
                assert(p[a] == x);
            }
        }
        if p.contains(x) {
            let a = choose|a: int| 0 <= a < p.len() && p[a] == x;
            assert(q[a] == x);
        }
        if x == i {
            assert(q[p.len() as int] == i);
        }
    }
}

/// The entry `e` moves from what is to come to what is done.
proof fn lemma_emit(done: Seq<FlatModel>, e: FlatModel, next: Flattened, below: Flattened)
    ensures
        join(Ok(done), join(join(Ok(seq![e]), next), below)) == join(
            Ok(done.push(e)),
            join(next, below),
        ),
{
    lemma_join_assoc(Ok(seq![e]), next, below);
    lemma_join_assoc(Ok(done), Ok(seq![e]), join(next, below));
    assert(done + seq![e] =~= done.push(e));
}

/// Fewer aliases are held open than the table has: a path of distinct positions of the
/// table that does not hold the position `i` of the table is shorter than the table.
pub proof fn lemma_open_aliases_bounded(table: Seq<AliasModel>, path: Seq<int>, i: int)
    requires
        path.no_duplicates(),
        forall|k: int| 0 <= k < path.len() ==> 0 <= #[trigger] path[k] < table.len(),
        0 <= i < table.len(),
        !path.contains(i),
    ensures
        path.len() < table.len(),
{
    lemma_push_distinct(path, i);
    lemma_path_bound(path.push(i), table.len() as int);
}

impl AliasTable {
    /// A table without definitions.
    pub fn new() -> (table: AliasTable)
        ensures
            table.deep_view() == Seq::<AliasModel>::empty(),
    {
        let table = AliasTable { aliases: Vec::new() };
        proof {
            assert(table.deep_view() =~= Seq::<AliasModel>::empty());
        }
        table
    }

    /// The position of the definition of `name` in `kind`.
    pub fn find(&self, kind: AliasKind, name: &[u8]) -> (found: Option<usize>)
        ensures
            found matches Some(i) ==> i < self.aliases.len(),
            (match found {
                Some(i) => Some(i as int),
                None => None,
            }) == find_alias(self.deep_view(), kind, name@),
    {
        let ghost table = self.deep_view();
        let mut i: usize = 0;
        while i < self.aliases.len()
            invariant
                i <= self.aliases.len(),
                table == self.deep_view(),
                find_alias(table, kind, name@) == find_from(table, kind, name@, i as int),
            decreases self.aliases.len() - i,
        {
            proof {
                assert(table[i as int] == self.aliases@[i as int].deep_view());
            }
            if self.aliases[i].kind == kind && bytes_eq(self.aliases[i].name.as_slice(), name) {
                return Some(i);
            }
            i += 1;
        }
        None
    }

    /// Flattens `members` with a stack of the lists under expansion and a mark on each alias
    /// that is on the stack.
    fn walk(&self, kind: AliasKind, members: &Vec<SignedMember>, strict: bool) -> (out: Result<
        Vec<FlatEntry>,
        ErrorKind,
    >)
        ensures
            flattened_view(out) == expand(
                self.deep_view(),
                kind,
                members.deep_view(),
                0,
                false,
                Seq::empty(),
                strict,
            ),
    {
        let ghost table = self.deep_view();
        let ghost root = members.deep_view();
        let ghost whole = expand(table, kind, root, 0, false, Seq::empty(), strict);
        let n = self.aliases.len();
        let mut visiting: Vec<bool> = Vec::new();
        let mut filled: usize = 0;
        while filled < n
            invariant
                filled <= n,
                visiting@.len() == filled,
                forall|j: int| 0 <= j < filled ==> !visiting@[j],
            decreases n - filled,
        {
            visiting.push(false);
            filled += 1;
        }
        let mut out: Vec<FlatEntry> = Vec::new();
        let mut stack: Vec<Frame> = Vec::new();
        let first = Frame { alias: None, pos: 0, negated: false };
        proof {
            lemma_top_frame(table, kind, root, Seq::empty(), first, strict);
            lemma_join_empty(whole);
            assert(out.deep_view() =~= Seq::<FlatModel>::empty());
        }
        stack.push(first);
        proof {
            assert(stack@ =~= Seq::<Frame>::empty().push(first));
        }
        while stack.len() > 0
            invariant
                table == self.deep_view(),
                root == members.deep_view(),
                n == self.aliases.len(),
                n == table.len(),
                visiting@.len() == n,
                forall|j: int| 0 <= j < n ==> visiting@[j] == path_of(stack@).contains(j),
                path_of(stack@).no_duplicates(),
                forall|k: int|
                    0 <= k < path_of(stack@).len() ==> 0 <= #[trigger] path_of(stack@)[k] < n,
                forall|k: int| 0 <= k < stack@.len() ==> frame_ok(table, root, #[trigger] stack@[k]),
                whole == expand(table, kind, root, 0, false, Seq::empty(), strict),
                whole == join(Ok(out.deep_view()), resume(table, kind, root, stack@, strict)),
            decreases pending(table, kind, root, stack@),
        {
            let ghost before = stack@;
            let ghost done = out.deep_view();
            let f = stack.pop().unwrap();
            let ghost below = stack@;
            let ghost path = path_of(before);
            let ghost rest = resume(table, kind, root, below, strict);
            proof {
                assert(before =~= below.push(f));
                assert(frame_ok(table, root, before[before.len() - 1]));
                lemma_top_frame(table, kind, root, below, f, strict);
                assert forall|k: int| 0 <= k < below.len() implies frame_ok(
                    table,
                    root,
                    #[trigger] below[k],
                ) by {
                    assert(below[k] == before[k]);
                }
            }
            let list: &Vec<SignedMember> = match f.alias {
                None => members,
                Some(i) => {
                    proof {
                        assert(table[i as int] == self.aliases@[i as int].deep_view());
                    }
                    &self.aliases[i].members
                },
            };
            assert(list.deep_view() == frame_members(table, root, f));
            let ghost items = list.deep_view();
            if f.pos >= list.len() {
                if let Some(i) = f.alias {
                    proof {
                        lemma_push_distinct(path_of(below), i as int);
                    }
                    visiting.set(i, false);
                }
                proof {
                    lemma_join_empty(rest);
                    assert forall|k: int| 0 <= k < path_of(below).len() implies 0
                        <= #[trigger] path_of(below)[k] < n by {
                        assert(path_of(below)[k] == path[k]);
                    }
                }
            } else {
                let member = &list[f.pos];
                let sign = f.negated != member.negated;
                let onward = Frame { alias: f.alias, pos: f.pos + 1, negated: f.negated };
                let ghost next = expand(table, kind, items, f.pos + 1, f.negated, path, strict);
                                proof {
                    assert(items[f.pos as int] == list@[f.pos as int].deep_view());
                    lemma_top_frame(table, kind, root, below, onward, strict);
                    assert(path_of(below.push(onward)) == path);
                    assert(frame_ok(table, root, onward));
                }
                match &member.target {
                    Target::Literal(pattern) => {
                        let entry = FlatEntry { pattern: pattern.duplicate(), negated: sign };
                        let ghost e = entry.deep_view();
                        proof {
                            lemma_emit(done, e, next, rest);
                        }
                        out.push(entry);
                        stack.push(onward);
                        proof {
                            assert(out.deep_view() =~= done.push(e));
                        }
                    },
                    Target::Alias(name) => {
                        match self.find(kind, name.as_slice()) {
                            None => {
                                if strict {
                                    return Err(ErrorKind::UndefinedAlias);
                                }
                                proof {
                                    lemma_join_empty(next);
                                }
                                stack.push(onward);
                            },
                            Some(j) => {
                                if visiting[j] {
                                    return Err(ErrorKind::CyclicAlias);
                                }
                                let child = Frame { alias: Some(j), pos: 0, negated: sign };
                                proof {
                                    lemma_push_distinct(path, j as int);
                                    lemma_path_bound(path.push(j as int), n as int);
                                    let inner = expand(
                                        table,
                                        kind,
                                        table[j as int].members,
                                        0,
                                        sign,
                                        path.push(j as int),
                                        strict,
                                    );
                                    lemma_join_assoc(inner, next, rest);
                                    lemma_top_frame(
                                        table,
                                        kind,
                                        root,
                                        below.push(onward),
                                        child,
                                        strict,
                                    );
                                }
                                visiting.set(j, true);
                                stack.push(onward);
                                stack.push(child);
                            },
                        }
                    },
                }
                proof {
                    assert forall|k: int| 0 <= k < stack@.len() implies frame_ok(
                        table,
                        root,
                        #[trigger] stack@[k],
                    ) by {
                        if k < below.len() {
                            assert(stack@[k] == below[k]);
                        }
                    }
                }
            }
        }
        proof {
            lemma_join_empty(Ok(out.deep_view()));
        }
        Ok(out)
    }

    /// Flattens a list as a rule uses it: every reference is replaced, in its place, by the
    /// flattened content of the alias it names.
    pub fn flatten_list(&self, kind: AliasKind, members: &Vec<SignedMember>) -> (out: Result<
        Vec<FlatEntry>,
        ErrorKind,
    >)
        ensures
            flattened_view(out) == flatten_list(self.deep_view(), kind, members.deep_view()),
    {
        self.walk(kind, members, true)
    }

    /// Flattens the alias `name` of `kind`.
    pub fn flatten(&self, kind: AliasKind, name: &[u8]) -> (out: Result<Vec<FlatEntry>, ErrorKind>)
        ensures
            flattened_view(out) == flatten_name(self.deep_view(), kind, name@),
    {
        let mut members: Vec<SignedMember> = Vec::new();
        members.push(SignedMember { negated: false, target: Target::Alias(copy_bytes(name)) });
        proof {
            assert(members.deep_view() =~= seq![reference_to(name@)]);
        }
        self.walk(kind, &members, true)
    }

    /// The first alias, in the order of definition, from which a cycle is reached.
    pub fn first_cycle(&self) -> (found: Option<usize>)
        ensures
            (match found {
                Some(i) => Some(i as int),
                None => None,
            }) == first_cycle_from(self.deep_view(), 0),
            found is None <==> acyclic(self.deep_view()),
            found matches Some(i) ==> i < self.aliases.len() && !alias_is_sound(
                self.deep_view(),
                i as int,
            ) && forall|j: int| 0 <= j < i ==> alias_is_sound(self.deep_view(), j),
    {
        let ghost table = self.deep_view();
        let mut i: usize = 0;
        while i < self.aliases.len()
            invariant
                i <= self.aliases.len(),
                table == self.deep_view(),
                forall|j: int| 0 <= j < i ==> alias_is_sound(table, j),
                first_cycle_from(table, 0) == first_cycle_from(table, i as int),
            decreases self.aliases.len() - i,
        {
            let mut members: Vec<SignedMember> = Vec::new();
            members.push(
                SignedMember {
                    negated: false,
                    target: Target::Alias(copy_bytes(self.aliases[i].name.as_slice())),
                },
            );
            proof {
                assert(table[i as int] == self.aliases@[i as int].deep_view());
                assert(members.deep_view() =~= seq![reference_to(table[i as int].name)]);
            }
            let probe = self.walk(self.aliases[i].kind, &members, false);
            if probe.is_err() {
                proof {
                    assert(!alias_is_sound(table, i as int));
                }
                return Some(i);
            }
            i += 1;
        }
        None
    }

    /// Adds the definition of `name` in `kind`, unless the name is taken there.
    pub fn define(&mut self, kind: AliasKind, name: Vec<u8>, members: Vec<SignedMember>) -> (out:
        Result<(), ErrorKind>)
        ensures
            out is Err <==> find_alias(old(self).deep_view(), kind, name@) is Some,
            out is Err ==> out == Err::<(), ErrorKind>(ErrorKind::DuplicateAlias) && final(self).deep_view()
                == old(self).deep_view(),
            out is Ok ==> final(self).deep_view() == old(self).deep_view().push(
                AliasModel { kind, name: name@, members: members.deep_view(), line: 0 },
            ),
            unique_names(old(self).deep_view()) ==> unique_names(final(self).deep_view()),
    {
        self.define_at(kind, name, members, 0)
    }

    /// Adds the definition of `name` in `kind`, made on `line`, unless the name is taken there.
    pub fn define_at(
        &mut self,
        kind: AliasKind,
        name: Vec<u8>,
        members: Vec<SignedMember>,
        line: usize,
    ) -> (out: Result<(), ErrorKind>)
        ensures
            out is Err <==> find_alias(old(self).deep_view(), kind, name@) is Some,
            out is Err ==> out == Err::<(), ErrorKind>(ErrorKind::DuplicateAlias) && final(self).deep_view()
                == old(self).deep_view(),
            out is Ok ==> final(self).deep_view() == old(self).deep_view().push(
                AliasModel { kind, name: name@, members: members.deep_view(), line },
            ),
            unique_names(old(self).deep_view()) ==> unique_names(final(self).deep_view()),
    {
        if self.find(kind, name.as_slice()).is_some() {
            return Err(ErrorKind::DuplicateAlias);
        }
        let ghost before = self.deep_view();
        let ghost model = AliasModel { kind, name: name@, members: members.deep_view(), line };
        self.aliases.push(Alias { kind, name, members, line });
        proof {
            assert(self.deep_view() =~= before.push(model));
            lemma_find_alias(before, kind, model.name);
            if unique_names(before) {
                assert forall|i: int, j: int| 0 <= i < j < before.push(model).len() implies !(
                #[trigger] before.push(model)[i].kind == #[trigger] before.push(model)[j].kind
                    && before.push(model)[i].name == before.push(model)[j].name) by {
                    if j < before.len() {
                        assert(before[i].kind == before.push(model)[i].kind);
                        assert(before[j].kind == before.push(model)[j].kind);
                    }
                }
            }
        }
        Ok(())
    }
}

} // verus!
