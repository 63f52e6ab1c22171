//! Reads the identifiers of the active groups out of a record tree.

use vstd::prelude::*;
use crate::tree::{child_ok, ints, well_formed, RecordView, Tree};

verus! {

/// Why a tree does not answer a query.
#[derive(Debug, Clone, PartialEq, Eq)]
pub enum ExtractError {
    /// A group has no child with this key.
    MissingField(String),
}

/// The views of a sequence of strings.
pub open spec fn strings_view(v: Seq<String>) -> Seq<Seq<char>> {
    v.map_values(|s: String| s@)
}

/// What to look for: the key of the groups, the keys of the two fields of
/// a group, and the value of the flag that marks a group as active.
pub struct Query {
    pub group_key: Seq<char>,
    pub id_field: Seq<char>,
    pub flag_field: Seq<char>,
    pub flag_true: Seq<char>,
}

/// The query made of four strings.
pub open spec fn query_of(
    group_key: Seq<char>,
    id_field: Seq<char>,
    flag_field: Seq<char>,
    flag_true: Seq<char>,
) -> Query {
    Query { group_key, id_field, flag_field, flag_true }
}

/// The first of `children` whose key is `key`.
pub open spec fn find_child(t: Seq<RecordView>, children: Seq<int>, key: Seq<char>) -> Option<int>
    decreases children.len(),
{
    if children.len() == 0 {
        None
    } else if t[children[0]].key == key {
        Some(children[0])
    } else {
        find_child(t, children.drop_first(), key)
    }
}

/// What the group at `g` contributes: its identifier where its flag has the
/// value that marks it as active, nothing where it has another. A group
/// without identifier, or with one and without flag, gives the name of what
/// it lacks.
pub open spec fn group_outcome(t: Seq<RecordView>, g: int, q: Query) -> Result<
    Option<Seq<char>>,
    Seq<char>,
> {
    match find_child(t, t[g].children, q.id_field) {
        None => Err(q.id_field),
        Some(id) => match find_child(t, t[g].children, q.flag_field) {
            None => Err(q.flag_field),
            Some(flag) => Ok(
                if t[flag].value == q.flag_true {
                    Some(t[id].value)
                } else {
                    None
                },
            ),
        },
    }
}

/// The identifiers of the active groups among `children`, in order, or the
/// field that the first incomplete group lacks. Records whose key is not
/// the group key are passed over.
pub open spec fn active_ids(t: Seq<RecordView>, children: Seq<int>, q: Query) -> Result<
    Seq<Seq<char>>,
    Seq<char>,
>
    decreases children.len(),
{
    if children.len() == 0 {
        Ok(Seq::empty())
    } else {
        let g = children.last();
        match active_ids(t, children.drop_last(), q) {
            Err(field) => Err(field),
            Ok(ids) => if t[g].key != q.group_key {
                Ok(ids)
            } else {
                match group_outcome(t, g, q) {
                    Err(field) => Err(field),
                    Ok(Some(id)) => Ok(ids.push(id)),
                    Ok(None) => Ok(ids),
                }
            },
        }
    }
}

/// The set of identifiers of the active groups below the root.
pub open spec fn extract_spec(t: Seq<RecordView>, q: Query) -> Result<Set<Seq<char>>, Seq<char>> {
    ids_as_set(active_ids(t, t[0].children, q))
}

/// What a call returned is what `expected` says: on success the same set,
/// each identifier once; on failure the same field.
pub open spec fn extracted(
    r: Result<Vec<String>, ExtractError>,
    expected: Result<Set<Seq<char>>, Seq<char>>,
) -> bool {
    match expected {
        Ok(ids) => match r {
            Ok(v) => strings_view(v@).to_set() == ids && strings_view(v@).no_duplicates(),
            Err(_) => false,
        },
        Err(field) => match r {
            Ok(_) => false,
            Err(ExtractError::MissingField(name)) => name@ == field,
        },
    }
}

/// Once a group has failed, the groups after it change nothing.
pub proof fn lemma_missing_stays(t: Seq<RecordView>, children: Seq<int>, n: int, q: Query)
    requires
        0 <= n <= children.len(),
        active_ids(t, children.take(n), q) is Err,
    ensures
        active_ids(t, children, q) == active_ids(t, children.take(n), q),
    decreases children.len() - n,
{
    if n < children.len() {
        assert(children.take(n + 1).drop_last() =~= children.take(n));
        lemma_missing_stays(t, children, n + 1, q);
    } else {
        assert(children.take(n) =~= children);
    }
}

/// The `k`-th of `children` is a group.
pub open spec fn is_group(t: Seq<RecordView>, children: Seq<int>, k: int, q: Query) -> bool {
    0 <= k < children.len() && t[children[k]].key == q.group_key
}

/// The `k`-th of `children` is a group that is active and has the
/// identifier `x`.
pub open spec fn contributes(
    t: Seq<RecordView>,
    children: Seq<int>,
    k: int,
    q: Query,
    x: Seq<char>,
) -> bool {
    is_group(t, children, k, q) && group_outcome(t, children[k], q) == Ok::<
        Option<Seq<char>>,
        Seq<char>,
    >(Some(x))
}

/// One of `children` is a group that is active and has the identifier `x`.
pub open spec fn is_active_id(t: Seq<RecordView>, children: Seq<int>, q: Query, x: Seq<char>) -> bool {
    exists|k: int| #[trigger] contributes(t, children, k, q, x)
}

/// The `k`-th of `children` is a group that lacks a field.
pub open spec fn incomplete(t: Seq<RecordView>, children: Seq<int>, k: int, q: Query) -> bool {
    is_group(t, children, k, q) && group_outcome(t, children[k], q) is Err
}

/// The `k`-th of `children` is the first group that lacks a field, and
/// `field` is what it lacks.
pub open spec fn first_incomplete(
    t: Seq<RecordView>,
    children: Seq<int>,
    k: int,
    q: Query,
    field: Seq<char>,
) -> bool {
    &&& is_group(t, children, k, q)
    &&& group_outcome(t, children[k], q) == Err::<Option<Seq<char>>, Seq<char>>(field)
    &&& forall|j: int| 0 <= j < k ==> !#[trigger] incomplete(t, children, j, q)
}

/// One of `children` is the first group that lacks a field, and `field` is
/// what it lacks.
pub open spec fn fails_with(
    t: Seq<RecordView>,
    children: Seq<int>,
    q: Query,
    field: Seq<char>,
) -> bool {
    exists|k: int| #[trigger] first_incomplete(t, children, k, q, field)
}

/// No group among `children` is incomplete, and `ids` holds the identifier
/// of each active group and nothing else.
pub open spec fn holds_active_ids(
    t: Seq<RecordView>,
    children: Seq<int>,
    q: Query,
    ids: Set<Seq<char>>,
) -> bool {
    &&& forall|k: int| !#[trigger] incomplete(t, children, k, q)
    &&& forall|x: Seq<char>| #[trigger] ids.contains(x) <==> is_active_id(t, children, q, x)
}

/// `outcome` is what the groups among `children` call for: a failure with
/// the field that the first incomplete group lacks; where none is
/// incomplete, the identifiers of the active groups and nothing else.
pub open spec fn explains(
    t: Seq<RecordView>,
    children: Seq<int>,
    q: Query,
    outcome: Result<Set<Seq<char>>, Seq<char>>,
) -> bool {
    match outcome {
        Ok(ids) => holds_active_ids(t, children, q, ids),
        Err(field) => fails_with(t, children, q, field),
    }
}

/// The outcome of `active_ids`, with the identifiers as a set.
pub open spec fn ids_as_set(outcome: Result<Seq<Seq<char>>, Seq<char>>) -> Result<
    Set<Seq<char>>,
    Seq<char>,
> {
    match outcome {
        Ok(ids) => Ok(ids.to_set()),
        Err(field) => Err(field),
    }
}

/// What `active_ids` gives is what the groups call for.
pub proof fn lemma_active_ids_explained(t: Seq<RecordView>, children: Seq<int>, q: Query)
    ensures
        explains(t, children, q, ids_as_set(active_ids(t, children, q))),
    decreases children.len(),
{
    if children.len() == 0 {
        assert(holds_active_ids(t, children, q, Seq::<Seq<char>>::empty().to_set()));
    } else {
        let prefix = children.drop_last();
        let last = children.len() - 1;
        let g = children.last();
        lemma_active_ids_explained(t, prefix, q);
        assert forall|k: int| (#[trigger] is_group(t, children, k, q)) && k != last implies is_group(
            t,
            prefix,
            k,
            q,
        ) by {
            assert(prefix[k] == children[k]);
        }
        assert forall|k: int| #[trigger] is_group(t, prefix, k, q) implies is_group(
            t,
            children,
            k,
            q,
        ) && prefix[k] == children[k] by {}
        match active_ids(t, prefix, q) {
            Err(field) => {
                let k = choose|k: int| #[trigger] first_incomplete(t, prefix, k, q, field);
                assert(is_group(t, prefix, k, q));
                assert forall|j: int| 0 <= j < k implies !#[trigger] incomplete(
                    t,
                    children,
                    j,
                    q,
                ) by {
                    if incomplete(t, children, j, q) {
                        assert(is_group(t, children, j, q));
                        assert(incomplete(t, prefix, j, q));
                    }
                }
                assert(first_incomplete(t, children, k, q, field));
            },
            Ok(ids) => {
                let before = ids.to_set();
                assert(holds_active_ids(t, prefix, q, before));
                assert forall|j: int| 0 <= j < last implies !#[trigger] incomplete(
                    t,
                    children,
                    j,
                    q,
                ) by {
                    if incomplete(t, children, j, q) {
                        assert(is_group(t, children, j, q));
                        assert(incomplete(t, prefix, j, q));
                    }
                }
                assert forall|x: Seq<char>| is_active_id(t, prefix, q, x) implies is_active_id(
                    t,
                    children,
                    q,
                    x,
                ) by {
                    let k = choose|k: int| #[trigger] contributes(t, prefix, k, q, x);
                    assert(is_group(t, prefix, k, q));
                    assert(contributes(t, children, k, q, x));
                }
                assert forall|k: int, x: Seq<char>|
                    (#[trigger] contributes(t, children, k, q, x)) && k != last implies is_active_id(
                    t,
                    prefix,
                    q,
                    x,
                ) by {
                    assert(is_group(t, children, k, q));
                    assert(contributes(t, prefix, k, q, x));
                }
                if t[g].key != q.group_key {
                    assert(!is_group(t, children, last, q));
                    assert(holds_active_ids(t, children, q, before));
                } else {
                    assert(is_group(t, children, last, q));
                    match group_outcome(t, g, q) {
                        Err(field) => {
                            assert(first_incomplete(t, children, last, q, field));
                        },
                        Ok(Some(id)) => {
                            ids.lemma_push_to_set_commute(id);
                            assert(contributes(t, children, last, q, id));
                            assert(holds_active_ids(t, children, q, before.insert(id)));
                        },
                        Ok(None) => {
                            assert(holds_active_ids(t, children, q, before));
                        },
                    }
                }
            },
        }
    }
}

/// What `extract_spec` gives, said without recursion. Where a group below
/// the root is incomplete, it is a failure with the field that the first
/// such group lacks. Where none is, the set holds the identifier of each
/// active group and nothing else.
pub proof fn lemma_extract_explained(t: Seq<RecordView>, q: Query)
    requires
        well_formed(t),
    ensures
        explains(t, t[0].children, q, extract_spec(t, q)),
{
    lemma_active_ids_explained(t, t[0].children, q);
}

/// The first child of the record at `node` whose key is `key`.
pub fn child_with_key(tree: &Tree, node: usize, key: &String) -> (r: Option<usize>)
    requires
        well_formed(tree@),
        node < tree@.len(),
    ensures
        match r {
            Some(c) => c < tree@.len() && find_child(tree@, tree@[node as int].children, key@)
                == Some(c as int),
            None => find_child(tree@, tree@[node as int].children, key@) is None,
        },
{
    let children = &tree.nodes[node].children;
    let ghost all = tree@[node as int].children;
    let mut i: usize = 0;
    assert(all.subrange(0, all.len() as int) =~= all);
    while i < children.len()
        invariant
            i <= children.len(),
            node < tree@.len(),
            well_formed(tree@),
            all == ints(children@),
            all == tree@[node as int].children,
            find_child(tree@, all, key@) == find_child(
                tree@,
                all.subrange(i as int, all.len() as int),
                key@,
            ),
        decreases children.len() - i,
    {
        let c = children[i];
        proof {
            assert(child_ok(tree@, node as int, i as int));
            assert(all.subrange(i as int, all.len() as int).drop_first() =~= all.subrange(
                i + 1,
                all.len() as int,
            ));
        }
        if tree.nodes[c].key == *key {
            return Some(c);
        }
        i += 1;
    }
    None
}

/// Tells whether `items` holds a string equal to `s`.
pub fn holds(items: &Vec<String>, s: &String) -> (b: bool)
    ensures
        b == strings_view(items@).contains(s@),
{
    let mut i: usize = 0;
    while i < items.len()
        invariant
            i <= items.len(),
            forall|k: int| 0 <= k < i ==> strings_view(items@)[k] != s@,
        decreases items.len() - i,
    {
        if items[i] == *s {
            assert(strings_view(items@)[i as int] == s@);
            return true;
        }
        i += 1;
    }
    false
}

/// Collects the identifiers of the active groups: of each child of the root
/// whose key is `group_key`, the value of the child `id_field`, where the
/// value of the child `flag_field` is `flag_true`. Each identifier comes
/// once. Fails on the first group that lacks one of the two fields.
pub fn extract_active(
    tree: &Tree,
    group_key: &str,
    id_field: &str,
    flag_field: &str,
    flag_true: &str,
) -> (r: Result<Vec<String>, ExtractError>)
    requires
        well_formed(tree@),
    ensures
        extracted(r, extract_spec(tree@, query_of(group_key@, id_field@, flag_field@, flag_true@))),
{
    let group = group_key.to_owned();
    let id_name = id_field.to_owned();
    let flag_name = flag_field.to_owned();
    let flag_on = flag_true.to_owned();
    let ghost q = query_of(group_key@, id_field@, flag_field@, flag_true@);
    let groups = &tree.nodes[0].children;
    let ghost all = tree@[0].children;
    let ghost ids: Seq<Seq<char>> = Seq::empty();
    let mut found: Vec<String> = Vec::new();
    let mut i: usize = 0;
    assert(all.take(0) =~= Seq::<int>::empty());
    assert(strings_view(found@) =~= Seq::<Seq<char>>::empty());
    while i < groups.len()
        invariant
            i <= groups.len(),
            well_formed(tree@),
            q == query_of(group@, id_name@, flag_name@, flag_on@),
            q == query_of(group_key@, id_field@, flag_field@, flag_true@),
            all == ints(groups@),
            all == tree@[0].children,
            active_ids(tree@, all.take(i as int), q) == Ok::<Seq<Seq<char>>, Seq<char>>(ids),
            strings_view(found@).to_set() == ids.to_set(),
            strings_view(found@).no_duplicates(),
        decreases groups.len() - i,
    {
        let g = groups[i];
        proof {
            assert(child_ok(tree@, 0, i as int));
            assert(all.take(i + 1).drop_last() =~= all.take(i as int));
            assert(all.take(i + 1).last() == g);
        }
        if tree.nodes[g].key == group {
            let id = match child_with_key(tree, g, &id_name) {
                Some(c) => c,
                None => {
                    proof {
                        lemma_missing_stays(tree@, all, i + 1, q);
                    }
                    return Err(ExtractError::MissingField(id_name));
                },
            };
            let flag = match child_with_key(tree, g, &flag_name) {
                Some(c) => c,
                None => {
                    proof {
                        lemma_missing_stays(tree@, all, i + 1, q);
                    }
                    return Err(ExtractError::MissingField(flag_name));
                },
            };
            if tree.nodes[flag].value == flag_on {
                let value = tree.nodes[id].value.clone();
                let ghost before = strings_view(found@);
                proof {
                    ids.lemma_push_to_set_commute(value@);
                    before.lemma_push_to_set_commute(value@);
                }
                if !holds(&found, &value) {
                    found.push(value);
                    assert(strings_view(found@) =~= before.push(value@));
                } else {
                    assert(ids.to_set().insert(value@) =~= ids.to_set());
                }
                proof {
                    ids = ids.push(value@);
                }
            }
        }
        i += 1;
    }
    assert(all.take(i as int) =~= all);
    Ok(found)
}

} // verus!

