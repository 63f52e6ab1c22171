//! The record tree: an arena of records addressed by their index.

use vstd::prelude::*;

verus! {

/// One node of the tree. `parent` and `children` are indices into the
/// arena that holds the record.
#[derive(Debug, Clone, PartialEq, Eq)]
pub struct Record {
    pub key: String,
    pub value: String,
    pub parent: Option<usize>,
    pub children: Vec<usize>,
}

/// What a record holds, as plain values.
pub struct RecordView {
    pub key: Seq<char>,
    pub value: Seq<char>,
    pub parent: Option<int>,
    pub children: Seq<int>,
}

/// A sequence of machine integers as integers.
pub open spec fn ints(v: Seq<usize>) -> Seq<int> {
    v.map_values(|i: usize| i as int)
}

/// An optional index as an integer.
pub open spec fn index_view(i: Option<usize>) -> Option<int> {
    match i {
        Some(i) => Some(i as int),
        None => None,
    }
}

impl View for Record {
    type V = RecordView;

    open spec fn view(&self) -> RecordView {
        RecordView {
            key: self.key@,
            value: self.value@,
            parent: index_view(self.parent),
            children: ints(self.children@),
        }
    }
}

/// A rooted, ordered tree. The record at index 0 is the synthetic root.
#[derive(Debug, Clone, PartialEq, Eq)]
pub struct Tree {
    pub nodes: Vec<Record>,
}

impl View for Tree {
    type V = Seq<RecordView>;

    open spec fn view(&self) -> Seq<RecordView> {
        Seq::new(self.nodes@.len(), |i: int| self.nodes@[i]@)
    }
}

/// The synthetic root: no key, no value, no parent.
pub open spec fn root_view() -> RecordView {
    RecordView { key: Seq::empty(), value: Seq::empty(), parent: None, children: Seq::empty() }
}

/// The record at `i` names a parent that stands before it and lists it.
pub open spec fn parent_ok(t: Seq<RecordView>, i: int) -> bool {
    &&& t[i].parent is Some
    &&& 0 <= t[i].parent.unwrap() < i
    &&& t[t[i].parent.unwrap()].children.contains(i)
}

/// The `k`-th child of the record at `i` stands after it, names it as its
/// parent, and comes after the child listed before it.
pub open spec fn child_ok(t: Seq<RecordView>, i: int, k: int) -> bool {
    let c = t[i].children[k];
    &&& i < c < t.len()
    &&& t[c].parent == Some(i)
    &&& k > 0 ==> t[i].children[k - 1] < c
}

/// The arena is one tree rooted at index 0: every other record has a parent
/// before it, and parents and child lists agree.
pub open spec fn well_formed(t: Seq<RecordView>) -> bool {
    &&& 1 <= t.len()
    &&& t[0].parent is None
    &&& forall|i: int| 1 <= i < t.len() ==> #[trigger] parent_ok(t, i)
    &&& forall|i: int, k: int|
        0 <= i < t.len() && 0 <= k < t[i].children.len() ==> #[trigger] child_ok(t, i, k)
}

/// The tree `t` with one more record, appended as the last child of `p`.
pub open spec fn append_child(
    t: Seq<RecordView>,
    p: int,
    key: Seq<char>,
    value: Seq<char>,
) -> Seq<RecordView> {
    t.update(p, RecordView { children: t[p].children.push(t.len() as int), ..t[p] }).push(
        RecordView { key, value, parent: Some(p), children: Seq::empty() },
    )
}

/// Number of steps from the record at `i` up to the root.
pub open spec fn depth(t: Seq<RecordView>, i: int) -> nat
    decreases i,
{
    if 0 < i < t.len() && t[i].parent is Some && 0 <= t[i].parent.unwrap() < i {
        1 + depth(t, t[i].parent.unwrap())
    } else {
        0
    }
}

/// The record reached from `i` by going to the parent `k` times, if the
/// root is not passed on the way.
pub open spec fn ancestor(t: Seq<RecordView>, i: int, k: nat) -> Option<int>
    decreases k,
{
    if k == 0 {
        Some(i)
    } else if 0 <= i < t.len() && t[i].parent is Some {
        ancestor(t, t[i].parent.unwrap(), (k - 1) as nat)
    } else {
        None
    }
}

/// Going up `k` times from a record of a well-formed tree ends at a record
/// that is `k` levels higher.
pub proof fn lemma_ancestor_depth(t: Seq<RecordView>, i: int, k: nat)
    requires
        well_formed(t),
        0 <= i < t.len(),
        ancestor(t, i, k) is Some,
    ensures
        0 <= ancestor(t, i, k).unwrap() < t.len(),
        depth(t, ancestor(t, i, k).unwrap()) + k == depth(t, i),
    decreases k,
{
    if k > 0 {
        assert(i > 0);
        assert(parent_ok(t, i));
        lemma_ancestor_depth(t, t[i].parent.unwrap(), (k - 1) as nat);
    }
}

/// Appending a record keeps the tree well formed.
pub proof fn lemma_append_well_formed(
    t: Seq<RecordView>,
    p: int,
    key: Seq<char>,
    value: Seq<char>,
)
    requires
        well_formed(t),
        0 <= p < t.len(),
    ensures
        well_formed(append_child(t, p, key, value)),
{
    let u = append_child(t, p, key, value);
    let n = t.len() as int;
    assert forall|i: int| 1 <= i < u.len() implies #[trigger] parent_ok(u, i) by {
        if i < n {
            assert(parent_ok(t, i));
            let q = t[i].parent.unwrap();
            let k = choose|k: int| 0 <= k < t[q].children.len() && t[q].children[k] == i;
            assert(u[q].children[k] == i);
        } else {
            assert(u[p].children[t[p].children.len() as int] == n);
        }
    }
    assert forall|i: int, k: int|
        0 <= i < u.len() && 0 <= k < u[i].children.len() implies #[trigger] child_ok(u, i, k) by {
        if i == p && k == t[p].children.len() {
            if k > 0 {
                assert(child_ok(t, i, k - 1));
            }
        } else {
            assert(child_ok(t, i, k));
        }
    }
}

/// Appending a record leaves the depth of the records that were there.
pub proof fn lemma_append_depth(
    t: Seq<RecordView>,
    p: int,
    key: Seq<char>,
    value: Seq<char>,
    i: int,
)
    requires
        well_formed(t),
        0 <= p < t.len(),
        0 <= i < t.len(),
    ensures
        depth(append_child(t, p, key, value), i) == depth(t, i),
    decreases i,
{
    if i > 0 {
        assert(parent_ok(t, i));
        lemma_append_depth(t, p, key, value, t[i].parent.unwrap());
    }
}

impl Tree {
    /// A tree that holds the root alone.
    pub fn new() -> (t: Tree)
        ensures
            t@ == seq![root_view()],
            well_formed(t@),
    {
        let mut nodes: Vec<Record> = Vec::new();
        nodes.push(Record { key: String::new(), value: String::new(), parent: None, children: Vec::new() });
        let t = Tree { nodes };
        assert(t@[0].children =~= Seq::<int>::empty());
        assert(t@ =~= seq![root_view()]);
        t
    }

    /// Number of records, the root included.
    pub fn len(&self) -> (n: usize)
        ensures
            n == self@.len(),
    {
        self.nodes.len()
    }

    /// Appends a record with `key` and `value` as the last child of
    /// `parent`, and returns its index.
    pub fn add_child(&mut self, parent: usize, key: String, value: String) -> (id: usize)
        requires
            well_formed(old(self)@),
            parent < old(self)@.len(),
        ensures
            final(self)@ == append_child(old(self)@, parent as int, key@, value@),
            well_formed(final(self)@),
            id == old(self)@.len(),
            final(self)@.len() == old(self)@.len() + 1,
    {
        let id = self.nodes.len();
        self.nodes[parent].children.push(id);
        self.nodes.push(Record { key, value, parent: Some(parent), children: Vec::new() });
        proof {
            assert(self.nodes.len() == old(self).nodes@.len() + 1);
            assert(self@[parent as int].children =~= old(self)@[parent as int].children.push(
                id as int,
            ));
            assert(self@[id as int].children =~= Seq::<int>::empty());
            assert(self@ =~= append_child(old(self)@, parent as int, key@, value@));
            lemma_append_well_formed(old(self)@, parent as int, key@, value@);
        }
        id
    }

    /// Goes from the record at `from` to its parent, `levels` times.
    /// `None` where the root is reached before that.
    pub fn ascend(&self, from: usize, levels: usize) -> (r: Option<usize>)
        requires
            well_formed(self@),
            from < self@.len(),
        ensures
            match r {
                Some(n) => ancestor(self@, from as int, levels as nat) == Some(n as int),
                None => ancestor(self@, from as int, levels as nat) is None,
            },
    {
        let mut node: usize = from;
        let mut left: usize = levels;
        while left > 0
            invariant
                well_formed(self@),
                node < self@.len(),
                ancestor(self@, from as int, levels as nat) == ancestor(
                    self@,
                    node as int,
                    left as nat,
                ),
            decreases left,
        {
            match self.nodes[node].parent {
                None => {
                    return None;
                },
                Some(p) => {
                    proof {
                        if node > 0 {
                            assert(parent_ok(self@, node as int));
                        }
                    }
                    node = p;
                    left -= 1;
                },
            }
        }
        Some(node)
    }
}

} // verus!
