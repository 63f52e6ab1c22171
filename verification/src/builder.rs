//! Builds the record tree from the lines of a report.
//!
//! Nesting follows the column of each line alone. The builder keeps a stack
//! of reference columns, the record that new lines are appended to, and the
//! record appended last; each line moves this state by one step.

use vstd::prelude::*;
use crate::tokenizer::{lines_view, Line, LineView};
use crate::tree::{
    ancestor, append_child, depth, ints, lemma_ancestor_depth, lemma_append_depth,
    lemma_append_well_formed, parent_ok, root_view, well_formed, RecordView, Tree,
};

verus! {

/// Columns between one nesting level and the next.
pub const INDENT_STEP: usize = 4;

/// Reference column of the root: one step to the left of the column at
/// which a report's outermost lines are expected.
pub const ROOT_COLUMN: usize = 13;

/// Why a report's lines do not form a tree.
#[derive(Debug, Clone, Copy, PartialEq, Eq)]
pub enum ParseError {
    /// A column is not a whole number of steps away from the reference column.
    MisalignedIndent,
    /// A line is more than one step deeper than the reference column.
    SkippedLevel,
    /// A line is further to the left than the root allows.
    OrphanNode,
}

/// The state of a builder, as plain values.
pub struct BuilderView {
    pub nodes: Seq<RecordView>,
    pub stack: Seq<int>,
    pub current: int,
    pub previous: int,
}

/// The state before the first line.
pub open spec fn initial_state() -> BuilderView {
    BuilderView {
        nodes: seq![root_view()],
        stack: seq![ROOT_COLUMN as int],
        current: 0,
        previous: 0,
    }
}

/// A state that the builder can be in: a well-formed tree, a stack that is
/// deeper than the current record, and a previous record that is the root
/// at the start and a child of the current record ever after.
pub open spec fn state_ok(s: BuilderView) -> bool {
    &&& well_formed(s.nodes)
    &&& s.stack.len() > depth(s.nodes, s.current)
    &&& 0 <= s.current < s.nodes.len()
    &&& 0 <= s.previous < s.nodes.len()
    &&& (s.previous == 0 && s.current == 0) || s.nodes[s.previous].parent == Some(s.current)
}

/// The state after a record for `line` was appended below `parent`.
pub open spec fn attach(s: BuilderView, parent: int, stack: Seq<int>, line: LineView) -> BuilderView {
    BuilderView {
        nodes: append_child(s.nodes, parent, line.key, line.value),
        stack,
        current: parent,
        previous: s.nodes.len() as int,
    }
}

/// One step of the builder. The line's column is held against the top of
/// the stack: on the same column the line is appended to the current
/// record; one step deeper, to the previous one; to the left, to the
/// ancestor of the current record as many levels up as there are steps.
pub open spec fn step_spec(s: BuilderView, line: LineView) -> Result<BuilderView, ParseError> {
    let delta = line.column - s.stack.last();
    let step = INDENT_STEP as int;
    if delta % step != 0 {
        Err(ParseError::MisalignedIndent)
    } else if delta < 0 {
        let pops = (-delta) / step;
        match ancestor(s.nodes, s.current, pops as nat) {
            None => Err(ParseError::OrphanNode),
            Some(n) => Ok(
                attach(s, n, s.stack.take(s.stack.len() - pops).push(line.column as int), line),
            ),
        }
    } else if delta > step {
        Err(ParseError::SkippedLevel)
    } else if delta > 0 {
        Ok(attach(s, s.previous, s.stack.push(line.column as int), line))
    } else {
        Ok(attach(s, s.current, s.stack, line))
    }
}

/// The state after all of `lines`, or the error of the first line that
/// has one.
pub open spec fn run_spec(lines: Seq<LineView>) -> Result<BuilderView, ParseError>
    decreases lines.len(),
{
    if lines.len() == 0 {
        Ok(initial_state())
    } else {
        match run_spec(lines.drop_last()) {
            Err(e) => Err(e),
            Ok(s) => step_spec(s, lines.last()),
        }
    }
}

/// The tree that `lines` describe.
pub open spec fn build_spec(lines: Seq<LineView>) -> Result<Seq<RecordView>, ParseError> {
    match run_spec(lines) {
        Ok(s) => Ok(s.nodes),
        Err(e) => Err(e),
    }
}

/// A step that succeeds leads from a valid state to a valid state, with one
/// record more.
pub proof fn lemma_step_ok(s: BuilderView, line: LineView)
    requires
        state_ok(s),
        step_spec(s, line) is Ok,
    ensures
        state_ok(step_spec(s, line).unwrap()),
        step_spec(s, line).unwrap().nodes.len() == s.nodes.len() + 1,
{
    let next = step_spec(s, line).unwrap();
    let p = next.current;
    let delta = line.column as int - s.stack.last() as int;
    if delta < 0 {
        lemma_ancestor_depth(s.nodes, s.current, ((-delta) / 4) as nat);
    } else if delta > 0 {
        if s.previous != 0 {
            assert(parent_ok(s.nodes, s.previous));
        }
    }
    lemma_append_well_formed(s.nodes, p, line.key, line.value);
    lemma_append_depth(s.nodes, p, line.key, line.value, p);
}

/// Once a line has failed, the lines after it change nothing.
pub proof fn lemma_error_stays(lines: Seq<LineView>, n: int)
    requires
        0 <= n <= lines.len(),
        run_spec(lines.take(n)) is Err,
    ensures
        run_spec(lines) == run_spec(lines.take(n)),
    decreases lines.len() - n,
{
    if n < lines.len() {
        assert(lines.take(n + 1).drop_last() =~= lines.take(n));
        lemma_error_stays(lines, n + 1);
    } else {
        assert(lines.take(n) =~= lines);
    }
}

/// A line on the reference column becomes a child of the current record,
/// and so a sibling of the record appended before it, not its child. Stack
/// and current record stay as they are.
pub proof fn lemma_same_column_is_sibling(s: BuilderView, line: LineView)
    requires
        state_ok(s),
        line.column == s.stack.last(),
    ensures
        step_spec(s, line) is Ok,
        step_spec(s, line).unwrap().stack == s.stack,
        step_spec(s, line).unwrap().current == s.current,
        step_spec(s, line).unwrap().nodes.last().parent == Some(s.current),
        s.previous != 0 ==> step_spec(s, line).unwrap().nodes.last().parent
            == s.nodes[s.previous].parent,
        s.previous != 0 ==> step_spec(s, line).unwrap().nodes.last().parent != Some(s.previous),
{
    if s.previous != 0 {
        assert(parent_ok(s.nodes, s.previous));
    }
}

/// A line one step deeper than the reference column becomes a child of the
/// record appended before it, which becomes the current record.
pub proof fn lemma_one_step_deeper_is_child(s: BuilderView, line: LineView)
    requires
        state_ok(s),
        line.column == s.stack.last() + INDENT_STEP,
    ensures
        step_spec(s, line) is Ok,
        step_spec(s, line).unwrap().current == s.previous,
        step_spec(s, line).unwrap().nodes.last().parent == Some(s.previous),
        step_spec(s, line).unwrap().stack == s.stack.push(line.column as int),
{
}

/// A line `levels` steps to the left of the reference column goes up as many
/// levels from the current record before it is attached, and takes as many
/// columns off the stack before its own is pushed. Where the current record
/// has no ancestor that far up, the step fails.
pub proof fn lemma_dedent_pops_levels(s: BuilderView, line: LineView, levels: nat)
    requires
        state_ok(s),
        levels > 0,
        line.column + levels * INDENT_STEP == s.stack.last(),
    ensures
        match ancestor(s.nodes, s.current, levels) {
            Some(n) => {
                &&& step_spec(s, line) is Ok
                &&& step_spec(s, line).unwrap().current == n
                &&& step_spec(s, line).unwrap().nodes.last().parent == Some(n)
                &&& depth(s.nodes, n) + levels == depth(s.nodes, s.current)
                &&& step_spec(s, line).unwrap().stack == s.stack.take(s.stack.len() - levels).push(
                    line.column as int,
                )
                &&& step_spec(s, line).unwrap().stack.len() + levels == s.stack.len() + 1
            },
            None => step_spec(s, line) == Err::<BuilderView, ParseError>(ParseError::OrphanNode),
        },
{
    let delta = line.column as int - s.stack.last() as int;
    assert(delta == -(levels * 4));
    assert(delta % 4 == 0 && (-delta) / 4 == levels);
    if ancestor(s.nodes, s.current, levels) is Some {
        lemma_ancestor_depth(s.nodes, s.current, levels);
    }
}

/// A line two steps to the left of the reference column goes up two levels
/// before it is attached.
pub proof fn lemma_two_steps_back_pops_two(s: BuilderView, line: LineView)
    requires
        state_ok(s),
        line.column + 2 * INDENT_STEP == s.stack.last(),
        ancestor(s.nodes, s.current, 2) is Some,
    ensures
        step_spec(s, line) is Ok,
        step_spec(s, line).unwrap().current == ancestor(s.nodes, s.current, 2).unwrap(),
        step_spec(s, line).unwrap().nodes.last().parent == Some(
            ancestor(s.nodes, s.current, 2).unwrap(),
        ),
        step_spec(s, line).unwrap().stack.len() + 1 == s.stack.len(),
{
    lemma_dedent_pops_levels(s, line, 2);
}

/// A line more than one step deeper than the reference column is refused.
pub proof fn lemma_deeper_jump_is_refused(s: BuilderView, line: LineView, levels: nat)
    requires
        state_ok(s),
        levels >= 2,
        line.column == s.stack.last() + levels * INDENT_STEP,
    ensures
        step_spec(s, line) == Err::<BuilderView, ParseError>(ParseError::SkippedLevel),
{
    let delta = line.column as int - s.stack.last() as int;
    assert(delta == levels * 4);
    assert(delta % 4 == 0);
}

/// A column that is no whole number of steps away from the reference column
/// is refused, whatever else holds of the line.
pub proof fn lemma_off_grid_is_refused(s: BuilderView, line: LineView)
    requires
        state_ok(s),
        (line.column - s.stack.last()) % (INDENT_STEP as int) != 0,
    ensures
        step_spec(s, line) == Err::<BuilderView, ParseError>(ParseError::MisalignedIndent),
{
}

/// Lines that form a tree give one record each, below the root, and leave
/// the builder in a valid state.
pub proof fn lemma_one_record_per_line(lines: Seq<LineView>)
    requires
        run_spec(lines) is Ok,
    ensures
        state_ok(run_spec(lines).unwrap()),
        build_spec(lines).unwrap().len() == lines.len() + 1,
    decreases lines.len(),
{
    if lines.len() > 0 {
        lemma_one_record_per_line(lines.drop_last());
        lemma_step_ok(run_spec(lines.drop_last()).unwrap(), lines.last());
    }
}

/// After lines that form a tree, the top of the stack is the column of the
/// last line, the previous record is the one made from it, and the current
/// record is its parent.
pub proof fn lemma_last_line_on_top(lines: Seq<LineView>)
    requires
        lines.len() > 0,
        run_spec(lines) is Ok,
    ensures
        state_ok(run_spec(lines).unwrap()),
        run_spec(lines).unwrap().nodes.len() == lines.len() + 1,
        run_spec(lines).unwrap().stack.last() == lines.last().column,
        run_spec(lines).unwrap().previous == lines.len(),
        run_spec(lines).unwrap().nodes.last().parent == Some(run_spec(lines).unwrap().current),
{
    lemma_one_record_per_line(lines);
    lemma_one_record_per_line(lines.drop_last());
}

/// A line on the column of the line before it gives a sibling of that
/// line's record, not a child of it.
pub proof fn lemma_same_column_as_last_line(lines: Seq<LineView>, line: LineView)
    requires
        lines.len() > 0,
        run_spec(lines) is Ok,
        line.column == lines.last().column,
    ensures
        build_spec(lines.push(line)) is Ok,
        build_spec(lines.push(line)).unwrap().last().parent == build_spec(
            lines,
        ).unwrap().last().parent,
        build_spec(lines.push(line)).unwrap().last().parent != Some(lines.len() as int),
{
    assert(lines.push(line).drop_last() =~= lines);
    lemma_last_line_on_top(lines);
    lemma_same_column_is_sibling(run_spec(lines).unwrap(), line);
}

/// A line one step deeper than the line before it gives a child of that
/// line's record.
pub proof fn lemma_one_step_deeper_than_last_line(lines: Seq<LineView>, line: LineView)
    requires
        lines.len() > 0,
        run_spec(lines) is Ok,
        line.column == lines.last().column + INDENT_STEP,
    ensures
        build_spec(lines.push(line)) is Ok,
        build_spec(lines.push(line)).unwrap().last().parent == Some(lines.len() as int),
{
    assert(lines.push(line).drop_last() =~= lines);
    lemma_last_line_on_top(lines);
    lemma_one_step_deeper_is_child(run_spec(lines).unwrap(), line);
}

/// A line two steps to the left of the line before it is attached two
/// levels above the parent of that line's record, and so stands two levels
/// higher than that record; where there is no record that far up, the
/// lines form no tree.
pub proof fn lemma_two_steps_back_from_last_line(lines: Seq<LineView>, line: LineView)
    requires
        lines.len() > 0,
        run_spec(lines) is Ok,
        line.column + 2 * INDENT_STEP == lines.last().column,
    ensures
        match ancestor(build_spec(lines).unwrap(), lines.len() as int, 3) {
            Some(n) => {
                &&& build_spec(lines.push(line)) is Ok
                &&& build_spec(lines.push(line)).unwrap().last().parent == Some(n)
                &&& depth(build_spec(lines.push(line)).unwrap(), (lines.len() + 1) as int) + 2 == depth(
                    build_spec(lines).unwrap(),
                    lines.len() as int,
                )
            },
            None => build_spec(lines.push(line)) == Err::<Seq<RecordView>, ParseError>(
                ParseError::OrphanNode,
            ),
        },
{
    let s = run_spec(lines).unwrap();
    assert(lines.push(line).drop_last() =~= lines);
    lemma_last_line_on_top(lines);
    lemma_dedent_pops_levels(s, line, 2);
    assert(parent_ok(s.nodes, s.previous));
    assert(ancestor(s.nodes, s.previous, 3) == ancestor(s.nodes, s.current, 2));
    if ancestor(s.nodes, s.current, 2) is Some {
        let n = ancestor(s.nodes, s.current, 2).unwrap();
        let next = step_spec(s, line).unwrap();
        lemma_ancestor_depth(s.nodes, s.current, 2);
        lemma_step_ok(s, line);
        lemma_append_depth(s.nodes, n, line.key, line.value, n);
        assert(next.nodes.last().parent == Some(n));
        assert(depth(next.nodes, s.nodes.len() as int) == 1 + depth(next.nodes, n));
        assert(depth(s.nodes, s.previous) == 1 + depth(s.nodes, s.current));
    }
}

/// A line two steps or more deeper than the line before it is refused.
pub proof fn lemma_deeper_jump_after_last_line(lines: Seq<LineView>, line: LineView, levels: nat)
    requires
        lines.len() > 0,
        run_spec(lines) is Ok,
        levels >= 2,
        line.column == lines.last().column + levels * INDENT_STEP,
    ensures
        build_spec(lines.push(line)) == Err::<Seq<RecordView>, ParseError>(
            ParseError::SkippedLevel,
        ),
{
    assert(lines.push(line).drop_last() =~= lines);
    lemma_last_line_on_top(lines);
    lemma_deeper_jump_is_refused(run_spec(lines).unwrap(), line, levels);
}

/// Column of the line that the record at `i` was made from; for the root,
/// its reference column.
pub open spec fn column_of(lines: Seq<LineView>, i: int) -> int {
    if i == 0 {
        ROOT_COLUMN as int
    } else {
        lines[i - 1].column as int
    }
}

/// The record at `i` lies exactly one step to the right of its parent.
pub open spec fn nested_at(lines: Seq<LineView>, nodes: Seq<RecordView>, i: int) -> bool {
    column_of(lines, i) == column_of(lines, nodes[i].parent.unwrap()) + INDENT_STEP
}

/// Every record but the root lies exactly one step to the right of its
/// parent.
pub open spec fn columns_nested(lines: Seq<LineView>, nodes: Seq<RecordView>) -> bool {
    forall|i: int| 1 <= i < nodes.len() ==> #[trigger] nested_at(lines, nodes, i)
}

/// In a tree whose records are nested by column, going up `k` levels goes
/// `k` steps to the left.
pub proof fn lemma_ancestor_column(
    lines: Seq<LineView>,
    nodes: Seq<RecordView>,
    i: int,
    k: nat,
)
    requires
        well_formed(nodes),
        columns_nested(lines, nodes),
        0 <= i < nodes.len(),
        ancestor(nodes, i, k) is Some,
    ensures
        column_of(lines, ancestor(nodes, i, k).unwrap()) + k * INDENT_STEP == column_of(lines, i),
    decreases k,
{
    if k > 0 {
        assert(parent_ok(nodes, i));
        assert(nested_at(lines, nodes, i));
        lemma_ancestor_column(lines, nodes, nodes[i].parent.unwrap(), (k - 1) as nat);
    }
}

/// Where every line stands to the right of the root's reference column and
/// the lines form a tree, each record lies exactly one step to the right
/// of its parent, and the top of the stack is the column of the last line.
pub proof fn lemma_children_one_step_right(lines: Seq<LineView>)
    requires
        forall|i: int| 0 <= i < lines.len() ==> (#[trigger] lines[i]).column > ROOT_COLUMN,
        run_spec(lines) is Ok,
    ensures
        columns_nested(lines, build_spec(lines).unwrap()),
        run_spec(lines).unwrap().stack.last() == column_of(
            lines,
            run_spec(lines).unwrap().previous,
        ),
    decreases lines.len(),
{
    if lines.len() > 0 {
        let prefix = lines.drop_last();
        let line = lines.last();
        let s = run_spec(prefix).unwrap();
        let next = run_spec(lines).unwrap();
        let n = s.nodes.len() as int;
        assert forall|i: int| 0 <= i < prefix.len() implies (#[trigger] prefix[i]).column
            > ROOT_COLUMN by {
            assert(prefix[i] == lines[i]);
        }
        lemma_children_one_step_right(prefix);
        lemma_one_record_per_line(prefix);
        lemma_step_ok(s, line);
        let delta = line.column as int - s.stack.last() as int;
        if s.previous != 0 {
            assert(nested_at(prefix, s.nodes, s.previous));
        }
        if delta < 0 {
            let pops = ((-delta) / 4) as nat;
            lemma_ancestor_depth(s.nodes, s.current, pops);
            lemma_ancestor_column(prefix, s.nodes, s.current, pops);
        }
        assert forall|i: int| 1 <= i < next.nodes.len() implies #[trigger] nested_at(
            lines,
            next.nodes,
            i,
        ) by {
            if i < n {
                assert(nested_at(prefix, s.nodes, i));
                assert(parent_ok(s.nodes, i));
                assert(next.nodes[i].parent == s.nodes[i].parent);
            }
        }
    }
}

/// The builder: the tree so far and the three values that decide where the
/// next line goes.
pub struct Builder {
    pub tree: Tree,
    pub stack: Vec<usize>,
    pub current: usize,
    pub previous: usize,
}

impl View for Builder {
    type V = BuilderView;

    open spec fn view(&self) -> BuilderView {
        BuilderView {
            nodes: self.tree@,
            stack: ints(self.stack@),
            current: self.current as int,
            previous: self.previous as int,
        }
    }
}

impl Builder {
    /// A builder that has seen no line.
    pub fn new() -> (b: Builder)
        ensures
            b@ == initial_state(),
            state_ok(b@),
    {
        let mut stack: Vec<usize> = Vec::new();
        stack.push(ROOT_COLUMN);
        let b = Builder { tree: Tree::new(), stack, current: 0, previous: 0 };
        assert(b@.stack =~= seq![ROOT_COLUMN as int]);
        b
    }

    /// Takes one line. On an error the builder is left as it was.
    pub fn push_line(&mut self, line: &Line) -> (r: Result<(), ParseError>)
        requires
            state_ok(old(self)@),
        ensures
            match step_spec(old(self)@, line@) {
                Ok(s) => r is Ok && final(self)@ == s && state_ok(s) && s.nodes.len() == old(self)@.nodes.len()
                    + 1,
                Err(e) => r == Err::<(), ParseError>(e) && final(self)@ == old(self)@,
            },
    {
        let top = self.stack[self.stack.len() - 1];
        let column = line.column;
        let parent: usize;
        if column >= top {
            let delta = column - top;
            if delta % INDENT_STEP != 0 {
                return Err(ParseError::MisalignedIndent);
            }
            if delta > INDENT_STEP {
                return Err(ParseError::SkippedLevel);
            }
            if delta > 0 {
                self.stack.push(column);
                parent = self.previous;
            } else {
                parent = self.current;
            }
        } else {
            let delta = top - column;
            if delta % INDENT_STEP != 0 {
                return Err(ParseError::MisalignedIndent);
            }
            let pops = delta / INDENT_STEP;
            match self.tree.ascend(self.current, pops) {
                None => {
                    return Err(ParseError::OrphanNode);
                },
                Some(n) => {
                    proof {
                        lemma_ancestor_depth(self.tree@, self.current as int, pops as nat);
                    }
                    let keep = self.stack.len() - pops;
                    self.stack.truncate(keep);
                    self.stack.push(column);
                    parent = n;
                },
            }
        }
        self.current = parent;
        self.previous = self.tree.add_child(parent, line.key.clone(), line.value.clone());
        proof {
            assert(self@.stack =~= step_spec(old(self)@, line@).unwrap().stack);
            lemma_step_ok(old(self)@, line@);
        }
        Ok(())
    }

    /// Hands out the tree.
    pub fn finish(self) -> (t: Tree)
        ensures
            t@ == self@.nodes,
    {
        self.tree
    }
}

/// Builds the tree that `lines` describe: one record for each line, below
/// the synthetic root. Fails with the error of the first line that breaks
/// the nesting rules.
pub fn build(lines: &Vec<Line>) -> (r: Result<Tree, ParseError>)
    ensures
        match build_spec(lines_view(lines@)) {
            Ok(t) => r is Ok && r.unwrap()@ == t && well_formed(t) && t.len() == lines.len() + 1,
            Err(e) => r == Err::<Tree, ParseError>(e),
        },
{
    let mut b = Builder::new();
    let ghost all = lines_view(lines@);
    assert(all.take(0) =~= Seq::<LineView>::empty());
    let mut i: usize = 0;
    while i < lines.len()
        invariant
            i <= lines.len(),
            all == lines_view(lines@),
            run_spec(all.take(i as int)) == Ok::<BuilderView, ParseError>(b@),
            state_ok(b@),
            b@.nodes.len() == i + 1,
        decreases lines.len() - i,
    {
        proof {
            assert(all.take(i + 1).drop_last() =~= all.take(i as int));
            assert(all.take(i + 1).last() == lines@[i as int]@);
        }
        match b.push_line(&lines[i]) {
            Err(e) => {
                proof {
                    lemma_error_stays(all, i + 1);
                }
                return Err(e);
            },
            Ok(_) => {},
        }
        i += 1;
    }
    assert(all.take(i as int) =~= all);
    Ok(b.finish())
}

} // verus!
