//! Decisions of the file churn generator: the weighted action table, the
//! open/closed state of each file slot, and the filesystem operations that
//! each lifecycle action stands for.
use vstd::prelude::*;
use vstd::string::StringExecFns;
use crate::pool::{
    build_pool, insert_unique, lemma_lex_lt_irreflexive, lex_lt, random_alnum, random_below,
    strictly_sorted, text_bytes,
};

verus! {

/// A lifecycle action applied to a file slot.
#[derive(PartialEq, Eq, Structural, Clone, Copy, Debug)]
pub enum Action {
    /// Removes the file; the slot is closed until the next action opens it.
    Delete,
    /// Makes sure the file exists; nothing more once the slot is open.
    Create,
    /// Appends a line from the pool and records it in the ledger.
    WriteTo,
    /// Renames the file to its rotated sibling and opens a fresh empty file
    /// at the same path.
    Rotate,
    /// Cuts the file to empty without renaming it.
    Truncate,
}

/// The configured weight of each action; an action is drawn with
/// probability proportional to its weight.
#[derive(PartialEq, Eq, Structural, Clone, Copy, Debug)]
pub struct ActionWeights {
    pub delete: u32,
    pub create: u32,
    pub write_to: u32,
    pub rotate: u32,
    pub truncate: u32,
}

impl ActionWeights {
    /// Sum of all weights.
    pub open spec fn total_spec(&self) -> int {
        self.delete + self.create + self.rotate + self.truncate + self.write_to
    }

    /// The action that owns `draw` when the range `0..total` is cut into
    /// consecutive bands, one per action in the order Delete, Create,
    /// Rotate, Truncate, WriteTo, each as wide as its weight.
    pub open spec fn action_for(&self, draw: int) -> Action {
        if draw < self.delete {
            Action::Delete
        } else if draw < self.delete + self.create {
            Action::Create
        } else if draw < self.delete + self.create + self.rotate {
            Action::Rotate
        } else if draw < self.delete + self.create + self.rotate + self.truncate {
            Action::Truncate
        } else {
            Action::WriteTo
        }
    }

    pub fn total(&self) -> (r: u64)
        ensures
            r == self.total_spec(),
    {
        self.delete as u64 + self.create as u64 + self.rotate as u64 + self.truncate as u64
            + self.write_to as u64
    }

    /// The action that a draw in `0..total` selects.
    pub fn pick(&self, draw: u64) -> (r: Action)
        requires
            draw < self.total_spec(),
        ensures
            r == self.action_for(draw as int),
    {
        let d = self.delete as u64;
        let c = d + self.create as u64;
        let r = c + self.rotate as u64;
        let t = r + self.truncate as u64;
        if draw < d {
            Action::Delete
        } else if draw < c {
            Action::Create
        } else if draw < r {
            Action::Rotate
        } else if draw < t {
            Action::Truncate
        } else {
            Action::WriteTo
        }
    }
}

/// One filesystem operation. Paths are full file paths.
pub enum FsOp {
    /// Opens the file for writing, creating it or cutting it to empty.
    OpenTruncate { path: String },
    /// Closes the handle on the file and removes it from disk.
    Remove { path: String },
    /// Closes the handle on the file and renames it.
    Rename { from: String, to: String },
    /// Appends the line and a line terminator through the open handle, then
    /// flushes.
    AppendLine { path: String, line: String },
}

/// An operation with its paths and line as texts.
pub enum FsOpView {
    OpenTruncate(Seq<char>),
    Remove(Seq<char>),
    Rename(Seq<char>, Seq<char>),
    AppendLine(Seq<char>, Seq<char>),
}

impl View for FsOp {
    type V = FsOpView;

    open spec fn view(&self) -> FsOpView {
        match self {
            FsOp::OpenTruncate { path } => FsOpView::OpenTruncate(path@),
            FsOp::Remove { path } => FsOpView::Remove(path@),
            FsOp::Rename { from, to } => FsOpView::Rename(from@, to@),
            FsOp::AppendLine { path, line } => FsOpView::AppendLine(path@, line@),
        }
    }
}

/// What a filesystem holds: the content of each existing file.
pub type FsModel = Map<Seq<char>, Seq<char>>;

/// The line terminator.
pub open spec fn newline() -> Seq<char> {
    seq!['\n']
}

/// The sibling path a file is renamed to when it is rotated.
pub open spec fn rotated_path(p: Seq<char>) -> Seq<char> {
    p + seq!['.', '1']
}

/// The filesystem after one operation.
pub open spec fn apply_op(m: FsModel, op: FsOpView) -> FsModel {
    match op {
        FsOpView::OpenTruncate(p) => m.insert(p, Seq::empty()),
        FsOpView::Remove(p) => m.remove(p),
        FsOpView::Rename(from, to) => if m.contains_key(from) {
            m.remove(from).insert(to, m[from])
        } else {
            m
        },
        FsOpView::AppendLine(p, line) => {
            let before = if m.contains_key(p) { m[p] } else { Seq::empty() };
            m.insert(p, before + line + newline())
        },
    }
}

/// The filesystem after a run of operations, first to last.
pub open spec fn apply_ops(m: FsModel, ops: Seq<FsOpView>) -> FsModel
    decreases ops.len(),
{
    if ops.len() == 0 {
        m
    } else {
        apply_ops(apply_op(m, ops[0]), ops.drop_first())
    }
}

/// The operations of `action` alone on an open slot whose path is `p`.
pub open spec fn action_ops(p: Seq<char>, action: Action, line: Seq<char>) -> Seq<FsOpView> {
    match action {
        Action::Delete => seq![FsOpView::Remove(p)],
        Action::Create => seq![],
        Action::WriteTo => seq![FsOpView::AppendLine(p, line)],
        Action::Rotate => seq![FsOpView::Rename(p, rotated_path(p)), FsOpView::OpenTruncate(p)],
        Action::Truncate => seq![FsOpView::OpenTruncate(p)],
    }
}

/// The operations of `action` on a slot whose path is `p`: a closed slot is
/// first opened, whatever the action.
pub open spec fn plan_ops(open: bool, p: Seq<char>, action: Action, line: Seq<char>) -> Seq<FsOpView> {
    if open {
        action_ops(p, action, line)
    } else {
        seq![FsOpView::OpenTruncate(p)] + action_ops(p, action, line)
    }
}

/// What one action on one slot amounts to.
pub struct Plan {
    /// The filesystem operations, in order.
    pub ops: Vec<FsOp>,
    /// Whether the slot holds an open handle afterwards.
    pub open_after: bool,
    /// The line to record in the ledger under the slot's path, once the
    /// operations are done.
    pub record: Option<String>,
}

impl Plan {
    pub open spec fn ops_view(&self) -> Seq<FsOpView> {
        self.ops@.map_values(|o: FsOp| o@)
    }
}

/// The path that a file at `path` is renamed to when rotated.
pub fn rotation_target(path: &String) -> (r: String)
    ensures
        r@ == rotated_path(path@),
{
    proof {
        reveal_strlit(".1");
    }
    path.clone().concat(".1")
}

/// Plans `action` on a slot whose path is `path` and which is open or not:
/// the operations, whether the slot is open afterwards (only a Delete leaves
/// it closed), and the line to record (only for WriteTo).
pub fn plan(open: bool, path: &String, action: Action, line: &String) -> (r: Plan)
    ensures
        r.ops_view() == plan_ops(open, path@, action, line@),
        r.open_after == (action != Action::Delete),
        action == Action::WriteTo ==> (r.record matches Some(l) && l@ == line@),
        action != Action::WriteTo ==> r.record is None,
{
    let mut ops: Vec<FsOp> = Vec::new();
    if !open {
        ops.push(FsOp::OpenTruncate { path: path.clone() });
    }
    let ghost head = ops@.map_values(|o: FsOp| o@);
    assert(head =~= if open { Seq::<FsOpView>::empty() } else { seq![FsOpView::OpenTruncate(path@)] });
    let record = match action {
        Action::Delete => {
            ops.push(FsOp::Remove { path: path.clone() });
            None
        },
        Action::Create => None,
        Action::WriteTo => {
            ops.push(FsOp::AppendLine { path: path.clone(), line: line.clone() });
            Some(line.clone())
        },
        Action::Rotate => {
            ops.push(FsOp::Rename { from: path.clone(), to: rotation_target(path) });
            ops.push(FsOp::OpenTruncate { path: path.clone() });
            None
        },
        Action::Truncate => {
            ops.push(FsOp::OpenTruncate { path: path.clone() });
            None
        },
    };
    let r = Plan { ops, open_after: !matches!(action, Action::Delete), record };
    assert(r.ops_view() =~= plan_ops(open, path@, action, line@));
    r
}

/// Rotating an open slot moves the whole content of its file to the rotated
/// sibling path and leaves an empty file at its own path; a write that
/// follows leaves that path holding that one line, and the rotated
/// sibling untouched.
pub proof fn lemma_rotate_then_write(m: FsModel, p: Seq<char>, unused: Seq<char>, line: Seq<char>)
    requires
        m.contains_key(p),
    ensures
        ({
            let m1 = apply_ops(m, plan_ops(true, p, Action::Rotate, unused));
            let m2 = apply_ops(m1, plan_ops(true, p, Action::WriteTo, line));
            &&& m1.contains_key(rotated_path(p)) && m1[rotated_path(p)] == m[p]
            &&& m1.contains_key(p) && m1[p] == Seq::<char>::empty()
            &&& m2.contains_key(rotated_path(p)) && m2[rotated_path(p)] == m[p]
            &&& m2.contains_key(p) && m2[p] == line + newline()
        }),
{
    let r = rotated_path(p);
    assert(r.len() != p.len());
    let ops1 = plan_ops(true, p, Action::Rotate, unused);
    let a = apply_op(m, ops1[0]);
    let b = apply_op(a, ops1[1]);
    assert(ops1.drop_first().drop_first() =~= Seq::<FsOpView>::empty());
    assert(apply_ops(m, ops1) == b) by {
        reveal_with_fuel(apply_ops, 3);
    }
    let ops2 = plan_ops(true, p, Action::WriteTo, line);
    assert(ops2.drop_first() =~= Seq::<FsOpView>::empty());
    assert(apply_ops(b, ops2) == apply_op(b, ops2[0])) by {
        reveal_with_fuel(apply_ops, 2);
    }
    assert(Seq::<char>::empty() + line =~= line);
}

/// Number of random characters in a file name.
pub const NAME_LEN: usize = 32;

/// A file of a worker: its path, and whether the worker holds it open.
pub struct FileSlot {
    pub path: String,
    pub open: bool,
}

/// One churn worker: its private file slots, its pool of line contents,
/// and its action weights.
pub struct Worker {
    pub slots: Vec<FileSlot>,
    pub lines: Vec<String>,
    pub weights: ActionWeights,
}

/// One iteration of a worker: the slot and action drawn, the line drawn
/// from the pool, and the plan that results.
pub struct Step {
    pub slot: usize,
    pub action: Action,
    pub line: usize,
    pub plan: Plan,
}

/// Two entries of a strictly sorted pool are different texts.
proof fn lemma_distinct_in_sorted(pool: Seq<String>, i: int, j: int)
    requires
        strictly_sorted(pool),
        0 <= i < pool.len(),
        0 <= j < pool.len(),
        i != j,
    ensures
        pool[i]@ != pool[j]@,
{
    if pool[i]@ == pool[j]@ {
        lemma_lex_lt_irreflexive(text_bytes(pool[i]));
        if i < j {
            assert(lex_lt(text_bytes(pool[i]), text_bytes(pool[j])));
        } else {
            assert(lex_lt(text_bytes(pool[j]), text_bytes(pool[i])));
        }
    }
}

/// Equal-length names under one root give equal paths only if equal.
proof fn lemma_file_path_injective(root: Seq<char>, a: Seq<char>, b: Seq<char>)
    requires
        a.len() == b.len(),
        file_path(root, a) == file_path(root, b),
    ensures
        a == b,
{
    let k: int = root.len() as int + 1;
    assert(file_path(root, a).subrange(k, k + a.len() as int) =~= a);
    assert(file_path(root, b).subrange(k, k + b.len() as int) =~= b);
}

/// Draws up to `count` distinct file names of `NAME_LEN` characters.
fn build_names(count: usize) -> (r: Vec<String>)
    ensures
        strictly_sorted(r@),
        forall|k: int| 0 <= k < r@.len() ==> (#[trigger] r@[k])@.len() == NAME_LEN,
        r@.len() <= count,
        count > 0 ==> r@.len() > 0,
{
    let mut names: Vec<String> = Vec::new();
    let mut attempts: usize = 10;
    while attempts > 0 && names.len() < count
        invariant
            strictly_sorted(names@),
            forall|k: int| 0 <= k < names@.len() ==> (#[trigger] names@[k])@.len() == NAME_LEN,
            names@.len() <= count,
            attempts < 10 && count > 0 ==> names@.len() > 0,
        decreases attempts,
    {
        let mut n: usize = 0;
        while n < count && names.len() < count
            invariant
                strictly_sorted(names@),
                forall|k: int| 0 <= k < names@.len() ==> (#[trigger] names@[k])@.len() == NAME_LEN,
                names@.len() <= count,
                n > 0 ==> names@.len() > 0,
                attempts < 10 && count > 0 ==> names@.len() > 0,
            decreases count - n,
        {
            let name = random_alnum(NAME_LEN);
            let ghost before = names@;
            let ghost nv = name;
            insert_unique(&mut names, name);
            assert forall|k: int| 0 <= k < names@.len() implies (#[trigger] names@[k])@.len() == NAME_LEN by {
                if names@[k] != nv {
                    let j = choose|j: int| 0 <= j < before.len() && before[j] == names@[k];
                }
            }
            n += 1;
        }
        attempts -= 1;
    }
    names
}

/// The path of the file named `name` under `root`.
pub open spec fn file_path(root: Seq<char>, name: Seq<char>) -> Seq<char> {
    root + seq!['/'] + name + seq!['.', 'l', 'o', 'g']
}

/// A path of a file under `root` with a name of `NAME_LEN` characters.
pub open spec fn is_slot_path(root: Seq<char>, p: Seq<char>) -> bool {
    exists|name: Seq<char>| name.len() == NAME_LEN && p == #[trigger] file_path(root, name)
}

/// Joins a root directory and a file name into a `.log` path.
pub fn join_file_path(root: &String, name: &String) -> (r: String)
    ensures
        r@ == file_path(root@, name@),
{
    proof {
        reveal_strlit("/");
        reveal_strlit(".log");
    }
    let r = root.clone().concat("/").concat(name.as_str()).concat(".log");
    assert(r@ =~= file_path(root@, name@));
    r
}

impl Worker {
    pub open spec fn wf(&self) -> bool {
        &&& self.slots@.len() > 0
        &&& self.lines@.len() > 0
        &&& self.weights.total_spec() > 0
    }

    /// A worker with at most `files` closed slots under `root` and at most
    /// `pool_size` line contents shorter than `max_line_len`; `None` exactly
    /// when one of these sizes or the total weight is zero.
    pub fn new(root: &String, files: usize, max_line_len: usize, pool_size: usize, weights: ActionWeights) -> (r: Option<Worker>)
        ensures
            r is Some <==> (files > 0 && max_line_len > 0 && pool_size > 0 && weights.total_spec() > 0),
            r matches Some(w) ==> {
                &&& w.wf()
                &&& w.weights == weights
                &&& w.slots@.len() <= files
                &&& w.lines@.len() <= pool_size
                &&& forall|i: int| 0 <= i < w.lines@.len() ==> (#[trigger] w.lines@[i])@.len() < max_line_len
                &&& forall|i: int| 0 <= i < w.slots@.len() ==> !(#[trigger] w.slots@[i]).open
                &&& forall|i: int| 0 <= i < w.slots@.len() ==> is_slot_path(root@, (#[trigger] w.slots@[i]).path@)
                &&& forall|i: int, j: int|
                    0 <= i < w.slots@.len() && 0 <= j < w.slots@.len() && i != j
                        ==> (#[trigger] w.slots@[i]).path@ != (#[trigger] w.slots@[j]).path@
            },
    {
        if files == 0 || max_line_len == 0 || pool_size == 0 || weights.total() == 0 {
            return None;
        }
        let lines = build_pool(pool_size, max_line_len);
        let names = build_names(files);
        let mut slots: Vec<FileSlot> = Vec::new();
        let mut i: usize = 0;
        while i < names.len()
            invariant
                i <= names@.len(),
                slots@.len() == i,
                strictly_sorted(names@),
                forall|k: int| 0 <= k < names@.len() ==> (#[trigger] names@[k])@.len() == NAME_LEN,
                forall|k: int| 0 <= k < slots@.len() ==> !(#[trigger] slots@[k]).open,
                forall|k: int| 0 <= k < slots@.len() ==> (#[trigger] slots@[k]).path@ == file_path(root@, names@[k]@),
            decreases names@.len() - i,
        {
            let path = join_file_path(root, &names[i]);
            slots.push(FileSlot { path, open: false });
            i += 1;
        }
        let w = Worker { slots, lines, weights };
        assert forall|i: int| 0 <= i < w.slots@.len() implies is_slot_path(root@, (#[trigger] w.slots@[i]).path@) by {
            assert(w.slots@[i].path@ == file_path(root@, names@[i]@));
            assert(names@[i]@.len() == NAME_LEN);
        }
        assert forall|i: int, j: int|
            0 <= i < w.slots@.len() && 0 <= j < w.slots@.len() && i != j
                implies (#[trigger] w.slots@[i]).path@ != (#[trigger] w.slots@[j]).path@ by {
            lemma_distinct_in_sorted(names@, i, j);
            if w.slots@[i].path@ == w.slots@[j].path@ {
                assert(w.slots@[i].path@ == file_path(root@, names@[i]@));
                assert(w.slots@[j].path@ == file_path(root@, names@[j]@));
                lemma_file_path_injective(root@, names@[i]@, names@[j]@);
            }
        }
        Some(w)
    }

    /// Applies `action` with line `line` from the pool to slot `slot`: the
    /// slot is opened first if closed; its state follows the plan.
    pub fn step(&mut self, slot: usize, action: Action, line: usize) -> (r: Plan)
        requires
            old(self).wf(),
            slot < old(self).slots@.len(),
            line < old(self).lines@.len(),
        ensures
            final(self).wf(),
            final(self).lines == old(self).lines,
            final(self).weights == old(self).weights,
            final(self).slots@.len() == old(self).slots@.len(),
            forall|k: int|
                0 <= k < old(self).slots@.len() && k != slot ==> #[trigger] final(self).slots@[k]
                    == old(self).slots@[k],
            final(self).slots@[slot as int].path == old(self).slots@[slot as int].path,
            final(self).slots@[slot as int].open == (action != Action::Delete),
            r.ops_view() == plan_ops(
                old(self).slots@[slot as int].open,
                old(self).slots@[slot as int].path@,
                action,
                old(self).lines@[line as int]@,
            ),
            action == Action::WriteTo ==> (r.record matches Some(l) && l@ == old(self).lines@[line as int]@),
            action != Action::WriteTo ==> r.record is None,
    {
        let p = plan(self.slots[slot].open, &self.slots[slot].path, action, &self.lines[line]);
        let ghost old_slots = self.slots@;
        let mut s = self.slots.remove(slot);
        s.open = p.open_after;
        self.slots.insert(slot, s);
        assert(self.slots@ =~= old_slots.update(slot as int, s));
        p
    }

    /// One iteration: draws a slot uniformly, an action by weight, and a
    /// line from the pool, and applies them.
    pub fn next_step(&mut self) -> (r: Step)
        requires
            old(self).wf(),
        ensures
            final(self).wf(),
            r.slot < old(self).slots@.len(),
            r.line < old(self).lines@.len(),
            exists|d: int| 0 <= d < old(self).weights.total_spec() && r.action == old(self).weights.action_for(d),
            final(self).lines == old(self).lines,
            final(self).slots@.len() == old(self).slots@.len(),
            forall|k: int|
                0 <= k < old(self).slots@.len() && k != r.slot ==> #[trigger] final(self).slots@[k]
                    == old(self).slots@[k],
            final(self).slots@[r.slot as int].path == old(self).slots@[r.slot as int].path,
            final(self).slots@[r.slot as int].open == (r.action != Action::Delete),
            r.plan.ops_view() == plan_ops(
                old(self).slots@[r.slot as int].open,
                old(self).slots@[r.slot as int].path@,
                r.action,
                old(self).lines@[r.line as int]@,
            ),
            r.action == Action::WriteTo ==> (r.plan.record matches Some(l) && l@ == old(self).lines@[r.line as int]@),
            r.action != Action::WriteTo ==> r.plan.record is None,
    {
        let slot = random_below(self.slots.len() as u64) as usize;
        let draw = random_below(self.weights.total());
        let action = self.weights.pick(draw);
        let line = random_below(self.lines.len() as u64) as usize;
        let plan = self.step(slot, action, line);
        Step { slot, action, line, plan }
    }
}

} // verus!
