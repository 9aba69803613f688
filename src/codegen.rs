//! Lowering of the optimised tree to backend operations on a tape and a
//! pointer, with loops as three blocks of explicit control flow.
use vstd::prelude::*;
use crate::config::{CellSize, Config};
use crate::optimiser::CommandFolded;

verus! {

/// Number of cells of the tape that a program allocates.
pub const TAPE_CELLS: u64 = 30000;

/// The role of a block in the lowering of one loop.
#[derive(Debug, Clone, Copy, PartialEq, Eq, Structural)]
pub enum BlockKind {
    /// Tests the current cell and branches to the body or the exit.
    Header,
    /// The loop's body; ends with a jump back to the header.
    Body,
    /// Where control continues once the current cell is zero.
    Exit,
}

/// Name of a block: its role and the number of the loop it belongs to.
#[derive(Debug, Clone, Copy, PartialEq, Eq, Structural)]
pub struct Label {
    pub kind: BlockKind,
    pub index: usize,
}

/// One operation of generated code.
#[derive(Debug, Clone, Copy, PartialEq, Eq, Structural)]
pub enum Op {
    /// Allocate a zeroed tape of this many cells and point at its first cell.
    Allocate(u64),
    /// Load the current cell, add the delta with wraparound, store it back.
    AddCell(isize),
    /// Advance the pointer by this many cells, with no bounds check.
    MovePointer(isize),
    /// Store zero into the current cell.
    StoreZero,
    /// Add the current cell times `multiplier` into the cell at `offset`.
    MulAddAt { offset: isize, multiplier: isize },
    /// Read one character into the current cell.
    ReadCell,
    /// Print the current cell as one character.
    PrintCell,
    /// Jump unconditionally to a block.
    Jump(Label),
    /// Continue emitting into a block.
    Enter(Label),
    /// Branch to `nonzero` when the current cell is not zero, else to `zero`.
    BranchNonZero { nonzero: Label, zero: Label },
    /// Release the tape.
    Release,
    /// Return zero from the program.
    ReturnZero,
}

/// The label of block `kind` of loop number `n`.
pub open spec fn label(kind: BlockKind, n: nat) -> Label {
    Label { kind, index: n as usize }
}

/// Number of loop nodes in a node, nested ones included.
pub open spec fn loops_node(c: CommandFolded) -> nat
    decreases c,
{
    match c {
        CommandFolded::Loop(b) => 1 + loops_seq(b@),
        _ => 0,
    }
}

/// Number of loop nodes in a program, nested ones included.
pub open spec fn loops_seq(s: Seq<CommandFolded>) -> nat
    decreases s,
{
    if s.len() == 0 {
        0
    } else {
        loops_seq(s.drop_last()) + loops_node(s.last())
    }
}

/// Operations for one node, whose first loop gets number `n`.
pub open spec fn emit_node(c: CommandFolded, n: nat) -> Seq<Op>
    decreases c,
{
    match c {
        CommandFolded::Add(d) => seq![Op::AddCell(d)],
        CommandFolded::Move(d) => seq![Op::MovePointer(d)],
        CommandFolded::SetZero => seq![Op::StoreZero],
        CommandFolded::MoveValue { pos_rel, mul } => seq![
            Op::MulAddAt { offset: pos_rel, multiplier: mul },
            Op::StoreZero,
        ],
        CommandFolded::Read => seq![Op::ReadCell],
        CommandFolded::Print => seq![Op::PrintCell],
        CommandFolded::Loop(b) => seq![
            Op::Jump(label(BlockKind::Header, n)),
            Op::Enter(label(BlockKind::Header, n)),
            Op::BranchNonZero {
                nonzero: label(BlockKind::Body, n),
                zero: label(BlockKind::Exit, n),
            },
            Op::Enter(label(BlockKind::Body, n)),
        ] + emit_seq(b@, n + 1) + seq![
            Op::Jump(label(BlockKind::Header, n)),
            Op::Enter(label(BlockKind::Exit, n)),
        ],
    }
}

/// Operations for a program, whose first loop gets number `n`; loops are
/// numbered in the order in which they open.
pub open spec fn emit_seq(s: Seq<CommandFolded>, n: nat) -> Seq<Op>
    decreases s,
{
    if s.len() == 0 {
        Seq::empty()
    } else {
        emit_seq(s.drop_last(), n) + emit_node(s.last(), n + loops_seq(s.drop_last()))
    }
}

/// Operations of a whole program: allocate, run, release, return.
pub open spec fn emit_program(s: Seq<CommandFolded>, n: nat) -> Seq<Op> {
    seq![Op::Allocate(TAPE_CELLS)] + emit_seq(s, n) + seq![Op::Release, Op::ReturnZero]
}

/// A generation session: the operations emitted so far and the number of the
/// next loop.
pub struct Generator {
    pub ops: Vec<Op>,
    pub label_count: usize,
    pub cell_size: CellSize,
}

impl Generator {
    /// A fresh session for the configured cell width.
    pub fn new(config: &Config) -> (r: Generator)
        ensures
            r.ops@ == Seq::<Op>::empty(),
            r.label_count == 0,
            r.cell_size == config.cell_size,
    {
        Generator { ops: Vec::new(), label_count: 0, cell_size: config.cell_size }
    }

    /// Emits a whole program.
    pub fn generate(&mut self, program: &[CommandFolded])
        requires
            old(self).label_count + loops_seq(program@) <= usize::MAX,
        ensures
            final(self).ops@ == old(self).ops@ + emit_program(program@, old(self).label_count as nat),
            final(self).label_count == old(self).label_count + loops_seq(program@),
            final(self).cell_size == old(self).cell_size,
    {
        self.ops.push(Op::Allocate(TAPE_CELLS));
        self.build_program(program);
        self.ops.push(Op::Release);
        self.ops.push(Op::ReturnZero);
        proof {
            assert(final(self).ops@ =~= old(self).ops@ + emit_program(program@, old(self).label_count as nat));
        }
    }

    fn build_program(&mut self, program: &[CommandFolded])
        requires
            old(self).label_count + loops_seq(program@) <= usize::MAX,
        ensures
            final(self).ops@ == old(self).ops@ + emit_seq(program@, old(self).label_count as nat),
            final(self).label_count == old(self).label_count + loops_seq(program@),
            final(self).cell_size == old(self).cell_size,
        decreases program@, 0nat,
    {
        let ghost ops0 = self.ops@;
        let ghost n0 = self.label_count as nat;
        let mut i: usize = 0;
        while i < program.len()
            invariant
                0 <= i <= program.len(),
                n0 + loops_seq(program@) <= usize::MAX,
                self.ops@ == ops0 + emit_seq(program@.subrange(0, i as int), n0),
                self.label_count == n0 + loops_seq(program@.subrange(0, i as int)),
                self.cell_size == old(self).cell_size,
            decreases program.len() - i,
        {
            let ghost pre = program@.subrange(0, i as int);
            proof {
                assert(program@.subrange(0, i + 1).drop_last() =~= pre);
                lemma_loops_prefix(program@, i + 1);
            }
            self.build_node(&program[i]);
            proof {
                assert(self.ops@ =~= ops0 + emit_seq(program@.subrange(0, i + 1), n0));
            }
            i += 1;
        }
        assert(program@.subrange(0, program@.len() as int) =~= program@);
    }

    fn build_node(&mut self, command: &CommandFolded)
        requires
            old(self).label_count + loops_node(*command) <= usize::MAX,
        ensures
            final(self).ops@ == old(self).ops@ + emit_node(*command, old(self).label_count as nat),
            final(self).label_count == old(self).label_count + loops_node(*command),
            final(self).cell_size == old(self).cell_size,
        decreases command, 0nat,
    {
        match command {
            CommandFolded::Add(d) => self.ops.push(Op::AddCell(*d)),
            CommandFolded::Move(d) => self.ops.push(Op::MovePointer(*d)),
            CommandFolded::SetZero => self.ops.push(Op::StoreZero),
            CommandFolded::MoveValue { pos_rel, mul } => {
                self.ops.push(Op::MulAddAt { offset: *pos_rel, multiplier: *mul });
                self.ops.push(Op::StoreZero);
            },
            CommandFolded::Read => self.ops.push(Op::ReadCell),
            CommandFolded::Print => self.ops.push(Op::PrintCell),
            CommandFolded::Loop(sub_program) => self.build_loop(sub_program.as_slice()),
        }
        proof {
            assert(final(self).ops@ =~= old(self).ops@ + emit_node(*command, old(self).label_count as nat));
        }
    }

    /// Emits a pre-test loop: header, body, exit.
    fn build_loop(&mut self, body: &[CommandFolded])
        requires
            old(self).label_count + 1 + loops_seq(body@) <= usize::MAX,
        ensures
            final(self).ops@ == old(self).ops@ + seq![
                Op::Jump(label(BlockKind::Header, old(self).label_count as nat)),
                Op::Enter(label(BlockKind::Header, old(self).label_count as nat)),
                Op::BranchNonZero {
                    nonzero: label(BlockKind::Body, old(self).label_count as nat),
                    zero: label(BlockKind::Exit, old(self).label_count as nat),
                },
                Op::Enter(label(BlockKind::Body, old(self).label_count as nat)),
            ] + emit_seq(body@, (old(self).label_count + 1) as nat) + seq![
                Op::Jump(label(BlockKind::Header, old(self).label_count as nat)),
                Op::Enter(label(BlockKind::Exit, old(self).label_count as nat)),
            ],
            final(self).label_count == old(self).label_count + 1 + loops_seq(body@),
            final(self).cell_size == old(self).cell_size,
        decreases body@, 1nat,
    {
        let n = self.label_count;
        let header = Label { kind: BlockKind::Header, index: n };
        let inner = Label { kind: BlockKind::Body, index: n };
        let exit = Label { kind: BlockKind::Exit, index: n };
        self.label_count = n + 1;
        self.ops.push(Op::Jump(header));
        self.ops.push(Op::Enter(header));
        self.ops.push(Op::BranchNonZero { nonzero: inner, zero: exit });
        self.ops.push(Op::Enter(inner));
        self.build_program(body);
        self.ops.push(Op::Jump(header));
        self.ops.push(Op::Enter(exit));
        proof {
            assert(final(self).ops@ =~= old(self).ops@ + seq![
                Op::Jump(header),
                Op::Enter(header),
                Op::BranchNonZero { nonzero: inner, zero: exit },
                Op::Enter(inner),
            ] + emit_seq(body@, (old(self).label_count + 1) as nat) + seq![
                Op::Jump(header),
                Op::Enter(exit),
            ]);
        }
    }
}

proof fn lemma_loops_prefix(s: Seq<CommandFolded>, i: int)
    requires
        0 <= i <= s.len(),
    ensures
        loops_seq(s.subrange(0, i)) <= loops_seq(s),
    decreases s.len() - i,
{
    if i < s.len() {
        lemma_loops_prefix(s, i + 1);
        assert(s.subrange(0, i + 1).drop_last() =~= s.subrange(0, i));
    } else {
        assert(s.subrange(0, i) =~= s);
    }
}

/// Every block that `ops` enters belongs to a loop numbered in `lo .. hi`.
pub open spec fn entries_within(ops: Seq<Op>, lo: nat, hi: nat) -> bool {
    forall|i: int|
        0 <= i < ops.len() && #[trigger] ops[i] is Enter ==> lo <= ops[i]->Enter_0.index < hi
}

/// No block is entered twice.
pub open spec fn entries_unique(ops: Seq<Op>) -> bool {
    forall|i: int, j: int|
        0 <= i < j < ops.len() && #[trigger] ops[i] is Enter ==> ops[i] != #[trigger] ops[j]
}

proof fn lemma_concat_entries(a: Seq<Op>, b: Seq<Op>, lo: nat, mid: nat, hi: nat)
    requires
        lo <= mid <= hi,
        entries_within(a, lo, mid),
        entries_within(b, mid, hi),
        entries_unique(a),
        entries_unique(b),
    ensures
        entries_within(a + b, lo, hi),
        entries_unique(a + b),
{
    let c = a + b;
    assert forall|i: int| 0 <= i < c.len() && #[trigger] c[i] is Enter implies lo <= c[i]->Enter_0.index < hi by {
        if i < a.len() {
            assert(c[i] == a[i]);
        } else {
            assert(c[i] == b[i - a.len()]);
        }
    }
    assert forall|i: int, j: int| 0 <= i < j < c.len() && #[trigger] c[i] is Enter implies c[i] != #[trigger] c[j] by {
        if j < a.len() {
            assert(c[i] == a[i] && c[j] == a[j]);
        } else if i >= a.len() {
            assert(c[i] == b[i - a.len()] && c[j] == b[j - a.len()]);
        } else {
            assert(c[i] == a[i] && c[j] == b[j - a.len()]);
            assert(a[i] is Enter);
            if c[j] is Enter {
                assert(b[j - a.len()] is Enter);
            }
        }
    }
}

proof fn lemma_node_entries(c: CommandFolded, n: nat)
    requires
        n + loops_node(c) <= usize::MAX,
    ensures
        entries_within(emit_node(c, n), n, n + loops_node(c)),
        entries_unique(emit_node(c, n)),
    decreases c,
{
    if let CommandFolded::Loop(b) = c {
        lemma_seq_entries(b@, n + 1);
        let head = seq![
            Op::Jump(label(BlockKind::Header, n)),
            Op::Enter(label(BlockKind::Header, n)),
            Op::BranchNonZero { nonzero: label(BlockKind::Body, n), zero: label(BlockKind::Exit, n) },
            Op::Enter(label(BlockKind::Body, n)),
        ];
        let tail = seq![Op::Jump(label(BlockKind::Header, n)), Op::Enter(label(BlockKind::Exit, n))];
        assert(entries_within(head, n, n + 1));
        assert(entries_unique(head));
        assert(entries_within(tail, n, n + 1));
        assert(entries_unique(tail));
        let body = emit_seq(b@, n + 1);
        lemma_concat_entries(head, body, n, n + 1, n + loops_node(c));
        let first = head + body;
        let all = first + tail;
        assert(all == emit_node(c, n));
        assert(entries_within(all, n, n + loops_node(c))) by {
            assert forall|i: int| 0 <= i < all.len() && #[trigger] all[i] is Enter implies n <= all[i]->Enter_0.index < n + loops_node(c) by {
                if i < first.len() {
                    assert(all[i] == first[i]);
                } else {
                    assert(all[i] == tail[i - first.len()]);
                }
            }
        }
        assert forall|i: int, j: int| 0 <= i < j < all.len() && #[trigger] all[i] is Enter implies all[i] != #[trigger] all[j] by {
            if j < first.len() {
                assert(all[i] == first[i] && all[j] == first[j]);
            } else if i >= first.len() {
                assert(all[i] == tail[i - first.len()] && all[j] == tail[j - first.len()]);
            } else {
                assert(all[i] == first[i] && all[j] == tail[j - first.len()]);
                if i < 4 {
                    assert(first[i] == head[i]);
                } else {
                    assert(first[i] == body[i - 4]);
                    assert(body[i - 4] is Enter);
                }
            }
        }
    }
}

proof fn lemma_seq_entries(s: Seq<CommandFolded>, n: nat)
    requires
        n + loops_seq(s) <= usize::MAX,
    ensures
        entries_within(emit_seq(s, n), n, n + loops_seq(s)),
        entries_unique(emit_seq(s, n)),
    decreases s,
{
    if s.len() > 0 {
        lemma_seq_entries(s.drop_last(), n);
        lemma_node_entries(s.last(), n + loops_seq(s.drop_last()));
        lemma_concat_entries(
            emit_seq(s.drop_last(), n),
            emit_node(s.last(), n + loops_seq(s.drop_last())),
            n,
            n + loops_seq(s.drop_last()),
            n + loops_seq(s),
        );
    }
}

/// Every loop gets its own blocks: the code generated for a program enters no
/// block twice.
pub proof fn lemma_block_names_unique(program: Seq<CommandFolded>)
    requires
        loops_seq(program) <= usize::MAX,
    ensures
        entries_unique(emit_program(program, 0)),
{
    lemma_seq_entries(program, 0);
    let pre = seq![Op::Allocate(TAPE_CELLS)];
    let post = seq![Op::Release, Op::ReturnZero];
    lemma_concat_entries(pre, emit_seq(program, 0), 0, 0, loops_seq(program));
    lemma_concat_entries(pre + emit_seq(program, 0), post, 0, loops_seq(program), loops_seq(program));
}

} // verus!
