//! Lowering of the raw tree to the signed-delta tree, and the peephole optimiser.
use vstd::prelude::*;
use crate::ast::{Command, counts_fit, counts_fit_seq, lemma_counts_fit_seq};

verus! {

/// A node of the folded tree.
#[derive(Debug)]
pub enum CommandFolded {
    Add(isize),
    Move(isize),
    Loop(Vec<CommandFolded>),
    Print,
    Read,
    SetZero,
    MoveValue { pos_rel: isize, mul: isize },
}

/// Mathematical model of a folded node: deltas are unbounded integers.
pub enum Folded {
    Add(int),
    Move(int),
    Loop(Seq<Folded>),
    Print,
    Read,
    SetZero,
    MoveValue { offset: int, multiplier: int },
}

impl CommandFolded {
    pub open spec fn view(self) -> Folded
        decreases self,
    {
        match self {
            CommandFolded::Add(d) => Folded::Add(d as int),
            CommandFolded::Move(d) => Folded::Move(d as int),
            CommandFolded::Loop(b) => Folded::Loop(view_seq(b@)),
            CommandFolded::Print => Folded::Print,
            CommandFolded::Read => Folded::Read,
            CommandFolded::SetZero => Folded::SetZero,
            CommandFolded::MoveValue { pos_rel, mul } => Folded::MoveValue {
                offset: pos_rel as int,
                multiplier: mul as int,
            },
        }
    }
}

/// The model of each node of a sequence, in order.
pub open spec fn view_seq(s: Seq<CommandFolded>) -> Seq<Folded>
    decreases s,
{
    if s.len() == 0 {
        Seq::empty()
    } else {
        view_seq(s.drop_last()).push(s.last()@)
    }
}

/// Lowering of one raw node: directions become signed deltas.
pub open spec fn lower(c: Command) -> Folded
    decreases c,
{
    match c {
        Command::Add(n) => Folded::Add(n as int),
        Command::Sub(n) => Folded::Add(-(n as int)),
        Command::Left(n) => Folded::Move(-(n as int)),
        Command::Right(n) => Folded::Move(n as int),
        Command::Loop(b) => Folded::Loop(lower_seq(b@)),
        Command::Read => Folded::Read,
        Command::Print => Folded::Print,
    }
}

/// Lowering of each node of a sequence, in order.
pub open spec fn lower_seq(s: Seq<Command>) -> Seq<Folded>
    decreases s,
{
    if s.len() == 0 {
        Seq::empty()
    } else {
        lower_seq(s.drop_last()).push(lower(s.last()))
    }
}

/// The node that replaces a loop whose body, already optimised, is `b`.
pub open spec fn fold_loop(b: Seq<Folded>) -> Folded {
    if b.len() == 1 && b[0] is Add && b[0]->Add_0 < 0 {
        Folded::SetZero
    } else if b.len() == 4 && b[0] is Move && b[1] is Add && b[2] is Move && b[3] is Add
        && b[2]->Move_0 == -b[0]->Move_0 && b[3]->Add_0 == -1 {
        Folded::MoveValue { offset: b[0]->Move_0, multiplier: b[1]->Add_0 }
    } else {
        Folded::Loop(b)
    }
}

/// Optimisation of one node: loops are rewritten bottom-up, other nodes stay.
pub open spec fn optimize_node(f: Folded) -> Folded
    decreases f,
{
    match f {
        Folded::Loop(b) => fold_loop(optimize_seq(b)),
        _ => f,
    }
}

/// Optimisation of each node of a sequence, in order.
pub open spec fn optimize_seq(s: Seq<Folded>) -> Seq<Folded>
    decreases s,
{
    if s.len() == 0 {
        Seq::empty()
    } else {
        optimize_seq(s.drop_last()).push(optimize_node(s.last()))
    }
}

pub proof fn lemma_view_seq(s: Seq<CommandFolded>)
    ensures
        view_seq(s).len() == s.len(),
        forall|i: int|
            #![trigger view_seq(s)[i]]
            #![trigger s[i]@]
            0 <= i < s.len() ==> view_seq(s)[i] == s[i]@,
    decreases s.len(),
{
    if s.len() > 0 {
        lemma_view_seq(s.drop_last());
        assert forall|i: int| 0 <= i < s.len() implies #[trigger] view_seq(s)[i] == s[i]@ by {
            if i < s.len() - 1 {
                assert(s.drop_last()[i] == s[i]);
            }
        }
    }
}

/// Lowers a raw program to the folded tree, without optimising it.
pub fn transform(ast: &[Command]) -> (r: Vec<CommandFolded>)
    requires
        counts_fit_seq(ast@),
    ensures
        view_seq(r@) == lower_seq(ast@),
    decreases ast@,
{
    let mut r: Vec<CommandFolded> = Vec::new();
    let mut i: usize = 0;
    while i < ast.len()
        invariant
            0 <= i <= ast.len(),
            counts_fit_seq(ast@),
            view_seq(r@) == lower_seq(ast@.subrange(0, i as int)),
        decreases ast.len() - i,
    {
        proof {
            lemma_counts_fit_seq(ast@);
        }
        let c = transform_single(&ast[i]);
        proof {
            assert(ast@.subrange(0, i + 1).drop_last() =~= ast@.subrange(0, i as int));
            assert(r@.push(c).drop_last() =~= r@);
        }
        r.push(c);
        i += 1;
    }
    assert(ast@.subrange(0, ast@.len() as int) =~= ast@);
    r
}

/// Lowers one raw node.
fn transform_single(command: &Command) -> (r: CommandFolded)
    requires
        counts_fit(*command),
    ensures
        r@ == lower(*command),
    decreases command,
{
    match command {
        Command::Add(n) => CommandFolded::Add(*n as isize),
        Command::Sub(n) => CommandFolded::Add(-(*n as isize)),
        Command::Left(n) => CommandFolded::Move(-(*n as isize)),
        Command::Right(n) => CommandFolded::Move(*n as isize),
        Command::Loop(sub_program) => {
            let body = sub_program.as_slice();
            assert(body@ == sub_program@);
            CommandFolded::Loop(transform(body))
        },
        Command::Read => CommandFolded::Read,
        Command::Print => CommandFolded::Print,
    }
}

proof fn lemma_optimize_seq_push(s: Seq<Folded>, f: Folded)
    ensures
        optimize_seq(s.push(f)) == optimize_seq(s).push(optimize_node(f)),
{
    assert(s.push(f).drop_last() =~= s);
}

proof fn lemma_optimize_node_idempotent(f: Folded)
    ensures
        optimize_node(optimize_node(f)) == optimize_node(f),
    decreases f,
{
    if let Folded::Loop(b) = f {
        lemma_optimize_seq_idempotent(b);
    }
}

proof fn lemma_optimize_seq_idempotent(s: Seq<Folded>)
    ensures
        optimize_seq(optimize_seq(s)) == optimize_seq(s),
    decreases s,
{
    if s.len() > 0 {
        lemma_optimize_seq_idempotent(s.drop_last());
        lemma_optimize_node_idempotent(s.last());
        lemma_optimize_seq_push(optimize_seq(s.drop_last()), optimize_node(s.last()));
    }
}

/// Optimising an already optimised program changes nothing.
pub proof fn lemma_optimize_idempotent(program: Seq<Folded>)
    ensures
        optimize_seq(optimize_seq(program)) == optimize_seq(program),
{
    lemma_optimize_seq_idempotent(program);
}

/// Builds the node that replaces a loop whose optimised body is `body`.
fn fold_body(body: Vec<CommandFolded>) -> (r: CommandFolded)
    ensures
        r@ == fold_loop(view_seq(body@)),
{
    proof {
        lemma_view_seq(body@);
    }
    if body.len() == 1 {
        if let CommandFolded::Add(i) = &body[0] {
            if *i < 0 {
                return CommandFolded::SetZero;
            }
        }
    }
    if body.len() == 4 {
        if let CommandFolded::Move(n) = &body[0] {
            if let CommandFolded::Add(i) = &body[1] {
                if let CommandFolded::Move(m) = &body[2] {
                    if let CommandFolded::Add(j) = &body[3] {
                        if *m != isize::MIN && *n == -*m && *j == -1 {
                            return CommandFolded::MoveValue { pos_rel: *n, mul: *i };
                        }
                    }
                }
            }
        }
    }
    CommandFolded::Loop(body)
}

/// Optimises one node, and the body of a loop before the loop itself.
fn optimize(command: &CommandFolded) -> (r: CommandFolded)
    ensures
        r@ == optimize_node(command@),
    decreases command,
{
    match command {
        CommandFolded::Loop(sub_program) => {
            let body = optimize_all(sub_program.as_slice());
            fold_body(body)
        },
        CommandFolded::Add(d) => CommandFolded::Add(*d),
        CommandFolded::Move(d) => CommandFolded::Move(*d),
        CommandFolded::Print => CommandFolded::Print,
        CommandFolded::Read => CommandFolded::Read,
        CommandFolded::SetZero => CommandFolded::SetZero,
        CommandFolded::MoveValue { pos_rel, mul } => CommandFolded::MoveValue {
            pos_rel: *pos_rel,
            mul: *mul,
        },
    }
}

/// Optimises every node of a folded program.
pub fn optimize_all(program: &[CommandFolded]) -> (r: Vec<CommandFolded>)
    ensures
        view_seq(r@) == optimize_seq(view_seq(program@)),
    decreases program@,
{
    let mut r: Vec<CommandFolded> = Vec::new();
    let mut i: usize = 0;
    while i < program.len()
        invariant
            0 <= i <= program.len(),
            view_seq(r@) == optimize_seq(view_seq(program@.subrange(0, i as int))),
        decreases program.len() - i,
    {
        let c = optimize(&program[i]);
        proof {
            let pre = program@.subrange(0, i as int);
            assert(program@.subrange(0, i + 1).drop_last() =~= pre);
            assert(r@.push(c).drop_last() =~= r@);
            lemma_optimize_seq_push(view_seq(pre), program@[i as int]@);
        }
        r.push(c);
        i += 1;
    }
    assert(program@.subrange(0, program@.len() as int) =~= program@);
    r
}

/// Lowers a raw program to the folded tree and optimises it.
pub fn run(ast: &[Command]) -> (r: Vec<CommandFolded>)
    requires
        counts_fit_seq(ast@),
    ensures
        view_seq(r@) == optimize_seq(lower_seq(ast@)),
{
    let folded = transform(ast);
    optimize_all(folded.as_slice())
}

} // verus!
