//! Meaning of programs: a fuel-bounded interpreter for the raw tree and for the
//! folded tree, over an unbounded tape of cells that wrap modulo `m`.
use vstd::prelude::*;
use crate::ast::Command;
use crate::optimiser::{Folded, lower, lower_seq, optimize_node, optimize_seq};
use vstd::arithmetic::div_mod::{lemma_add_mod_noop_right, lemma_mod_bound, lemma_small_mod};

verus! {

/// State of a running program: the tape, the pointer, the input still to be
/// read and the output written so far.
#[verifier::ext_equal]
pub struct Machine {
    pub cells: spec_fn(int) -> int,
    pub ptr: int,
    pub input: Seq<int>,
    pub output: Seq<int>,
}

impl Machine {
    /// The cell under the pointer.
    pub open spec fn cell(self) -> int {
        (self.cells)(self.ptr)
    }

    /// The machine with cell `at` holding `v`.
    pub open spec fn store(self, at: int, v: int) -> Machine {
        Machine {
            cells: |j: int| if j == at { v } else { (self.cells)(j) },
            ptr: self.ptr,
            input: self.input,
            output: self.output,
        }
    }

    /// The machine with the pointer moved by `d` cells.
    pub open spec fn shift(self, d: int) -> Machine {
        Machine { cells: self.cells, ptr: self.ptr + d, input: self.input, output: self.output }
    }

    /// Every cell holds a value in `0 .. m`.
    pub open spec fn wf(self, m: int) -> bool {
        forall|j: int| 0 <= #[trigger] (self.cells)(j) < m
    }

    /// Reads one character: the next input, or end of input as `-1`, wrapped.
    pub open spec fn read(self, m: int) -> Machine {
        let v = if self.input.len() > 0 { self.input[0] } else { -1 };
        let s = self.store(self.ptr, v % m);
        Machine {
            cells: s.cells,
            ptr: s.ptr,
            input: if self.input.len() > 0 { self.input.drop_first() } else { self.input },
            output: s.output,
        }
    }

    /// Prints the cell under the pointer.
    pub open spec fn print(self) -> Machine {
        Machine {
            cells: self.cells,
            ptr: self.ptr,
            input: self.input,
            output: self.output.push(self.cell()),
        }
    }
}

/// One folded node; `None` when the fuel runs out inside a loop.
pub open spec fn step(f: Folded, s: Machine, m: int, fuel: nat) -> Option<Machine>
    decreases fuel, f,
{
    match f {
        Folded::Add(d) => Some(s.store(s.ptr, (s.cell() + d) % m)),
        Folded::Move(d) => Some(s.shift(d)),
        Folded::Print => Some(s.print()),
        Folded::Read => Some(s.read(m)),
        Folded::SetZero => Some(s.store(s.ptr, 0)),
        Folded::MoveValue { offset, multiplier } => {
            let at = s.ptr + offset;
            Some(s.store(at, ((s.cells)(at) + s.cell() * multiplier) % m).store(s.ptr, 0))
        },
        Folded::Loop(b) => run_loop(b, s, m, fuel),
    }
}

/// A pre-test loop over a folded body; each iteration costs one unit of fuel.
pub open spec fn run_loop(b: Seq<Folded>, s: Machine, m: int, fuel: nat) -> Option<Machine>
    decreases fuel, b,
{
    if s.cell() == 0 {
        Some(s)
    } else if fuel == 0 {
        None
    } else {
        match run_seq(b, s, m, (fuel - 1) as nat) {
            Some(s2) => run_loop(b, s2, m, (fuel - 1) as nat),
            None => None,
        }
    }
}

/// A folded sequence, node after node.
pub open spec fn run_seq(p: Seq<Folded>, s: Machine, m: int, fuel: nat) -> Option<Machine>
    decreases fuel, p,
{
    if p.len() == 0 {
        Some(s)
    } else {
        match run_seq(p.drop_last(), s, m, fuel) {
            Some(s2) => step(p.last(), s2, m, fuel),
            None => None,
        }
    }
}

/// One raw node; `None` when the fuel runs out inside a loop.
pub open spec fn step_raw(c: Command, s: Machine, m: int, fuel: nat) -> Option<Machine>
    decreases fuel, c,
{
    match c {
        Command::Add(n) => Some(s.store(s.ptr, (s.cell() + n) % m)),
        Command::Sub(n) => Some(s.store(s.ptr, (s.cell() - n) % m)),
        Command::Left(n) => Some(s.shift(-n)),
        Command::Right(n) => Some(s.shift(n as int)),
        Command::Print => Some(s.print()),
        Command::Read => Some(s.read(m)),
        Command::Loop(b) => run_raw_loop(b@, s, m, fuel),
    }
}

/// A pre-test loop over a raw body; each iteration costs one unit of fuel.
pub open spec fn run_raw_loop(b: Seq<Command>, s: Machine, m: int, fuel: nat) -> Option<Machine>
    decreases fuel, b,
{
    if s.cell() == 0 {
        Some(s)
    } else if fuel == 0 {
        None
    } else {
        match run_raw_seq(b, s, m, (fuel - 1) as nat) {
            Some(s2) => run_raw_loop(b, s2, m, (fuel - 1) as nat),
            None => None,
        }
    }
}

/// A raw sequence, node after node.
pub open spec fn run_raw_seq(p: Seq<Command>, s: Machine, m: int, fuel: nat) -> Option<Machine>
    decreases fuel, p,
{
    if p.len() == 0 {
        Some(s)
    } else {
        match run_raw_seq(p.drop_last(), s, m, fuel) {
            Some(s2) => step_raw(p.last(), s2, m, fuel),
            None => None,
        }
    }
}

proof fn lemma_lower_step(c: Command, s: Machine, m: int, fuel: nat)
    ensures
        step_raw(c, s, m, fuel) == step(lower(c), s, m, fuel),
    decreases fuel, c,
{
    if let Command::Loop(b) = c {
        lemma_lower_loop(b@, s, m, fuel);
    }
}

proof fn lemma_lower_loop(b: Seq<Command>, s: Machine, m: int, fuel: nat)
    ensures
        run_raw_loop(b, s, m, fuel) == run_loop(lower_seq(b), s, m, fuel),
    decreases fuel, b,
{
    if s.cell() != 0 && fuel > 0 {
        lemma_lower_run(b, s, m, (fuel - 1) as nat);
        if let Some(s2) = run_raw_seq(b, s, m, (fuel - 1) as nat) {
            lemma_lower_loop(b, s2, m, (fuel - 1) as nat);
        }
    }
}

proof fn lemma_lower_run(p: Seq<Command>, s: Machine, m: int, fuel: nat)
    ensures
        run_raw_seq(p, s, m, fuel) == run_seq(lower_seq(p), s, m, fuel),
    decreases fuel, p,
{
    if p.len() > 0 {
        lemma_lower_run(p.drop_last(), s, m, fuel);
        let lp = lower_seq(p);
        assert(lp == lower_seq(p.drop_last()).push(lower(p.last())));
        assert(lp.drop_last() =~= lower_seq(p.drop_last()));
        assert(lp.last() == lower(p.last()));
        if let Some(s2) = run_raw_seq(p.drop_last(), s, m, fuel) {
            lemma_lower_step(p.last(), s2, m, fuel);
        }
    }
}

/// Lowering keeps the meaning of a program: from every state, with every amount
/// of fuel, the raw program and its lowering end in the same state (or both run
/// out of fuel).
pub proof fn lemma_lowering_preserves(program: Seq<Command>, s: Machine, m: int, fuel: nat)
    ensures
        run_raw_seq(program, s, m, fuel) == run_seq(lower_seq(program), s, m, fuel),
{
    lemma_lower_run(program, s, m, fuel);
}

proof fn lemma_store_wf(s: Machine, at: int, v: int, m: int)
    requires
        s.wf(m),
        0 <= v < m,
    ensures
        s.store(at, v).wf(m),
{
    assert forall|j: int| 0 <= #[trigger] (s.store(at, v).cells)(j) < m by {
        if j != at {
            assert(0 <= (s.cells)(j) < m);
        }
    }
}

proof fn lemma_wf_step(f: Folded, s: Machine, m: int, fuel: nat)
    requires
        m > 0,
        s.wf(m),
    ensures
        step(f, s, m, fuel) matches Some(r) ==> r.wf(m),
    decreases fuel, f,
{
    match f {
        Folded::Add(d) => {
            lemma_mod_bound(s.cell() + d, m);
            lemma_store_wf(s, s.ptr, (s.cell() + d) % m, m);
        },
        Folded::Read => {
            let v = if s.input.len() > 0 { s.input[0] } else { -1 };
            lemma_mod_bound(v, m);
            lemma_store_wf(s, s.ptr, v % m, m);
            assert(s.read(m).cells == s.store(s.ptr, v % m).cells);
        },
        Folded::SetZero => {
            lemma_store_wf(s, s.ptr, 0, m);
        },
        Folded::MoveValue { offset, multiplier } => {
            let at = s.ptr + offset;
            let v = ((s.cells)(at) + s.cell() * multiplier) % m;
            lemma_mod_bound((s.cells)(at) + s.cell() * multiplier, m);
            lemma_store_wf(s, at, v, m);
            lemma_store_wf(s.store(at, v), s.ptr, 0, m);
        },
        Folded::Loop(b) => {
            lemma_wf_loop(b, s, m, fuel);
        },
        _ => {},
    }
}

proof fn lemma_wf_loop(b: Seq<Folded>, s: Machine, m: int, fuel: nat)
    requires
        m > 0,
        s.wf(m),
    ensures
        run_loop(b, s, m, fuel) matches Some(r) ==> r.wf(m),
    decreases fuel, b,
{
    if s.cell() != 0 && fuel > 0 {
        lemma_wf_run(b, s, m, (fuel - 1) as nat);
        if let Some(s2) = run_seq(b, s, m, (fuel - 1) as nat) {
            lemma_wf_loop(b, s2, m, (fuel - 1) as nat);
        }
    }
}

proof fn lemma_wf_run(p: Seq<Folded>, s: Machine, m: int, fuel: nat)
    requires
        m > 0,
        s.wf(m),
    ensures
        run_seq(p, s, m, fuel) matches Some(r) ==> r.wf(m),
    decreases fuel, p,
{
    if p.len() > 0 {
        lemma_wf_run(p.drop_last(), s, m, fuel);
        if let Some(s2) = run_seq(p.drop_last(), s, m, fuel) {
            lemma_wf_step(p.last(), s2, m, fuel);
        }
    }
}

proof fn lemma_run_push(p: Seq<Folded>, f: Folded, s: Machine, m: int, fuel: nat)
    ensures
        run_seq(p.push(f), s, m, fuel) == match run_seq(p, s, m, fuel) {
            Some(s2) => step(f, s2, m, fuel),
            None => None,
        },
{
    assert(p.push(f).drop_last() =~= p);
}

/// A loop whose body changes nothing but the current cell ends with that cell
/// cleared and everything else as it was.
proof fn lemma_loop_clears(b: Seq<Folded>, s: Machine, m: int, fuel: nat)
    requires
        forall|t: Machine, k: nat|
            #[trigger] run_seq(b, t, m, k) matches Some(u) && u == t.store(t.ptr, u.cell()),
        run_loop(b, s, m, fuel) is Some,
    ensures
        run_loop(b, s, m, fuel) == Some(s.store(s.ptr, 0)),
    decreases fuel,
{
    if s.cell() == 0 {
        assert(s.store(s.ptr, 0) =~= s);
    } else {
        let s2 = run_seq(b, s, m, (fuel - 1) as nat)->Some_0;
        assert(s2 == s.store(s.ptr, s2.cell()));
        lemma_loop_clears(b, s2, m, (fuel - 1) as nat);
        assert(s2.store(s2.ptr, 0) =~= s.store(s.ptr, 0));
    }
}

/// The copy-and-clear loop adds the current cell, times `i`, into the cell at
/// offset `n`, and clears the current cell.
proof fn lemma_loop_moves(n: int, i: int, s: Machine, m: int, fuel: nat)
    requires
        m > 0,
        n != 0,
        s.wf(m),
        run_loop(seq![Folded::Move(n), Folded::Add(i), Folded::Move(-n), Folded::Add(-1)], s, m, fuel) is Some,
    ensures
        run_loop(seq![Folded::Move(n), Folded::Add(i), Folded::Move(-n), Folded::Add(-1)], s, m, fuel)
            == step(Folded::MoveValue { offset: n, multiplier: i }, s, m, fuel),
    decreases fuel,
{
    let b = seq![Folded::Move(n), Folded::Add(i), Folded::Move(-n), Folded::Add(-1)];
    let p = s.ptr;
    let c = s.cell();
    let x = (s.cells)(p + n);
    assert(0 <= x < m);
    assert(0 <= c < m);
    if c == 0 {
        lemma_small_mod(x as nat, m as nat);
        assert(s.store(p + n, (x + c * i) % m).store(p, 0) =~= s);
    } else {
        let fm = (fuel - 1) as nat;
        lemma_run_push(seq![], Folded::Move(n), s, m, fm);
        lemma_run_push(seq![Folded::Move(n)], Folded::Add(i), s, m, fm);
        lemma_run_push(seq![Folded::Move(n), Folded::Add(i)], Folded::Move(-n), s, m, fm);
        lemma_run_push(seq![Folded::Move(n), Folded::Add(i), Folded::Move(-n)], Folded::Add(-1), s, m, fm);
        assert(seq![Folded::Move(n)] =~= Seq::<Folded>::empty().push(Folded::Move(n)));
        assert(seq![Folded::Move(n), Folded::Add(i)] =~= seq![Folded::Move(n)].push(Folded::Add(i)));
        assert(seq![Folded::Move(n), Folded::Add(i), Folded::Move(-n)] =~= seq![Folded::Move(n), Folded::Add(i)].push(Folded::Move(-n)));
        assert(b =~= seq![Folded::Move(n), Folded::Add(i), Folded::Move(-n)].push(Folded::Add(-1)));
        let t1 = s.shift(n);
        let t2 = t1.store(p + n, (x + i) % m);
        let t3 = t2.shift(-n);
        assert(t3.cell() == c);
        lemma_small_mod((c - 1) as nat, m as nat);
        let s2 = t3.store(p, (c - 1) % m);
        assert(run_seq(b, s, m, fm) == Some(s2));
        lemma_mod_bound(x + i, m);
        lemma_store_wf(s, p + n, (x + i) % m, m);
        lemma_store_wf(s.store(p + n, (x + i) % m), p, c - 1, m);
        assert(s2.cells =~= s.store(p + n, (x + i) % m).store(p, c - 1).cells);
        lemma_loop_moves(n, i, s2, m, fm);
        assert((c - 1) * i + i == c * i) by (nonlinear_arith);
        lemma_add_mod_noop_right((c - 1) * i, x + i, m);
        assert(((x + i) % m + (c - 1) * i) % m == (x + c * i) % m);
        assert(s2.store(p + n, ((s2.cells)(p + n) + s2.cell() * i) % m).store(p, 0)
            =~= s.store(p + n, (x + c * i) % m).store(p, 0));
    }
}

proof fn lemma_opt_step(f: Folded, s: Machine, m: int, fuel: nat)
    requires
        m > 0,
        s.wf(m),
        step(f, s, m, fuel) is Some,
    ensures
        step(optimize_node(f), s, m, fuel) == step(f, s, m, fuel),
    decreases fuel, f,
{
    if let Folded::Loop(b) = f {
        let ob = optimize_seq(b);
        lemma_opt_loop(b, s, m, fuel);
        assert(run_loop(ob, s, m, fuel) == run_loop(b, s, m, fuel));
        if ob.len() == 1 && ob[0] is Add && ob[0]->Add_0 < 0 {
            let i = ob[0]->Add_0;
            assert(ob =~= Seq::<Folded>::empty().push(Folded::Add(i)));
            assert forall|t: Machine, k: nat|
                #[trigger] run_seq(ob, t, m, k) matches Some(u) && u == t.store(t.ptr, u.cell()) by {
                lemma_run_push(Seq::<Folded>::empty(), Folded::Add(i), t, m, k);
                let u = t.store(t.ptr, (t.cell() + i) % m);
                assert(u.store(t.ptr, u.cell()) =~= u);
            }
            lemma_loop_clears(ob, s, m, fuel);
        } else if ob.len() == 4 && ob[0] is Move && ob[1] is Add && ob[2] is Move && ob[3] is Add
            && ob[2]->Move_0 == -ob[0]->Move_0 && ob[3]->Add_0 == -1 {
            let n = ob[0]->Move_0;
            let i = ob[1]->Add_0;
            assert(ob =~= seq![Folded::Move(n), Folded::Add(i), Folded::Move(-n), Folded::Add(-1)]);
            if n != 0 {
                lemma_loop_moves(n, i, s, m, fuel);
            } else {
                assert forall|t: Machine, k: nat|
                    #[trigger] run_seq(ob, t, m, k) matches Some(u) && u == t.store(t.ptr, u.cell()) by {
                    lemma_run_push(seq![], Folded::Move(n), t, m, k);
                    lemma_run_push(seq![Folded::Move(n)], Folded::Add(i), t, m, k);
                    lemma_run_push(seq![Folded::Move(n), Folded::Add(i)], Folded::Move(-n), t, m, k);
                    lemma_run_push(seq![Folded::Move(n), Folded::Add(i), Folded::Move(-n)], Folded::Add(-1), t, m, k);
                    assert(seq![Folded::Move(n)] =~= Seq::<Folded>::empty().push(Folded::Move(n)));
                    assert(seq![Folded::Move(n), Folded::Add(i)] =~= seq![Folded::Move(n)].push(Folded::Add(i)));
                    assert(seq![Folded::Move(n), Folded::Add(i), Folded::Move(-n)] =~= seq![Folded::Move(n), Folded::Add(i)].push(Folded::Move(-n)));
                    assert(ob =~= seq![Folded::Move(n), Folded::Add(i), Folded::Move(-n)].push(Folded::Add(-1)));
                    let t1 = t.shift(n);
                    assert(t1 == t);
                    let t2 = t.store(t.ptr, (t.cell() + i) % m);
                    let t3 = t2.shift(-n);
                    assert(t3 == t2);
                    let u = t2.store(t.ptr, (t2.cell() - 1) % m);
                    assert(run_seq(ob, t, m, k) == Some(u));
                    assert(u =~= t.store(t.ptr, u.cell()));
                }
                lemma_loop_clears(ob, s, m, fuel);
                let v = ((s.cells)(s.ptr + n) + s.cell() * i) % m;
                assert(s.store(s.ptr + n, v).store(s.ptr, 0) =~= s.store(s.ptr, 0));
            }
        }
    }
}

proof fn lemma_opt_loop(b: Seq<Folded>, s: Machine, m: int, fuel: nat)
    requires
        m > 0,
        s.wf(m),
        run_loop(b, s, m, fuel) is Some,
    ensures
        run_loop(optimize_seq(b), s, m, fuel) == run_loop(b, s, m, fuel),
    decreases fuel, b,
{
    if s.cell() != 0 && fuel > 0 {
        let fm = (fuel - 1) as nat;
        lemma_opt_run(b, s, m, fm);
        let s2 = run_seq(b, s, m, fm)->Some_0;
        lemma_wf_run(b, s, m, fm);
        lemma_opt_loop(b, s2, m, fm);
    }
}

proof fn lemma_opt_run(p: Seq<Folded>, s: Machine, m: int, fuel: nat)
    requires
        m > 0,
        s.wf(m),
        run_seq(p, s, m, fuel) is Some,
    ensures
        run_seq(optimize_seq(p), s, m, fuel) == run_seq(p, s, m, fuel),
    decreases fuel, p,
{
    if p.len() > 0 {
        let op = optimize_seq(p);
        assert(op == optimize_seq(p.drop_last()).push(optimize_node(p.last())));
        assert(op.drop_last() =~= optimize_seq(p.drop_last()));
        lemma_opt_run(p.drop_last(), s, m, fuel);
        let s2 = run_seq(p.drop_last(), s, m, fuel)->Some_0;
        lemma_wf_run(p.drop_last(), s, m, fuel);
        lemma_opt_step(p.last(), s2, m, fuel);
    }
}

/// Optimisation keeps the meaning of a program: from every state whose cells
/// hold values in `0 .. m`, a folded program that finishes within the fuel
/// finishes in the same state once optimised.
pub proof fn lemma_optimization_preserves(program: Seq<Folded>, s: Machine, m: int, fuel: nat)
    requires
        m > 0,
        s.wf(m),
        run_seq(program, s, m, fuel) is Some,
    ensures
        run_seq(optimize_seq(program), s, m, fuel) == run_seq(program, s, m, fuel),
{
    lemma_opt_run(program, s, m, fuel);
}

} // verus!
