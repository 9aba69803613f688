//! The raw command tree and its parser.
use vstd::prelude::*;
use crate::config::{Config, OptimisationLevel};

verus! {

/// `+`: add one to the current cell.
pub const PLUS: u8 = 43;
/// `-`: subtract one from the current cell.
pub const MINUS: u8 = 45;
/// `<`: move the pointer one cell left.
pub const LEFT: u8 = 60;
/// `>`: move the pointer one cell right.
pub const RIGHT: u8 = 62;
/// `[`: start of a loop.
pub const OPEN: u8 = 91;
/// `]`: end of a loop.
pub const CLOSE: u8 = 93;
/// `.`: print the current cell.
pub const DOT: u8 = 46;
/// `,`: read into the current cell.
pub const COMMA: u8 = 44;

/// A node of the raw tree, as read from the source text.
#[derive(Debug)]
pub enum Command {
    Add(usize),
    Sub(usize),
    Left(usize),
    Right(usize),
    Loop(Vec<Command>),
    Read,
    Print,
}

/// Every count of the node fits in an `isize`, so that it can become a signed delta.
pub open spec fn counts_fit(c: Command) -> bool
    decreases c,
{
    match c {
        Command::Add(n) => n <= isize::MAX,
        Command::Sub(n) => n <= isize::MAX,
        Command::Left(n) => n <= isize::MAX,
        Command::Right(n) => n <= isize::MAX,
        Command::Loop(b) => counts_fit_seq(b@),
        _ => true,
    }
}

/// Every count in the sequence fits in an `isize`.
pub open spec fn counts_fit_seq(s: Seq<Command>) -> bool
    decreases s,
{
    s.len() == 0 || (counts_fit_seq(s.drop_last()) && counts_fit(s.last()))
}

pub proof fn lemma_counts_fit_seq(s: Seq<Command>)
    requires
        counts_fit_seq(s),
    ensures
        forall|i: int| 0 <= i < s.len() ==> #[trigger] counts_fit(s[i]),
    decreases s.len(),
{
    if s.len() > 0 {
        lemma_counts_fit_seq(s.drop_last());
        assert forall|i: int| 0 <= i < s.len() implies #[trigger] counts_fit(s[i]) by {
            if i < s.len() - 1 {
                assert(s.drop_last()[i] == s[i]);
            }
        }
    }
}

/// One of the eight bytes that carry meaning; every other byte is a comment.
pub open spec fn is_command_byte(b: u8) -> bool {
    b == PLUS || b == MINUS || b == LEFT || b == RIGHT || b == OPEN || b == CLOSE || b == DOT
        || b == COMMA
}

/// The source with every comment byte removed.
pub open spec fn filter(s: Seq<u8>) -> Seq<u8>
    decreases s.len(),
{
    if s.len() == 0 {
        Seq::empty()
    } else if is_command_byte(s.last()) {
        filter(s.drop_last()).push(s.last())
    } else {
        filter(s.drop_last())
    }
}

/// Text of one node: a counted node is its byte repeated, a loop is its body in brackets.
pub open spec fn serialize_node(c: Command) -> Seq<u8>
    decreases c,
{
    match c {
        Command::Add(n) => Seq::new(n as nat, |_i: int| PLUS),
        Command::Sub(n) => Seq::new(n as nat, |_i: int| MINUS),
        Command::Left(n) => Seq::new(n as nat, |_i: int| LEFT),
        Command::Right(n) => Seq::new(n as nat, |_i: int| RIGHT),
        Command::Loop(b) => seq![OPEN] + serialize(b@) + seq![CLOSE],
        Command::Read => seq![COMMA],
        Command::Print => seq![DOT],
    }
}

/// Text of a program: the text of its nodes, in order.
pub open spec fn serialize(p: Seq<Command>) -> Seq<u8>
    decreases p,
{
    if p.len() == 0 {
        Seq::empty()
    } else {
        serialize(p.drop_last()) + serialize_node(p.last())
    }
}

/// Change of bracket depth caused by one byte.
pub open spec fn depth_step(b: u8) -> int {
    if b == OPEN {
        1
    } else if b == CLOSE {
        -1
    } else {
        0
    }
}

/// Bracket depth after the first `i` bytes of `t`.
pub open spec fn depth(t: Seq<u8>, i: int) -> int
    decreases i,
{
    if i <= 0 {
        0
    } else {
        depth(t, i - 1) + depth_step(t[i - 1])
    }
}

/// Some prefix of `t` closes more loops than it opens.
pub open spec fn closes_too_many(t: Seq<u8>) -> bool {
    exists|i: int| 0 <= i <= t.len() && #[trigger] depth(t, i) < 0
}

/// `t` holds a loop with an empty body.
pub open spec fn has_empty_loop(t: Seq<u8>) -> bool {
    exists|i: int| 0 <= i < t.len() - 1 && #[trigger] t[i] == OPEN && t[i + 1] == CLOSE
}

/// A filtered source that the grammar accepts: non-empty, every bracket matched,
/// and no loop with an empty body.
pub open spec fn well_formed(t: Seq<u8>) -> bool {
    &&& t.len() > 0
    &&& forall|i: int| 0 <= i <= t.len() ==> #[trigger] depth(t, i) >= 0
    &&& depth(t, t.len() as int) == 0
    &&& forall|i: int| 0 <= i < t.len() - 1 ==> !(#[trigger] t[i] == OPEN && t[i + 1] == CLOSE)
}

/// The byte that a node counts, for the four counted kinds.
pub open spec fn run_byte(c: Command) -> Option<u8> {
    match c {
        Command::Add(_) => Some(PLUS),
        Command::Sub(_) => Some(MINUS),
        Command::Left(_) => Some(LEFT),
        Command::Right(_) => Some(RIGHT),
        _ => None,
    }
}

/// Count carried by a counted node.
pub open spec fn count_of(c: Command) -> int {
    match c {
        Command::Add(n) => n as int,
        Command::Sub(n) => n as int,
        Command::Left(n) => n as int,
        Command::Right(n) => n as int,
        _ => 1,
    }
}

/// Shape of a parsed node: verbatim counts are one; run-length counts are positive.
pub open spec fn node_shape(c: Command, run_length: bool) -> bool
    decreases c,
{
    match c {
        Command::Loop(b) => shape(b@, run_length),
        _ => if run_length {
            count_of(c) >= 1
        } else {
            count_of(c) == 1
        },
    }
}

/// Shape of a parsed program: with run-length accumulation no two neighbouring
/// nodes count the same byte.
pub open spec fn shape(p: Seq<Command>, run_length: bool) -> bool
    decreases p,
{
    if p.len() == 0 {
        true
    } else {
        &&& shape(p.drop_last(), run_length)
        &&& node_shape(p.last(), run_length)
        &&& (run_length && p.len() >= 2 ==> run_byte(p[p.len() - 2]) is None
            || run_byte(p[p.len() - 2]) != run_byte(p.last()))
    }
}

/// Whether a byte is one of the eight commands.
pub fn is_command(c: u8) -> (r: bool)
    ensures
        r == is_command_byte(c),
{
    c == PLUS || c == MINUS || c == LEFT || c == RIGHT || c == OPEN || c == CLOSE || c == DOT
        || c == COMMA
}

/// Why a source text is not a program.
#[derive(Debug, Clone, Copy, PartialEq, Eq, Structural)]
pub enum ParseError {
    /// The source holds no command at all.
    Empty,
    /// A `[` is never closed.
    UnmatchedOpen,
    /// A `]` closes no loop.
    UnmatchedClose,
    /// A loop has no command in its body.
    EmptyLoop,
}

proof fn lemma_filter_len(s: Seq<u8>)
    ensures
        filter(s).len() <= s.len(),
        forall|i: int| 0 <= i < filter(s).len() ==> #[trigger] is_command_byte(filter(s)[i]),
    decreases s.len(),
{
    if s.len() > 0 {
        lemma_filter_len(s.drop_last());
    }
}

proof fn lemma_counts_fit_node(c: Command, bound: int)
    requires
        serialize_node(c).len() <= bound,
        bound <= isize::MAX,
    ensures
        counts_fit(c),
    decreases c,
{
    if let Command::Loop(b) = c {
        lemma_counts_fit_program(b@, bound);
    }
}

proof fn lemma_counts_fit_program(p: Seq<Command>, bound: int)
    requires
        serialize(p).len() <= bound,
        bound <= isize::MAX,
    ensures
        counts_fit_seq(p),
    decreases p,
{
    if p.len() > 0 {
        lemma_counts_fit_program(p.drop_last(), bound);
        lemma_counts_fit_node(p.last(), bound);
    }
}

proof fn lemma_serialize_push(p: Seq<Command>, c: Command)
    ensures
        serialize(p.push(c)) == serialize(p) + serialize_node(c),
        shape(p.push(c), true) == (shape(p, true) && node_shape(c, true) && (p.len() >= 1
            ==> run_byte(p.last()) is None || run_byte(p.last()) != run_byte(c))),
        shape(p.push(c), false) == (shape(p, false) && node_shape(c, false)),
{
    assert(p.push(c).drop_last() =~= p);
}

/// Keeps the command bytes of a source, in order.
fn filter_source(source: &[u8]) -> (r: Vec<u8>)
    ensures
        r@ == filter(source@),
{
    let mut r: Vec<u8> = Vec::new();
    let mut i: usize = 0;
    while i < source.len()
        invariant
            0 <= i <= source.len(),
            r@ == filter(source@.subrange(0, i as int)),
        decreases source.len() - i,
    {
        assert(source@.subrange(0, i + 1).drop_last() =~= source@.subrange(0, i as int));
        if is_command(source[i]) {
            r.push(source[i]);
        }
        i += 1;
    }
    assert(source@.subrange(0, source@.len() as int) =~= source@);
    r
}

/// The counted node for a run of `n` copies of byte `b`.
fn counted(b: u8, n: usize) -> (r: Command)
    requires
        b == PLUS || b == MINUS || b == LEFT || b == RIGHT,
    ensures
        run_byte(r) == Some(b),
        count_of(r) == n,
        serialize_node(r) == Seq::new(n as nat, |_i: int| b),
{
    if b == PLUS {
        Command::Add(n)
    } else if b == MINUS {
        Command::Sub(n)
    } else if b == LEFT {
        Command::Left(n)
    } else {
        Command::Right(n)
    }
}

/// Parses the commands of `t` from `start` up to the `]` that closes the
/// enclosing loop (`nested`) or up to the end of `t`; returns the nodes and
/// where they end.
#[verifier::rlimit(100)]
fn parse_block(t: &Vec<u8>, start: usize, nested: bool, run_length: bool) -> (r: Result<
    (Vec<Command>, usize),
    ParseError,
>)
    requires
        start <= t.len(),
        forall|i: int| 0 <= i < t.len() ==> #[trigger] is_command_byte(t@[i]),
        nested ==> start >= 1 && t@[start - 1] == OPEN && depth(t@, start as int) >= 1,
        !nested ==> start == 0,
    ensures
        match r {
            Ok((p, e)) => {
                &&& start < e <= t.len()
                &&& nested ==> e < t.len() && t@[e as int] == CLOSE
                &&& !nested ==> e == t.len()
                &&& t@[start as int] != CLOSE
                &&& serialize(p@) == t@.subrange(start as int, e as int)
                &&& shape(p@, run_length)
                &&& depth(t@, e as int) == depth(t@, start as int)
                &&& forall|i: int| start <= i <= e ==> #[trigger] depth(t@, i) >= depth(t@, start as int)
                &&& forall|i: int|
                    start <= i < e && i + 1 < t.len() ==> !(#[trigger] t@[i] == OPEN && t@[i + 1] == CLOSE)
            },
            Err(_) => !well_formed(t@),
        },
        !nested && t@.len() == 0 ==> r == Err::<(Vec<Command>, usize), ParseError>(ParseError::Empty),
        r == Err::<(Vec<Command>, usize), ParseError>(ParseError::Empty) ==> !nested && t@.len() == 0,
        r == Err::<(Vec<Command>, usize), ParseError>(ParseError::UnmatchedOpen) ==> depth(t@, t@.len() as int) > 0,
        r == Err::<(Vec<Command>, usize), ParseError>(ParseError::UnmatchedClose) ==> closes_too_many(t@),
        r == Err::<(Vec<Command>, usize), ParseError>(ParseError::EmptyLoop) ==> has_empty_loop(t@),
    decreases t.len() - start,
{
    let mut p: Vec<Command> = Vec::new();
    let mut k: usize = start;
    let ghost base = depth(t@, start as int);
    while k < t.len() && t[k] != CLOSE
        invariant
            start <= k <= t.len(),
            forall|i: int| 0 <= i < t.len() ==> #[trigger] is_command_byte(t@[i]),
            nested ==> start >= 1 && t@[start - 1] == OPEN && depth(t@, start as int) >= 1,
            !nested ==> start == 0,
            base == depth(t@, start as int),
            serialize(p@) == t@.subrange(start as int, k as int),
            shape(p@, run_length),
            p@.len() == 0 <==> k == start,
            depth(t@, k as int) == base,
            forall|i: int| start <= i <= k ==> #[trigger] depth(t@, i) >= base,
            forall|i: int|
                start <= i && i + 1 < k ==> !(#[trigger] t@[i] == OPEN && t@[i + 1] == CLOSE),
            k > start ==> t@[k - 1] != OPEN && t@[start as int] != CLOSE,
            run_length && p@.len() > 0 && k < t.len() ==> run_byte(p@.last()) != Some(t@[k as int]),
        decreases t.len() - k,
    {
        let b = t[k];
        if b == OPEN {
            assert(depth(t@, k + 1) == depth(t@, k as int) + depth_step(t@[k as int]));
            let sub = parse_block(t, k + 1, true, run_length);
            match sub {
                Err(e) => {
                    return Err(e);
                },
                Ok((body, e)) => {
                    let c = Command::Loop(body);
                    proof {
                        lemma_serialize_push(p@, c);
                        assert(t@.subrange(start as int, e + 1) =~= t@.subrange(start as int, k as int)
                            + seq![OPEN] + t@.subrange(k + 1, e as int) + seq![CLOSE]);
                        assert(depth(t@, e + 1) == depth(t@, e as int) + depth_step(t@[e as int]));
                        assert forall|i: int| start <= i <= e + 1 implies #[trigger] depth(t@, i) >= base by {
                            if i > k && i <= e {
                                assert(depth(t@, i) >= depth(t@, k + 1));
                            }
                        }
                        assert forall|i: int| start <= i && i + 1 < e + 1 implies
                            !(#[trigger] t@[i] == OPEN && t@[i + 1] == CLOSE) by {
                            if i == k {
                                assert(t@[k + 1] != CLOSE);
                            } else if i > k {
                                assert(!(t@[i] == OPEN && t@[i + 1] == CLOSE));
                            }
                        }
                    }
                    p.push(c);
                    k = e + 1;
                },
            }
        } else if b == DOT || b == COMMA {
            let c = if b == DOT {
                Command::Print
            } else {
                Command::Read
            };
            proof {
                lemma_serialize_push(p@, c);
                assert(t@.subrange(start as int, k + 1) =~= t@.subrange(start as int, k as int)
                    + seq![b]);
                assert(depth(t@, k + 1) == depth(t@, k as int) + depth_step(t@[k as int]));
            }
            p.push(c);
            k += 1;
        } else {
            assert(is_command_byte(t@[k as int]));
            let mut j: usize = k + 1;
            assert(depth(t@, k + 1) == depth(t@, k as int) + depth_step(t@[k as int]));
            if run_length {
                while j < t.len() && t[j] == b
                    invariant
                        k < j <= t.len(),
                        b == t@[k as int],
                        b == PLUS || b == MINUS || b == LEFT || b == RIGHT,
                        forall|i: int| k <= i < j ==> #[trigger] t@[i] == b,
                        forall|i: int| k <= i <= j ==> #[trigger] depth(t@, i) == base,
                    decreases t.len() - j,
                {
                    assert(depth(t@, j + 1) == depth(t@, j as int) + depth_step(t@[j as int]));
                    j += 1;
                }
            }
            let c = counted(b, j - k);
            proof {
                lemma_serialize_push(p@, c);
                assert(t@.subrange(start as int, j as int) =~= t@.subrange(start as int, k as int)
                    + Seq::new((j - k) as nat, |_i: int| b));
                assert forall|i: int| start <= i <= j implies #[trigger] depth(t@, i) >= base by {
                    if i > k {
                        assert(depth(t@, i) == base);
                    }
                }
                assert forall|i: int| start <= i && i + 1 < j implies
                    !(#[trigger] t@[i] == OPEN && t@[i + 1] == CLOSE) by {
                    if i >= k {
                        assert(t@[i] == b);
                    }
                }
            }
            p.push(c);
            k = j;
        }
    }
    if k == t.len() && nested {
        return Err(ParseError::UnmatchedOpen);
    }
    if k < t.len() && !nested {
        assert(depth(t@, k + 1) == depth(t@, k as int) + depth_step(t@[k as int]));
        return Err(ParseError::UnmatchedClose);
    }
    if p.len() == 0 {
        if nested {
            assert(t@[start - 1] == OPEN && t@[start - 1 + 1] == CLOSE);
            return Err(ParseError::EmptyLoop);
        }
        return Err(ParseError::Empty);
    }
    Ok((p, k))
}

/// Parses a source text: every byte other than the eight commands is a comment.
/// At any level but `Off`, each run of one counted command becomes a single node.
pub fn parse(config: &Config, source: &[u8]) -> (r: Result<Vec<Command>, ParseError>)
    requires
        source@.len() <= isize::MAX,
    ensures
        r is Ok <==> well_formed(filter(source@)),
        r == Err::<Vec<Command>, ParseError>(ParseError::Empty) <==> filter(source@).len() == 0,
        r == Err::<Vec<Command>, ParseError>(ParseError::UnmatchedOpen) ==> depth(filter(source@), filter(source@).len() as int) > 0,
        r == Err::<Vec<Command>, ParseError>(ParseError::UnmatchedClose) ==> closes_too_many(filter(source@)),
        r == Err::<Vec<Command>, ParseError>(ParseError::EmptyLoop) ==> has_empty_loop(filter(source@)),
        r matches Ok(p) ==> {
            &&& serialize(p@) == filter(source@)
            &&& shape(p@, config.optimisation_level != OptimisationLevel::Off)
            &&& counts_fit_seq(p@)
        },
{
    let t = filter_source(source);
    proof {
        lemma_filter_len(source@);
    }
    let run_length = config.optimisation_level != OptimisationLevel::Off;
    match parse_block(&t, 0, false, run_length) {
        Ok((p, e)) => {
            proof {
                assert(t@.subrange(0, e as int) =~= t@);
                lemma_counts_fit_program(p@, t@.len() as int);
                assert forall|i: int| 0 <= i < t@.len() - 1 implies
                    !(#[trigger] t@[i] == OPEN && t@[i + 1] == CLOSE) by {}
            }
            Ok(p)
        },
        Err(e) => Err(e),
    }
}

/// Appends `n` copies of byte `b`.
fn push_run(out: &mut Vec<u8>, b: u8, n: usize)
    ensures
        final(out)@ == old(out)@ + Seq::new(n as nat, |_i: int| b),
{
    let mut k: usize = 0;
    while k < n
        invariant
            0 <= k <= n,
            out@ == old(out)@ + Seq::new(k as nat, |_i: int| b),
        decreases n - k,
    {
        out.push(b);
        k += 1;
        assert(out@ =~= old(out)@ + Seq::new(k as nat, |_i: int| b));
    }
}

/// Appends the text of one node.
fn write_node(out: &mut Vec<u8>, c: &Command)
    ensures
        final(out)@ == old(out)@ + serialize_node(*c),
    decreases c, 0nat,
{
    match c {
        Command::Add(n) => push_run(out, PLUS, *n),
        Command::Sub(n) => push_run(out, MINUS, *n),
        Command::Left(n) => push_run(out, LEFT, *n),
        Command::Right(n) => push_run(out, RIGHT, *n),
        Command::Loop(b) => {
            out.push(OPEN);
            write_program(out, b.as_slice());
            out.push(CLOSE);
        },
        Command::Read => out.push(COMMA),
        Command::Print => out.push(DOT),
    }
    assert(final(out)@ =~= old(out)@ + serialize_node(*c));
}

/// Appends the text of a program.
fn write_program(out: &mut Vec<u8>, program: &[Command])
    ensures
        final(out)@ == old(out)@ + serialize(program@),
    decreases program@, 1nat,
{
    let ghost start = out@;
    let mut i: usize = 0;
    while i < program.len()
        invariant
            0 <= i <= program.len(),
            out@ == start + serialize(program@.subrange(0, i as int)),
        decreases program.len() - i,
    {
        proof {
            assert(program@.subrange(0, i + 1).drop_last() =~= program@.subrange(0, i as int));
        }
        write_node(out, &program[i]);
        i += 1;
        assert(out@ =~= start + serialize(program@.subrange(0, i as int)));
    }
    assert(program@.subrange(0, program@.len() as int) =~= program@);
}

/// The command text of a raw tree: counted nodes are written out in full.
pub fn to_text(program: &[Command]) -> (r: Vec<u8>)
    ensures
        r@ == serialize(program@),
{
    let mut out: Vec<u8> = Vec::new();
    write_program(&mut out, program);
    assert(out@ =~= serialize(program@));
    out
}

} // verus!
