//! The evaluator: a backtracking virtual machine over compiled programs.
//!
//! The machine walks the program depth-first from `(pc, sp)`, trying the
//! first address of every `Split` before the second. To terminate on every
//! input it keeps the set of addresses stepped through since the last
//! consumed symbol: re-entering one of them means the search is in a loop
//! that consumes nothing, and that branch fails — such a branch could never
//! reach a verdict that its first pass could not. Any search that never
//! re-enters an address behaves exactly as the plain depth-first search.

use vstd::prelude::*;
use vstd::set_lib::lemma_int_range;
use vstd::set_lib::lemma_len_subset;
use vstd::set_lib::set_int_range;

use crate::engine::Instruction;

verus! {

/// An evaluation error.
#[derive(Debug, Clone, Copy, PartialEq, Eq, Structural)]
pub enum EvalError {
    /// The program counter left the representable range.
    PCOverflow,
    /// The scan pointer left the representable range.
    SPOverflow,
    /// An unsupported search strategy, or a start-of-line assertion anywhere
    /// but at address zero.
    NotSupport,
    /// The program counter left the program: the program was not produced by
    /// a correct compilation.
    InvalidPC,
}

/// One depth-first search of `inst` from `(pc, sp)`. `index` is the absolute
/// offset of this match attempt in its line, read by `Caret`; `visited`
/// holds the addresses stepped through since the last consumed symbol, and a
/// re-entered address fails the branch.
pub open spec fn eval_from(
    inst: Seq<Instruction>,
    line: Seq<char>,
    pc: nat,
    sp: nat,
    index: nat,
    visited: Set<int>,
) -> Result<bool, EvalError>
    decreases line.len() - sp, inst.len() - visited.len(),
        when visited.finite() && (forall|p: int| visited.contains(p) ==> 0 <= p < inst.len())
        via eval_from_decreases
{
    if pc >= inst.len() {
        Err(EvalError::InvalidPC)
    } else if visited.contains(pc as int) {
        Ok(false)
    } else {
        let vis = visited.insert(pc as int);
        match inst[pc as int] {
            Instruction::Dollar => if sp == line.len() {
                Ok(true)
            } else {
                Ok(false)
            },
            Instruction::Caret => {
                if pc != 0 {
                    Err(EvalError::NotSupport)
                } else if index != 0 {
                    Ok(false)
                } else if pc + 1 > usize::MAX {
                    Err(EvalError::PCOverflow)
                } else {
                    eval_from(inst, line, pc + 1, sp, index, vis)
                }
            },
            Instruction::Dot => {
                if sp < line.len() {
                    if pc + 1 > usize::MAX {
                        Err(EvalError::PCOverflow)
                    } else if sp + 1 > usize::MAX {
                        Err(EvalError::SPOverflow)
                    } else {
                        eval_from(inst, line, pc + 1, sp + 1, index, Set::empty())
                    }
                } else {
                    Ok(false)
                }
            },
            Instruction::Char(c) => {
                if sp < line.len() {
                    if line[sp as int] == c {
                        if pc + 1 > usize::MAX {
                            Err(EvalError::PCOverflow)
                        } else if sp + 1 > usize::MAX {
                            Err(EvalError::SPOverflow)
                        } else {
                            eval_from(inst, line, pc + 1, sp + 1, index, Set::empty())
                        }
                    } else {
                        Ok(false)
                    }
                } else {
                    Ok(false)
                }
            },
            Instruction::Match => Ok(true),
            Instruction::Jump(addr) => eval_from(inst, line, addr as nat, sp, index, vis),
            Instruction::Split(addr1, addr2) => {
                match eval_from(inst, line, addr1 as nat, sp, index, vis) {
                    Ok(true) => Ok(true),
                    Ok(false) => eval_from(inst, line, addr2 as nat, sp, index, vis),
                    Err(e) => Err(e),
                }
            },
        }
    }
}

#[via_fn]
proof fn eval_from_decreases(
    inst: Seq<Instruction>,
    line: Seq<char>,
    pc: nat,
    sp: nat,
    index: nat,
    visited: Set<int>,
) {
    if pc < inst.len() && !visited.contains(pc as int) {
        vstd::set::axiom_set_insert_len(visited, pc as int);
        let r = set_int_range(0, inst.len() as int);
        lemma_int_range(0, inst.len() as int);
        assert(visited.insert(pc as int).subset_of(r));
        lemma_len_subset(visited.insert(pc as int), r);
    }
}

/// Within machine limits the counters cannot leave their range: a program
/// and a line whose lengths are representable never produce `PCOverflow` or
/// `SPOverflow`.
pub proof fn lemma_counters_cannot_overflow(
    inst: Seq<Instruction>,
    line: Seq<char>,
    pc: nat,
    sp: nat,
    index: nat,
    visited: Set<int>,
)
    requires
        inst.len() <= usize::MAX,
        line.len() <= usize::MAX,
        visited.finite(),
        forall|p: int| visited.contains(p) ==> 0 <= p < inst.len(),
    ensures
        eval_from(inst, line, pc, sp, index, visited) != Err::<bool, EvalError>(
            EvalError::PCOverflow,
        ),
        eval_from(inst, line, pc, sp, index, visited) != Err::<bool, EvalError>(
            EvalError::SPOverflow,
        ),
    decreases line.len() - sp, inst.len() - visited.len(),
{
    if pc < inst.len() && !visited.contains(pc as int) {
        let vis = visited.insert(pc as int);
        vstd::set::axiom_set_insert_len(visited, pc as int);
        let r = set_int_range(0, inst.len() as int);
        lemma_int_range(0, inst.len() as int);
        assert(vis.subset_of(r));
        lemma_len_subset(vis, r);
        match inst[pc as int] {
            Instruction::Caret => {
                if pc == 0 && index == 0 {
                    lemma_counters_cannot_overflow(inst, line, pc + 1, sp, index, vis);
                }
            },
            Instruction::Dot => {
                if sp < line.len() {
                    lemma_counters_cannot_overflow(
                        inst,
                        line,
                        pc + 1,
                        sp + 1,
                        index,
                        Set::empty(),
                    );
                }
            },
            Instruction::Char(c) => {
                if sp < line.len() && line[sp as int] == c {
                    lemma_counters_cannot_overflow(
                        inst,
                        line,
                        pc + 1,
                        sp + 1,
                        index,
                        Set::empty(),
                    );
                }
            },
            Instruction::Jump(addr) => {
                lemma_counters_cannot_overflow(inst, line, addr as nat, sp, index, vis);
            },
            Instruction::Split(addr1, addr2) => {
                lemma_counters_cannot_overflow(inst, line, addr1 as nat, sp, index, vis);
                lemma_counters_cannot_overflow(inst, line, addr2 as nat, sp, index, vis);
            },
            _ => {},
        }
    }
}

/// The addresses marked in a visited buffer.
spec fn marked(v: Seq<bool>) -> Set<int> {
    Set::new(|p: int| 0 <= p < v.len() && v[p])
}

/// The marked set is finite, bounded by the buffer, and inside its range.
proof fn lemma_marked_props(v: Seq<bool>)
    ensures
        marked(v).finite(),
        marked(v).len() <= v.len(),
        forall|p: int| marked(v).contains(p) ==> 0 <= p < v.len(),
{
    let r = set_int_range(0, v.len() as int);
    lemma_int_range(0, v.len() as int);
    assert(marked(v).subset_of(r));
    lemma_len_subset(marked(v), r);
}

/// Marking one fresh address inserts it into the marked set.
proof fn lemma_marked_insert(v: Seq<bool>, p: int)
    requires
        0 <= p < v.len(),
        !v[p],
    ensures
        !marked(v).contains(p),
        marked(v.update(p, true)) == marked(v).insert(p),
        marked(v.update(p, true)).len() == marked(v).len() + 1,
{
    lemma_marked_props(v);
    assert(marked(v.update(p, true)) =~= marked(v).insert(p));
    vstd::set::axiom_set_insert_len(marked(v), p);
}

/// A fresh visited buffer: one unmarked entry for each instruction.
fn new_visited(n: usize) -> (v: Vec<bool>)
    ensures
        v@.len() == n,
        marked(v@) =~= Set::<int>::empty(),
{
    let mut v: Vec<bool> = Vec::new();
    while v.len() < n
        invariant
            v@.len() <= n,
            forall|i: int| 0 <= i < v@.len() ==> v@[i] == false,
        decreases n - v@.len(),
    {
        v.push(false);
    }
    v
}

/// A copy of a visited buffer, for the second branch of a `Split`.
fn copy_visited(v: &Vec<bool>) -> (r: Vec<bool>)
    ensures
        r@ == v@,
{
    let mut r: Vec<bool> = Vec::new();
    let mut i: usize = 0;
    while i < v.len()
        invariant
            i <= v@.len(),
            r@ == v@.subrange(0, i as int),
        decreases v@.len() - i,
    {
        r.push(v[i]);
        proof {
            assert(v@.subrange(0, i + 1) =~= v@.subrange(0, i as int).push(v@[i as int]));
        }
        i = i + 1;
    }
    proof {
        assert(v@.subrange(0, v@.len() as int) =~= v@);
    }
    r
}

/// Runs the program against `line` from its first instruction. With
/// `is_depth` the depth-first search is used and the result is exactly
/// `eval_from` at `(0, 0)` with nothing visited; any other strategy is
/// refused with `NotSupport`.
pub fn eval(inst: &Vec<Instruction>, line: &Vec<char>, index: usize, is_depth: bool) -> (r: Result<
    bool,
    EvalError,
>)
    ensures
        is_depth ==> r == eval_from(inst@, line@, 0, 0, index as nat, Set::<int>::empty()),
        !is_depth ==> r == Err::<bool, EvalError>(EvalError::NotSupport),
{
    if is_depth {
        let visited = new_visited(inst.len());
        eval_depth(inst, line, 0, 0, index, visited, inst.len())
    } else {
        Err(EvalError::NotSupport)
    }
}

/// The depth-first search itself: evaluates the machine at `(pc, sp)`.
/// `remaining` counts the unmarked addresses; together with the unread part
/// of the line it is the measure that the recursion decreases.
fn eval_depth(
    inst: &Vec<Instruction>,
    line: &Vec<char>,
    pc: usize,
    sp: usize,
    index: usize,
    visited: Vec<bool>,
    remaining: usize,
) -> (r: Result<bool, EvalError>)
    requires
        visited@.len() == inst@.len(),
        remaining + marked(visited@).len() == inst@.len(),
        sp <= line@.len(),
    ensures
        r == eval_from(inst@, line@, pc as nat, sp as nat, index as nat, marked(visited@)),
    decreases line@.len() - sp, remaining,
{
    proof {
        lemma_marked_props(visited@);
    }
    if pc >= inst.len() {
        return Err(EvalError::InvalidPC);
    }
    let mut visited = visited;
    if visited[pc] {
        return Ok(false);
    }
    proof {
        lemma_marked_insert(visited@, pc as int);
        lemma_marked_props(visited@.update(pc as int, true));
    }
    visited[pc] = true;
    let remaining = remaining - 1;
    let cur = inst[pc];
    match cur {
        Instruction::Dollar => {
            if sp == line.len() {
                Ok(true)
            } else {
                Ok(false)
            }
        },
        Instruction::Caret => {
            if pc != 0 {
                return Err(EvalError::NotSupport);
            }
            if index != 0 {
                return Ok(false);
            }
            eval_depth(inst, line, pc + 1, sp, index, visited, remaining)
        },
        Instruction::Dot => {
            if sp < line.len() {
                let fresh = new_visited(inst.len());
                eval_depth(inst, line, pc + 1, sp + 1, index, fresh, inst.len())
            } else {
                Ok(false)
            }
        },
        Instruction::Char(c) => {
            if sp < line.len() {
                if line[sp] == c {
                    let fresh = new_visited(inst.len());
                    eval_depth(inst, line, pc + 1, sp + 1, index, fresh, inst.len())
                } else {
                    Ok(false)
                }
            } else {
                Ok(false)
            }
        },
        Instruction::Match => Ok(true),
        Instruction::Jump(addr) => eval_depth(inst, line, addr, sp, index, visited, remaining),
        Instruction::Split(addr1, addr2) => {
            let second = copy_visited(&visited);
            match eval_depth(inst, line, addr1, sp, index, visited, remaining) {
                Ok(true) => Ok(true),
                Ok(false) => eval_depth(inst, line, addr2, sp, index, second, remaining),
                Err(e) => Err(e),
            }
        },
    }
}

} // verus!
