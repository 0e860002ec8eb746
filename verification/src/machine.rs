//! The transition function: one instruction applied to one register file.

use vstd::prelude::*;
use crate::config::Config;
use crate::order::{
    Permutation,
    State,
    rows,
    is_listing_of,
    listing,
    strictly_sorted,
    insert_sorted,
    lemma_listing_is,
};

verus! {

/// An instruction: opcode, destination slot, source slot.
pub type Command = (usize, usize, usize);

/// Compare two registers and set both flags.
pub const CMP: usize = 0;
/// Copy the source register into the destination.
pub const MOV: usize = 1;
/// Copy if the greater-than flag is set.
pub const CMOVG: usize = 2;
/// Copy if the less-than flag is set.
pub const CMOVL: usize = 3;
/// Keep the smaller of two lanes in the destination.
pub const MIN: usize = 4;
/// Keep the larger of two lanes in the destination.
pub const MAX: usize = 5;
/// Copy between a general register and a lane.
pub const MOVD: usize = 6;
/// Copy between two lanes.
pub const MOVDQA: usize = 7;

/// The opcode is known and both slots lie inside the register file.
pub open spec fn in_bounds(cfg: Config, cmd: Command) -> bool {
    &&& cmd.0 <= MOVDQA
    &&& cmd.1 < cfg.width_spec()
    &&& cmd.2 < cfg.width_spec()
}

/// The byte that stands for a truth value in a flag slot.
pub open spec fn flag(b: bool) -> u8 {
    if b { 1u8 } else { 0u8 }
}

/// What one instruction makes of one register file.
pub open spec fn apply_spec(cfg: Config, cmd: Command, perm: Seq<u8>) -> Seq<u8> {
    let (instr, to, from) = cmd;
    let to = to as int;
    let from = from as int;
    let lt = cfg.regs_spec();
    let gt = cfg.regs_spec() + 1;
    if instr == CMP {
        let first = perm.update(lt, flag(perm[to] < perm[from]));
        first.update(gt, flag(first[to] > first[from]))
    } else if instr == MOV || instr == MOVD || instr == MOVDQA {
        perm.update(to, perm[from])
    } else if instr == CMOVG {
        if perm[gt] == 1 { perm.update(to, perm[from]) } else { perm }
    } else if instr == CMOVL {
        if perm[lt] == 1 { perm.update(to, perm[from]) } else { perm }
    } else if instr == MIN {
        perm.update(to, if perm[to] <= perm[from] { perm[to] } else { perm[from] })
    } else if instr == MAX {
        perm.update(to, if perm[to] >= perm[from] { perm[to] } else { perm[from] })
    } else {
        perm
    }
}

/// Applies one instruction to one register file, in place.
pub fn apply(cfg: &Config, cmd: &Command, perm: &mut Vec<u8>)
    requires
        cfg.wf(),
        in_bounds(*cfg, *cmd),
        old(perm)@.len() == cfg.width_spec(),
    ensures
        final(perm)@ == apply_spec(*cfg, *cmd, old(perm)@),
{
    let (instr, to, from) = *cmd;
    let lt: usize = cfg.regs();
    let gt: usize = lt + 1;
    if instr == CMP {
        let less: u8 = if perm[to] < perm[from] { 1 } else { 0 };
        perm.set(lt, less);
        let greater: u8 = if perm[to] > perm[from] { 1 } else { 0 };
        perm.set(gt, greater);
    } else if instr == MOV || instr == MOVD || instr == MOVDQA {
        let v: u8 = perm[from];
        perm.set(to, v);
    } else if instr == CMOVG {
        if perm[gt] == 1 {
            let v: u8 = perm[from];
            perm.set(to, v);
        }
    } else if instr == CMOVL {
        if perm[lt] == 1 {
            let v: u8 = perm[from];
            perm.set(to, v);
        }
    } else if instr == MIN {
        let v: u8 = if perm[to] <= perm[from] { perm[to] } else { perm[from] };
        perm.set(to, v);
    } else {
        let v: u8 = if perm[to] >= perm[from] { perm[to] } else { perm[from] };
        perm.set(to, v);
    }
}

/// The row is a register file of the machine: it has the machine's width, no
/// slot holds more than the highest rank, and each flag is 0 or 1.
pub open spec fn valid_row(cfg: Config, row: Seq<u8>) -> bool {
    &&& row.len() == cfg.width_spec()
    &&& forall|i: int| 0 <= i < row.len() ==> #[trigger] row[i] <= cfg.numbers
    &&& row[cfg.regs_spec()] <= 1
    &&& row[cfg.regs_spec() + 1] <= 1
}

/// Every row is a register file of the machine.
pub open spec fn valid_rows(cfg: Config, s: Seq<Seq<u8>>) -> bool {
    forall|i: int| 0 <= i < s.len() ==> valid_row(cfg, #[trigger] s[i])
}

/// Every row has the width of the machine's register file.
pub open spec fn uniform(cfg: Config, s: Seq<Seq<u8>>) -> bool {
    forall|i: int| 0 <= i < s.len() ==> (#[trigger] s[i]).len() == cfg.width_spec()
}

/// The rows that one instruction makes of the rows of a joint state, in the
/// order of the rows they come from.
pub open spec fn image(cfg: Config, cmd: Command, s: Seq<Seq<u8>>) -> Seq<Seq<u8>> {
    s.map_values(|r: Seq<u8>| apply_spec(cfg, cmd, r))
}

/// Copies a register file.
pub fn copy_row(row: &Permutation) -> (out: Permutation)
    ensures
        out@ == row@,
{
    let out = row.clone();
    assert(out@ =~= row@);
    out
}

/// Applies one instruction to every row of a joint state and lists the
/// outcomes once each, in increasing order: rows that have become equal are
/// merged.
pub fn apply_all(cfg: &Config, cmd: &Command, state: &State) -> (next: State)
    requires
        cfg.wf(),
        in_bounds(*cfg, *cmd),
        uniform(*cfg, rows(*state)),
    ensures
        rows(next) == listing(image(*cfg, *cmd, rows(*state))),
        is_listing_of(rows(next), image(*cfg, *cmd, rows(*state))),
        uniform(*cfg, rows(next)),
        next.len() <= state.len(),
{
    let mut next: State = Vec::new();
    let ghost target = image(*cfg, *cmd, rows(*state));
    let mut idx: usize = 0;
    while idx < state.len()
        invariant
            idx <= state.len(),
            cfg.wf(),
            in_bounds(*cfg, *cmd),
            uniform(*cfg, rows(*state)),
            target == image(*cfg, *cmd, rows(*state)),
            strictly_sorted(rows(next)),
            uniform(*cfg, rows(next)),
            next.len() <= idx,
            forall|r: Seq<u8>|
                #![trigger rows(next).contains(r)]
                rows(next).contains(r) <==> target.take(idx as int).contains(r),
        decreases state.len() - idx,
    {
        let mut row = copy_row(&state[idx]);
        assert(row@ == rows(*state)[idx as int]);
        apply(cfg, cmd, &mut row);
        let ghost before = rows(next);
        let ghost fresh = row@;
        assert(fresh == target[idx as int]);
        insert_sorted(&mut next, row);
        proof {
            let after = rows(next);
            let done = target.take(idx as int);
            let more = target.take(idx as int + 1);
            assert(more =~= done.push(fresh));
            assert forall|r: Seq<u8>| after.contains(r) <==> more.contains(r) by {
                if more.contains(r) {
                    let i = choose|i: int| 0 <= i < more.len() && more[i] == r;
                    if i < idx {
                        assert(done[i] == r);
                    }
                }
                if done.contains(r) {
                    let i = choose|i: int| 0 <= i < done.len() && done[i] == r;
                    assert(more[i] == r);
                }
                if r == fresh {
                    assert(more[idx as int] == r);
                }
            }
            assert forall|i: int| 0 <= i < after.len() implies (#[trigger] after[i]).len()
                == cfg.width_spec() by {
                assert(after.contains(after[i]));
                if before.contains(after[i]) {
                    let j = choose|j: int| 0 <= j < before.len() && before[j] == after[i];
                }
            }
        }
        idx += 1;
    }
    proof {
        assert(target.take(idx as int) =~= target);
        lemma_listing_is(rows(next), target);
    }
    next
}

} // verus!
