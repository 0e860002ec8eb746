//! Instructions run backwards: the register files from which one instruction
//! of the scalar machine leads to a given one.

use vstd::prelude::*;
use crate::config::Config;
use crate::catalog::scalar_command;
use crate::machine::{Command, CMP, MOV, CMOVG, CMOVL, in_bounds, apply_spec, valid_row, copy_row};
use crate::order::{Permutation, State, rows};

verus! {

/// The row with both flags replaced.
pub open spec fn with_flags(cfg: Config, perm: Seq<u8>, lt: u8, gt: u8) -> Seq<u8> {
    perm.update(cfg.regs_spec(), lt).update(cfg.regs_spec() + 1, gt)
}

/// The flags of the row are what a comparison of the two registers leaves.
pub open spec fn flags_match(cfg: Config, cmd: Command, perm: Seq<u8>) -> bool {
    let to = cmd.1 as int;
    let from = cmd.2 as int;
    let lt = perm[cfg.regs_spec()];
    let gt = perm[cfg.regs_spec() + 1];
    &&& (lt == 0 && !(perm[to] < perm[from])) || (lt == 1 && perm[to] < perm[from])
    &&& (gt == 0 && !(perm[to] > perm[from])) || (gt == 1 && perm[to] > perm[from])
}

/// The rows from which a move leads to `perm`: none unless destination and
/// source agree, else one for each value that the destination may have held,
/// from 0 to `N`.
pub open spec fn move_origins(cfg: Config, cmd: Command, perm: Seq<u8>) -> Seq<Seq<u8>> {
    if perm[cmd.1 as int] != perm[cmd.2 as int] {
        Seq::empty()
    } else {
        Seq::new((cfg.numbers + 1) as nat, |x: int| perm.update(cmd.1 as int, x as u8))
    }
}

/// The rows from which one instruction of the scalar machine leads to
/// `perm`, in the order in which they are handed out.
pub open spec fn apply_invers_spec(cfg: Config, cmd: Command, perm: Seq<u8>) -> Seq<Seq<u8>> {
    if cmd.0 == CMP {
        if flags_match(cfg, cmd, perm) {
            seq![
                with_flags(cfg, perm, 0, 0),
                with_flags(cfg, perm, 0, 1),
                with_flags(cfg, perm, 1, 0),
                with_flags(cfg, perm, 1, 1),
            ]
        } else {
            Seq::empty()
        }
    } else if cmd.0 == MOV {
        move_origins(cfg, cmd, perm)
    } else if cmd.0 == CMOVG {
        if perm[cfg.regs_spec() + 1] == 0 {
            seq![perm]
        } else {
            move_origins(cfg, cmd, perm)
        }
    } else if cmd.0 == CMOVL {
        if perm[cfg.regs_spec()] == 0 {
            seq![perm]
        } else {
            move_origins(cfg, cmd, perm)
        }
    } else {
        Seq::empty()
    }
}

/// A copy of the row with both flags replaced.
fn flagged(cfg: &Config, perm: &Permutation, lt: u8, gt: u8) -> (out: Permutation)
    requires
        cfg.wf(),
        perm@.len() == cfg.width_spec(),
    ensures
        out@ == with_flags(*cfg, perm@, lt, gt),
{
    let mut out = copy_row(perm);
    let r: usize = cfg.regs();
    out.set(r, lt);
    out.set(r + 1, gt);
    out
}

/// The rows from which a move leads to `perm`.
fn undo_move(cfg: &Config, cmd: &Command, perm: &Permutation) -> (origins: State)
    requires
        cfg.wf(),
        in_bounds(*cfg, *cmd),
        perm@.len() == cfg.width_spec(),
    ensures
        rows(origins) == move_origins(*cfg, *cmd, perm@),
{
    let (_, to, from) = *cmd;
    let mut origins: State = Vec::new();
    if perm[to] != perm[from] {
        assert(rows(origins) =~= move_origins(*cfg, *cmd, perm@));
        return origins;
    }
    let mut x: usize = 0;
    while x <= cfg.numbers
        invariant
            x <= cfg.numbers + 1,
            cfg.wf(),
            to == cmd.1,
            to < perm@.len(),
            origins.len() == x,
            forall|k: int| 0 <= k < x ==> (#[trigger] origins@[k])@ == perm@.update(to as int, k as u8),
        decreases cfg.numbers + 1 - x,
    {
        let mut row = copy_row(perm);
        row.set(to, x as u8);
        origins.push(row);
        x += 1;
    }
    assert(rows(origins) =~= move_origins(*cfg, *cmd, perm@));
    origins
}

/// Runs one instruction of the scalar machine backwards: hands out every
/// register file from which the instruction leads to `perm`. A comparison
/// whose flags do not fit the compared registers has none; otherwise the flags
/// before it may have been anything. A move whose destination and source
/// differ has none; otherwise the destination may have held anything. A
/// conditional move whose flag is clear did nothing.
pub fn apply_invers(cfg: &Config, cmd: &Command, perm: &Permutation) -> (origins: State)
    requires
        cfg.wf(),
        in_bounds(*cfg, *cmd),
        cmd.0 <= CMOVL,
        perm@.len() == cfg.width_spec(),
    ensures
        rows(origins) == apply_invers_spec(*cfg, *cmd, perm@),
{
    let (instr, to, from) = *cmd;
    let r: usize = cfg.regs();
    if instr == CMP {
        let lt_flag: u8 = perm[r];
        let gt_flag: u8 = perm[r + 1];
        let less: bool = perm[to] < perm[from];
        let greater: bool = perm[to] > perm[from];
        let mut origins: State = Vec::new();
        if ((lt_flag == 0 && !less) || (lt_flag == 1 && less)) && ((gt_flag == 0 && !greater) || (
        gt_flag == 1 && greater)) {
            origins.push(flagged(cfg, perm, 0, 0));
            origins.push(flagged(cfg, perm, 0, 1));
            origins.push(flagged(cfg, perm, 1, 0));
            origins.push(flagged(cfg, perm, 1, 1));
        }
        assert(rows(origins) =~= apply_invers_spec(*cfg, *cmd, perm@));
        origins
    } else if instr == MOV {
        undo_move(cfg, cmd, perm)
    } else {
        let flag: u8 = if instr == CMOVG { perm[r + 1] } else { perm[r] };
        if flag == 0 {
            let mut origins: State = Vec::new();
            origins.push(copy_row(perm));
            assert(rows(origins) =~= apply_invers_spec(*cfg, *cmd, perm@));
            origins
        } else {
            undo_move(cfg, cmd, perm)
        }
    }
}

/// Running backwards finds every register file that the instruction turns
/// into `perm`.
pub proof fn lemma_invers_complete(cfg: Config, cmd: Command, perm: Seq<u8>, p: Seq<u8>)
    requires
        cfg.wf(),
        scalar_command(cfg, cmd),
        valid_row(cfg, perm),
        valid_row(cfg, p),
        apply_spec(cfg, cmd, p) == perm,
    ensures
        apply_invers_spec(cfg, cmd, perm).contains(p),
{
    let origins = apply_invers_spec(cfg, cmd, perm);
    let to = cmd.1 as int;
    let r = cfg.regs_spec();
    if cmd.0 == CMP {
        assert(flags_match(cfg, cmd, perm));
        assert(p =~= with_flags(cfg, perm, p[r], p[r + 1]));
        if p[r] == 0 && p[r + 1] == 0 {
            assert(origins[0] == p);
        } else if p[r] == 0 {
            assert(origins[1] == p);
        } else if p[r + 1] == 0 {
            assert(origins[2] == p);
        } else {
            assert(origins[3] == p);
        }
    } else {
        let moved = cmd.0 == MOV || (cmd.0 == CMOVG && perm[r + 1] != 0) || (cmd.0 == CMOVL
            && perm[r] != 0);
        if moved {
            assert(p =~= perm.update(to, p[to]));
            assert(move_origins(cfg, cmd, perm)[p[to] as int] == p);
        } else {
            assert(origins[0] == p);
        }
    }
}

/// Running backwards undoes running forwards: among the register files of
/// the machine, those handed out for `perm` are exactly those that the
/// instruction turns into `perm`. This holds of comparisons and of moves
/// between two different registers.
pub proof fn lemma_invers_is_preimage(cfg: Config, cmd: Command, perm: Seq<u8>, p: Seq<u8>)
    requires
        cfg.wf(),
        scalar_command(cfg, cmd),
        cmd.0 == CMP || cmd.1 != cmd.2,
        valid_row(cfg, perm),
        valid_row(cfg, p),
    ensures
        apply_invers_spec(cfg, cmd, perm).contains(p) <==> apply_spec(cfg, cmd, p) == perm,
{
    let origins = apply_invers_spec(cfg, cmd, perm);
    if apply_spec(cfg, cmd, p) == perm {
        lemma_invers_complete(cfg, cmd, perm, p);
    }
    if origins.contains(p) {
        let i = choose|i: int| 0 <= i < origins.len() && origins[i] == p;
        assert(apply_spec(cfg, cmd, p) =~= perm);
    }
}

} // verus!
