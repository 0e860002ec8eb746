//! The instruction catalog: which instructions a machine has, in which order
//! the search tries them, and the check that a catalog fits the machine.

use vstd::prelude::*;
use vstd::seq_lib::lemma_seq_contains_after_push;
use crate::config::Config;
use crate::machine::{
    Command,
    CMP,
    MOV,
    CMOVG,
    CMOVL,
    MIN,
    MAX,
    MOVD,
    MOVDQA,
    in_bounds,
    valid_row,
    valid_rows,
};
use crate::order::{Permutation, State, rows};

verus! {

/// The slot is a general register.
pub open spec fn is_reg(cfg: Config, slot: usize) -> bool {
    slot < cfg.regs_spec()
}

/// The slot is a vector lane.
pub open spec fn is_lane(cfg: Config, slot: usize) -> bool {
    cfg.lane_base_spec() <= slot < cfg.width_spec()
}

/// The instruction is one of the scalar machine and names general registers
/// only, so that it neither reads nor writes a flag but by comparing.
pub open spec fn scalar_command(cfg: Config, cmd: Command) -> bool {
    &&& cmd.0 <= CMOVL
    &&& is_reg(cfg, cmd.1)
    &&& is_reg(cfg, cmd.2)
}

/// The instruction fits the machine: its opcode is known and each operand is
/// of the kind that the opcode works on.
pub open spec fn command_ok(cfg: Config, cmd: Command) -> bool {
    if cmd.0 <= CMOVL {
        is_reg(cfg, cmd.1) && is_reg(cfg, cmd.2)
    } else if cmd.0 == MIN || cmd.0 == MAX || cmd.0 == MOVDQA {
        is_lane(cfg, cmd.1) && is_lane(cfg, cmd.2)
    } else if cmd.0 == MOVD {
        (is_reg(cfg, cmd.1) && is_lane(cfg, cmd.2)) || (is_lane(cfg, cmd.1) && is_reg(cfg, cmd.2))
    } else {
        false
    }
}

/// Every instruction of the catalog fits the machine.
pub open spec fn catalog_ok(cfg: Config, catalog: Seq<Command>) -> bool {
    forall|i: int| 0 <= i < catalog.len() ==> command_ok(cfg, #[trigger] catalog[i])
}

/// An instruction that fits the machine stays inside the register file.
pub proof fn lemma_ok_in_bounds(cfg: Config, cmd: Command)
    requires
        cfg.wf(),
        command_ok(cfg, cmd),
    ensures
        in_bounds(cfg, cmd),
{
}

/// Why a set-up was refused.
#[derive(Clone, Copy, Debug, PartialEq, Eq, Structural)]
pub enum ConfigError {
    /// The sizes of the machine cannot be worked with.
    BadSizes,
    /// The catalog entry at this index does not fit the machine.
    BadCommand(usize),
    /// The row of the initial state at this index is no register file of
    /// the machine: it has the wrong width, or a slot holds more than the
    /// highest rank, or a flag is neither 0 nor 1.
    BadRow(usize),
}

/// Tells whether an instruction fits the machine.
pub fn check_command(cfg: &Config, cmd: &Command) -> (ok: bool)
    requires
        cfg.wf(),
    ensures
        ok == command_ok(*cfg, *cmd),
{
    let regs: usize = cfg.regs();
    let base: usize = cfg.lane_base();
    let width: usize = cfg.width();
    let (instr, to, from) = *cmd;
    let to_reg: bool = to < regs;
    let from_reg: bool = from < regs;
    let to_lane: bool = base <= to && to < width;
    let from_lane: bool = base <= from && from < width;
    if instr <= CMOVL {
        to_reg && from_reg
    } else if instr == MIN || instr == MAX || instr == MOVDQA {
        to_lane && from_lane
    } else if instr == MOVD {
        (to_reg && from_lane) || (to_lane && from_reg)
    } else {
        false
    }
}

/// Tells whether a row is a register file of the machine.
pub fn check_row(cfg: &Config, row: &Permutation) -> (ok: bool)
    requires
        cfg.wf(),
    ensures
        ok == valid_row(*cfg, row@),
{
    if row.len() != cfg.width() {
        return false;
    }
    let regs: usize = cfg.regs();
    if row[regs] > 1 || row[regs + 1] > 1 {
        return false;
    }
    let mut i: usize = 0;
    while i < row.len()
        invariant
            i <= row.len(),
            forall|j: int| 0 <= j < i ==> #[trigger] row@[j] <= cfg.numbers,
        decreases row.len() - i,
    {
        if row[i] as usize > cfg.numbers {
            return false;
        }
        i += 1;
    }
    true
}

/// Checks the rows of an initial joint state against the machine, once,
/// before a search: the first row that is no register file of the machine is
/// reported.
pub fn check_rows(cfg: &Config, initial: &State) -> (res: Result<(), ConfigError>)
    requires
        cfg.wf(),
    ensures
        res.is_ok() <==> valid_rows(*cfg, rows(*initial)),
        match res {
            Ok(_) => true,
            Err(ConfigError::BadRow(i)) => {
                &&& i < initial.len()
                &&& !valid_row(*cfg, rows(*initial)[i as int])
                &&& forall|j: int| 0 <= j < i ==> valid_row(*cfg, #[trigger] rows(*initial)[j])
            },
            Err(_) => false,
        },
{
    let mut i: usize = 0;
    while i < initial.len()
        invariant
            i <= initial.len(),
            cfg.wf(),
            forall|j: int| 0 <= j < i ==> valid_row(*cfg, #[trigger] rows(*initial)[j]),
        decreases initial.len() - i,
    {
        assert(rows(*initial)[i as int] == initial@[i as int]@);
        if !check_row(cfg, &initial[i]) {
            return Err(ConfigError::BadRow(i));
        }
        i += 1;
    }
    Ok(())
}

/// Checks a catalog against the machine, once, before a search: the first
/// entry that does not fit is reported.
pub fn check_catalog(cfg: &Config, catalog: &Vec<Command>) -> (res: Result<(), ConfigError>)
    requires
        cfg.wf(),
    ensures
        res.is_ok() <==> catalog_ok(*cfg, catalog@),
        match res {
            Ok(_) => true,
            Err(ConfigError::BadCommand(i)) => {
                &&& i < catalog.len()
                &&& !command_ok(*cfg, catalog@[i as int])
                &&& forall|j: int| 0 <= j < i ==> command_ok(*cfg, #[trigger] catalog@[j])
            },
            Err(_) => false,
        },
{
    let mut i: usize = 0;
    while i < catalog.len()
        invariant
            i <= catalog.len(),
            cfg.wf(),
            forall|j: int| 0 <= j < i ==> command_ok(*cfg, #[trigger] catalog@[j]),
        decreases catalog.len() - i,
    {
        if !check_command(cfg, &catalog[i]) {
            return Err(ConfigError::BadCommand(i));
        }
        i += 1;
    }
    Ok(())
}

/// The rank of an opcode's block in the catalog: conditional and plain moves
/// first, then comparisons, then lane arithmetic and lane moves, then moves
/// between registers and lanes.
pub open spec fn group(instr: usize) -> int {
    if instr == CMP {
        1
    } else if instr <= CMOVL {
        0
    } else if instr == MOVD {
        3
    } else {
        2
    }
}

/// `a` stands before `b` in the catalog: by block, then opcode, then
/// destination, then source.
pub open spec fn before(a: Command, b: Command) -> bool {
    ||| group(a.0) < group(b.0)
    ||| (group(a.0) == group(b.0) && a.0 < b.0)
    ||| (a.0 == b.0 && a.1 < b.1)
    ||| (a.0 == b.0 && a.1 == b.1 && a.2 < b.2)
}

/// The catalog is in catalog order, without repetition.
pub open spec fn catalog_sorted(s: Seq<Command>) -> bool {
    forall|i: int, j: int| 0 <= i < j < s.len() ==> before(#[trigger] s[i], #[trigger] s[j])
}

/// Which pairs of operands a block takes: 0 for all, 1 for distinct ones, 2
/// for those whose destination is below the source.
pub open spec fn pair_ok(mode: u8, to: usize, from: usize) -> bool {
    if mode == 0 {
        true
    } else if mode == 1 {
        to != from
    } else {
        to < from
    }
}

/// The instruction belongs to the block of one opcode over two ranges of
/// slots.
pub open spec fn in_block(
    cmd: Command,
    instr: usize,
    lo1: usize,
    hi1: usize,
    lo2: usize,
    hi2: usize,
    mode: u8,
) -> bool {
    &&& cmd.0 == instr
    &&& lo1 <= cmd.1 < hi1
    &&& lo2 <= cmd.2 < hi2
    &&& pair_ok(mode, cmd.1, cmd.2)
}

/// The instruction is generated for the machine.
pub open spec fn in_catalog(cfg: Config, cmd: Command) -> bool {
    let (instr, to, from) = cmd;
    if instr == MOV || instr == CMOVG || instr == CMOVL {
        is_reg(cfg, to) && is_reg(cfg, from) && to != from
    } else if instr == CMP {
        is_reg(cfg, to) && is_reg(cfg, from) && to < from
    } else if instr == MIN || instr == MAX || instr == MOVDQA {
        is_lane(cfg, to) && is_lane(cfg, from) && to != from
    } else if instr == MOVD {
        (is_reg(cfg, to) && is_lane(cfg, from)) || (is_lane(cfg, to) && is_reg(cfg, from))
    } else {
        false
    }
}

/// Appends the block of one opcode: every admitted pair of a destination from
/// the first range and a source from the second, destinations ascending and,
/// for each, sources ascending.
fn push_block(
    cmds: &mut Vec<Command>,
    instr: usize,
    lo1: usize,
    hi1: usize,
    lo2: usize,
    hi2: usize,
    mode: u8,
)
    requires
        catalog_sorted(old(cmds)@),
        forall|i: int| 0 <= i < old(cmds).len() ==> before(#[trigger] old(cmds)@[i], (instr, lo1, 0)),
    ensures
        catalog_sorted(final(cmds)@),
        forall|c: Command|
            #![trigger final(cmds)@.contains(c)]
            final(cmds)@.contains(c) <==> (old(cmds)@.contains(c) || in_block(
                c,
                instr,
                lo1,
                hi1,
                lo2,
                hi2,
                mode,
            )),
{
    let ghost start = cmds@;
    let mut to: usize = lo1;
    while to < hi1
        invariant
            lo1 <= to,
            catalog_sorted(cmds@),
            forall|i: int| 0 <= i < cmds.len() ==> before(#[trigger] cmds@[i], (instr, to, 0)),
            forall|c: Command|
                #![trigger cmds@.contains(c)]
                cmds@.contains(c) <==> (start.contains(c) || (in_block(
                    c,
                    instr,
                    lo1,
                    hi1,
                    lo2,
                    hi2,
                    mode,
                ) && c.1 < to)),
        decreases hi1 - to,
    {
        let mut from: usize = lo2;
        while from < hi2
            invariant
                lo1 <= to < hi1,
                lo2 <= from,
                catalog_sorted(cmds@),
                forall|i: int| 0 <= i < cmds.len() ==> before(#[trigger] cmds@[i], (instr, to, from)),
                forall|c: Command|
                    #![trigger cmds@.contains(c)]
                    cmds@.contains(c) <==> (start.contains(c) || (in_block(
                        c,
                        instr,
                        lo1,
                        hi1,
                        lo2,
                        hi2,
                        mode,
                    ) && (c.1 < to || (c.1 == to && c.2 < from)))),
            decreases hi2 - from,
        {
            let take: bool = if mode == 0 {
                true
            } else if mode == 1 {
                to != from
            } else {
                to < from
            };
            let ghost prior = cmds@;
            if take {
                cmds.push((instr, to, from));
                proof {
                    assert(cmds@ == prior.push((instr, to, from)));
                    assert forall|i: int, j: int| 0 <= i < j < cmds.len() implies before(
                        #[trigger] cmds@[i],
                        #[trigger] cmds@[j],
                    ) by {
                        if j < prior.len() {
                            assert(before(prior[i], prior[j]));
                        } else {
                            assert(before(prior[i], (instr, to, from)));
                        }
                    }
                }
            }
            proof {
                let x: Command = (instr, to, from);
                assert(take == pair_ok(mode, to, from));
                assert forall|c: Command|
                    #![trigger cmds@.contains(c)]
                    cmds@.contains(c) <==> (start.contains(c) || (in_block(
                        c,
                        instr,
                        lo1,
                        hi1,
                        lo2,
                        hi2,
                        mode,
                    ) && (c.1 < to || (c.1 == to && c.2 < from + 1)))) by {
                    let was = start.contains(c) || (in_block(c, instr, lo1, hi1, lo2, hi2, mode)
                        && (c.1 < to || (c.1 == to && c.2 < from)));
                    assert(prior.contains(c) <==> was);
                    if take {
                        lemma_seq_contains_after_push(prior, x, c);
                        assert(cmds@.contains(c) <==> (c == x || prior.contains(c)));
                    }
                    if c.0 == instr && c.1 == to && c.2 == from {
                        assert(c == x);
                    }
                    if c == x {
                        assert(c.0 == instr && c.1 == to && c.2 == from);
                    }
                }
            }
            from += 1;
        }
        proof {
            assert forall|c: Command|
                #![trigger cmds@.contains(c)]
                cmds@.contains(c) <==> (start.contains(c) || (in_block(
                    c,
                    instr,
                    lo1,
                    hi1,
                    lo2,
                    hi2,
                    mode,
                ) && c.1 < to + 1)) by {}
        }
        to += 1;
    }
}

/// The instruction belongs to one of the first `k` blocks of the catalog.
pub open spec fn in_blocks(cfg: Config, cmd: Command, k: int) -> bool {
    in_catalog(cfg, cmd) && block_of(cfg, cmd) < k
}

/// The number of the block that generates an instruction.
pub open spec fn block_of(cfg: Config, cmd: Command) -> int {
    if cmd.0 == MOV {
        0
    } else if cmd.0 == CMOVG {
        1
    } else if cmd.0 == CMOVL {
        2
    } else if cmd.0 == CMP {
        3
    } else if cmd.0 == MIN {
        4
    } else if cmd.0 == MAX {
        5
    } else if cmd.0 == MOVDQA {
        6
    } else if is_reg(cfg, cmd.1) {
        7
    } else {
        8
    }
}

/// The catalog built so far holds the first `k` blocks, in order.
pub open spec fn built(cfg: Config, s: Seq<Command>, k: int) -> bool {
    &&& catalog_sorted(s)
    &&& forall|c: Command| #![trigger s.contains(c)] s.contains(c) <==> in_blocks(cfg, c, k)
}

/// What is known of each entry once `k` blocks are built.
proof fn lemma_built_entries(cfg: Config, s: Seq<Command>, k: int)
    requires
        built(cfg, s, k),
    ensures
        forall|i: int| 0 <= i < s.len() ==> in_blocks(cfg, #[trigger] s[i], k),
{
    assert forall|i: int| 0 <= i < s.len() implies in_blocks(cfg, #[trigger] s[i], k) by {
        assert(s.contains(s[i]));
    }
}

/// Generates the catalog of the machine: for each of move, move-if-greater
/// and move-if-less every pair of distinct general registers; each
/// comparison of a register with a later one; and, where the machine has
/// lanes, minimum, maximum and move for every pair of distinct lanes and a
/// move between every register and every lane, in both directions.
pub fn possible_commands(cfg: &Config) -> (commands: Vec<Command>)
    requires
        cfg.wf(),
    ensures
        forall|c: Command| #![trigger commands@.contains(c)] commands@.contains(c) <==> in_catalog(*cfg, c),
        catalog_sorted(commands@),
        catalog_ok(*cfg, commands@),
{
    let regs: usize = cfg.regs();
    let base: usize = cfg.lane_base();
    let width: usize = cfg.width();
    let mut commands: Vec<Command> = Vec::new();
    assert(built(*cfg, commands@, 0));
    push_block(&mut commands, MOV, 0, regs, 0, regs, 1);
    assert(built(*cfg, commands@, 1));
    proof {
        lemma_built_entries(*cfg, commands@, 1);
    }
    push_block(&mut commands, CMOVG, 0, regs, 0, regs, 1);
    assert(built(*cfg, commands@, 2));
    proof {
        lemma_built_entries(*cfg, commands@, 2);
    }
    push_block(&mut commands, CMOVL, 0, regs, 0, regs, 1);
    assert(built(*cfg, commands@, 3));
    proof {
        lemma_built_entries(*cfg, commands@, 3);
    }
    push_block(&mut commands, CMP, 0, regs, 0, regs, 2);
    assert(built(*cfg, commands@, 4));
    proof {
        lemma_built_entries(*cfg, commands@, 4);
    }
    push_block(&mut commands, MIN, base, width, base, width, 1);
    assert(built(*cfg, commands@, 5));
    proof {
        lemma_built_entries(*cfg, commands@, 5);
    }
    push_block(&mut commands, MAX, base, width, base, width, 1);
    assert(built(*cfg, commands@, 6));
    proof {
        lemma_built_entries(*cfg, commands@, 6);
    }
    push_block(&mut commands, MOVDQA, base, width, base, width, 1);
    assert(built(*cfg, commands@, 7));
    proof {
        lemma_built_entries(*cfg, commands@, 7);
    }
    push_block(&mut commands, MOVD, 0, regs, base, width, 0);
    assert(built(*cfg, commands@, 8));
    proof {
        lemma_built_entries(*cfg, commands@, 8);
    }
    push_block(&mut commands, MOVD, base, width, 0, regs, 0);
    assert(built(*cfg, commands@, 9));
    proof {
        lemma_built_entries(*cfg, commands@, 9);
    }
    commands
}

} // verus!
