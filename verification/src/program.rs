//! Programs: sequences of instructions, run on a joint state by the
//! transition function alone.

use vstd::prelude::*;
use crate::canon::normalize;
use crate::catalog::{command_ok, scalar_command};
use crate::config::Config;
use crate::machine::{Command, apply_all, apply_spec, image, in_bounds, uniform, valid_row, valid_rows};
use crate::order::{State, rows, is_listing_of, same_members, lemma_members_chain};
use crate::viability::{holds_rank, row_viable, state_viable, state_goal, is_goal, lemma_goal_is_viable};

verus! {

/// Every instruction of the program stays inside the register file.
pub open spec fn program_in_bounds(cfg: Config, program: Seq<Command>) -> bool {
    forall|i: int| 0 <= i < program.len() ==> in_bounds(cfg, #[trigger] program[i])
}

/// Every instruction of the program is one of the scalar machine on general
/// registers.
pub open spec fn scalar_program(cfg: Config, program: Seq<Command>) -> bool {
    forall|i: int| 0 <= i < program.len() ==> scalar_command(cfg, #[trigger] program[i])
}

/// Every instruction of the program is in the catalog.
pub open spec fn from_catalog(catalog: Seq<Command>, program: Seq<Command>) -> bool {
    forall|i: int| 0 <= i < program.len() ==> catalog.contains(#[trigger] program[i])
}

/// The rows that a program makes of the rows of a joint state: each row is
/// taken through all instructions in turn; nothing is merged or cut.
pub open spec fn replay(cfg: Config, program: Seq<Command>, s: Seq<Seq<u8>>) -> Seq<Seq<u8>>
    decreases program.len(),
{
    if program.len() == 0 {
        s
    } else {
        image(cfg, program.last(), replay(cfg, program.drop_last(), s))
    }
}

/// The row that a program makes of one row.
pub open spec fn run_row(cfg: Config, program: Seq<Command>, row: Seq<u8>) -> Seq<u8>
    decreases program.len(),
{
    if program.len() == 0 {
        row
    } else {
        apply_spec(cfg, program.last(), run_row(cfg, program.drop_last(), row))
    }
}

/// A program works on each row by itself.
pub proof fn lemma_replay_pointwise(cfg: Config, program: Seq<Command>, s: Seq<Seq<u8>>)
    ensures
        replay(cfg, program, s).len() == s.len(),
        forall|i: int|
            0 <= i < s.len() ==> #[trigger] replay(cfg, program, s)[i] == run_row(
                cfg,
                program,
                s[i],
            ),
    decreases program.len(),
{
    if program.len() > 0 {
        lemma_replay_pointwise(cfg, program.drop_last(), s);
    }
}

/// The program sorts every row of the joint state.
pub open spec fn solves(cfg: Config, program: Seq<Command>, s: Seq<Seq<u8>>) -> bool {
    state_goal(cfg, replay(cfg, program, s))
}

/// One instruction makes the same rows of two joint states with the same
/// rows.
pub proof fn lemma_image_of_members(cfg: Config, cmd: Command, s: Seq<Seq<u8>>, t: Seq<Seq<u8>>)
    requires
        same_members(s, t),
    ensures
        same_members(image(cfg, cmd, s), image(cfg, cmd, t)),
{
    let a = image(cfg, cmd, s);
    let b = image(cfg, cmd, t);
    assert forall|r: Seq<u8>| a.contains(r) <==> b.contains(r) by {
        if a.contains(r) {
            let i = choose|i: int| 0 <= i < a.len() && a[i] == r;
            assert(s.contains(s[i]));
            let j = choose|j: int| 0 <= j < t.len() && t[j] == s[i];
            assert(b[j] == r);
        }
        if b.contains(r) {
            let i = choose|i: int| 0 <= i < b.len() && b[i] == r;
            assert(t.contains(t[i]));
            let j = choose|j: int| 0 <= j < s.len() && s[j] == t[i];
            assert(a[j] == r);
        }
    }
}

/// An instruction that fits the machine makes register files of register
/// files.
pub proof fn lemma_apply_keeps_valid(cfg: Config, cmd: Command, row: Seq<u8>)
    requires
        cfg.wf(),
        command_ok(cfg, cmd),
        valid_row(cfg, row),
    ensures
        valid_row(cfg, apply_spec(cfg, cmd, row)),
{
    let out = apply_spec(cfg, cmd, row);
    assert(row[cmd.1 as int] <= cfg.numbers);
    assert(row[cmd.2 as int] <= cfg.numbers);
    assert forall|i: int| 0 <= i < out.len() implies #[trigger] out[i] <= cfg.numbers by {
        assert(row[i] <= cfg.numbers);
    }
}

/// An instruction that fits the machine keeps a joint state one of register
/// files.
pub proof fn lemma_image_keeps_valid(cfg: Config, cmd: Command, s: Seq<Seq<u8>>)
    requires
        cfg.wf(),
        command_ok(cfg, cmd),
        valid_rows(cfg, s),
    ensures
        valid_rows(cfg, image(cfg, cmd, s)),
{
    assert forall|i: int| 0 <= i < s.len() implies valid_row(cfg, #[trigger] image(cfg, cmd, s)[i]) by {
        lemma_apply_keeps_valid(cfg, cmd, s[i]);
    }
}

/// An instruction of the scalar machine brings no rank back: a rank that the
/// general registers hold afterwards was in one of them before.
pub proof fn lemma_rank_is_not_restored(cfg: Config, cmd: Command, row: Seq<u8>, n: int)
    requires
        cfg.wf(),
        scalar_command(cfg, cmd),
        row.len() == cfg.width_spec(),
        holds_rank(cfg, apply_spec(cfg, cmd, row), n),
    ensures
        holds_rank(cfg, row, n),
{
    let out = apply_spec(cfg, cmd, row);
    let i = choose|i: int| 0 <= i < cfg.regs_spec() && #[trigger] out[i] == n;
    if out[i] == row[i] {
        assert(row[i] == n);
    } else {
        assert(i == cmd.1);
        assert(row[cmd.2 as int] == n);
    }
}

/// A joint state that is not viable stays so under every instruction of the
/// scalar machine.
pub proof fn lemma_cut_is_final(cfg: Config, cmd: Command, s: Seq<Seq<u8>>)
    requires
        cfg.wf(),
        scalar_command(cfg, cmd),
        uniform(cfg, s),
        state_viable(cfg, image(cfg, cmd, s)),
    ensures
        state_viable(cfg, s),
{
    let t = image(cfg, cmd, s);
    assert forall|i: int| 0 <= i < s.len() implies row_viable(cfg, #[trigger] s[i]) by {
        assert(row_viable(cfg, t[i]));
        assert forall|n: int| 1 <= n <= cfg.numbers implies #[trigger] holds_rank(cfg, s[i], n) by {
            assert(holds_rank(cfg, t[i], n));
            lemma_rank_is_not_restored(cfg, cmd, s[i], n);
        }
    }
}

/// A program keeps the width of the rows.
pub proof fn lemma_replay_uniform(cfg: Config, program: Seq<Command>, s: Seq<Seq<u8>>)
    requires
        cfg.wf(),
        program_in_bounds(cfg, program),
        uniform(cfg, s),
    ensures
        uniform(cfg, replay(cfg, program, s)),
        replay(cfg, program, s).len() == s.len(),
    decreases program.len(),
{
    if program.len() > 0 {
        lemma_replay_uniform(cfg, program.drop_last(), s);
    }
}

/// The viability filter cuts nothing that could be sorted: a joint state
/// that some program of the scalar machine sorts is viable.
pub proof fn lemma_sortable_is_viable(cfg: Config, program: Seq<Command>, s: Seq<Seq<u8>>)
    requires
        cfg.wf(),
        scalar_program(cfg, program),
        uniform(cfg, s),
        solves(cfg, program, s),
    ensures
        state_viable(cfg, s),
    decreases program.len(),
{
    if program.len() == 0 {
        lemma_goal_is_viable(cfg, s);
    } else {
        let head = program.drop_last();
        let mid = replay(cfg, head, s);
        assert(program_in_bounds(cfg, head));
        lemma_replay_uniform(cfg, head, s);
        lemma_goal_is_viable(cfg, image(cfg, program.last(), mid));
        lemma_cut_is_final(cfg, program.last(), mid);
        lemma_viable_back(cfg, head, s);
    }
}

/// If what a program of the scalar machine makes of a joint state is viable,
/// the joint state was viable.
pub proof fn lemma_viable_back(cfg: Config, program: Seq<Command>, s: Seq<Seq<u8>>)
    requires
        cfg.wf(),
        scalar_program(cfg, program),
        uniform(cfg, s),
        state_viable(cfg, replay(cfg, program, s)),
    ensures
        state_viable(cfg, s),
    decreases program.len(),
{
    if program.len() > 0 {
        let head = program.drop_last();
        assert(program_in_bounds(cfg, head));
        lemma_replay_uniform(cfg, head, s);
        lemma_cut_is_final(cfg, program.last(), replay(cfg, head, s));
        lemma_viable_back(cfg, head, s);
    }
}

/// A program makes the same rows of two joint states with the same rows.
pub proof fn lemma_replay_of_members(
    cfg: Config,
    program: Seq<Command>,
    s: Seq<Seq<u8>>,
    t: Seq<Seq<u8>>,
)
    requires
        same_members(s, t),
    ensures
        same_members(replay(cfg, program, s), replay(cfg, program, t)),
    decreases program.len(),
{
    if program.len() > 0 {
        lemma_replay_of_members(cfg, program.drop_last(), s, t);
        lemma_image_of_members(
            cfg,
            program.last(),
            replay(cfg, program.drop_last(), s),
            replay(cfg, program.drop_last(), t),
        );
    }
}

/// Running a program and then one more instruction is running the longer
/// program.
pub proof fn lemma_replay_push(cfg: Config, program: Seq<Command>, cmd: Command, s: Seq<Seq<u8>>)
    ensures
        replay(cfg, program.push(cmd), s) == image(cfg, cmd, replay(cfg, program, s)),
{
    assert(program.push(cmd).drop_last() =~= program);
}

/// Runs a program on a joint state, merging rows that become equal, and
/// hands out the joint state that results, its rows in increasing order.
pub fn run_program(cfg: &Config, program: &Vec<Command>, state: &State) -> (last: State)
    requires
        cfg.wf(),
        program_in_bounds(*cfg, program@),
        uniform(*cfg, rows(*state)),
    ensures
        is_listing_of(rows(last), replay(*cfg, program@, rows(*state))),
        uniform(*cfg, rows(last)),
{
    let mut cur: State = normalize(state);
    let mut i: usize = 0;
    assert(program@.take(0) =~= Seq::<Command>::empty());
    proof {
        lemma_listing_uniform(*cfg, rows(cur), rows(*state));
    }
    while i < program.len()
        invariant
            i <= program.len(),
            cfg.wf(),
            program_in_bounds(*cfg, program@),
            uniform(*cfg, rows(cur)),
            is_listing_of(rows(cur), replay(*cfg, program@.take(i as int), rows(*state))),
        decreases program.len() - i,
    {
        let next = apply_all(cfg, &program[i], &cur);
        proof {
            let done = program@.take(i as int);
            let more = program@.take(i as int + 1);
            let cmd = program@[i as int];
            assert(more =~= done.push(cmd));
            lemma_replay_push(*cfg, done, cmd, rows(*state));
            lemma_image_of_members(*cfg, cmd, rows(cur), replay(*cfg, done, rows(*state)));
            lemma_members_chain(
                rows(next),
                image(*cfg, cmd, rows(cur)),
                replay(*cfg, more, rows(*state)),
            );
        }
        cur = next;
        i += 1;
    }
    assert(program@.take(i as int) =~= program@);
    cur
}

/// A list with the same rows as a list of rows of the machine's width has
/// rows of that width.
pub proof fn lemma_listing_uniform(cfg: Config, t: Seq<Seq<u8>>, s: Seq<Seq<u8>>)
    requires
        same_members(t, s),
        uniform(cfg, s),
    ensures
        uniform(cfg, t),
{
    assert forall|i: int| 0 <= i < t.len() implies (#[trigger] t[i]).len() == cfg.width_spec() by {
        assert(t.contains(t[i]));
        assert(s.contains(t[i]));
        let j = choose|j: int| 0 <= j < s.len() && s[j] == t[i];
    }
}

/// Tells whether a program sorts every row of a joint state.
pub fn program_solves(cfg: &Config, program: &Vec<Command>, state: &State) -> (yes: bool)
    requires
        cfg.wf(),
        program_in_bounds(*cfg, program@),
        uniform(*cfg, rows(*state)),
    ensures
        yes == solves(*cfg, program@, rows(*state)),
{
    let last = run_program(cfg, program, state);
    proof {
        crate::viability::lemma_goal_of_members(
            *cfg,
            rows(last),
            replay(*cfg, program@, rows(*state)),
        );
    }
    is_goal(cfg, &last)
}

} // verus!
