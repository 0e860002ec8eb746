//! The table of lower bounds: for each register file of the scalar machine
//! the least number of instructions that sort it, found by a breadth-first
//! search backwards from the sorted register files, level by level, until a
//! level holds nothing. A length is kept in one byte, so the search ends
//! with the level of 255 instructions at the latest.

use itertools::Itertools;
use vstd::prelude::*;
use crate::catalog::{catalog_ok, command_ok, scalar_command, check_catalog, lemma_ok_in_bounds};
use crate::config::Config;
use crate::initial::{MAX_NUMBERS, span};
use crate::inverse::{
    apply_invers,
    apply_invers_spec,
    lemma_invers_complete,
    lemma_invers_is_preimage,
};
use crate::machine::{Command, CMP, MOV, CMOVG, CMOVL, apply, apply_spec, copy_row, valid_row, valid_rows};
use crate::order::{Permutation, RowOrder, State, rows, compare_rows};
use crate::program::{from_catalog, run_row, lemma_apply_keeps_valid};
use crate::store::MemoryStore;
use crate::viability::{row_sorted};

verus! {

/// The largest number of scratch registers for which the table is built.
pub const MAX_SWAPS: usize = 4;

/// The program is made of catalog instructions and sorts the row.
pub open spec fn sorts_row(
    cfg: Config,
    catalog: Seq<Command>,
    program: Seq<Command>,
    row: Seq<u8>,
) -> bool {
    &&& from_catalog(catalog, program)
    &&& row_sorted(cfg, run_row(cfg, program, row))
}

/// Some program of `d` catalog instructions sorts the row.
pub open spec fn reach(cfg: Config, catalog: Seq<Command>, row: Seq<u8>, d: int) -> bool {
    exists|program: Seq<Command>|
        program.len() == d && #[trigger] sorts_row(cfg, catalog, program, row)
}

/// Every entry of the table is true: its row is a register file of the
/// machine, and some program of as many instructions as the entry says sorts
/// it.
pub open spec fn table_sound(
    cfg: Config,
    catalog: Seq<Command>,
    table: Map<Seq<u8>, u8>,
    bound: int,
) -> bool {
    forall|row: Seq<u8>| #[trigger]
        table.contains_key(row) ==> {
            &&& valid_row(cfg, row)
            &&& table[row] <= bound
            &&& reach(cfg, catalog, row, table[row] as int)
        }
}

/// No entry of the table is too large, and none is missing: a register file
/// that some program of at most `depth` instructions sorts has an entry, and
/// the entry is not larger than the length of that program.
pub open spec fn table_complete(
    cfg: Config,
    catalog: Seq<Command>,
    table: Map<Seq<u8>, u8>,
    depth: int,
) -> bool {
    forall|row: Seq<u8>, program: Seq<Command>|
        valid_row(cfg, row) && #[trigger] sorts_row(cfg, catalog, program, row) && program.len()
            <= depth ==> table.contains_key(row) && table[row] <= program.len()
}

/// Running a program is running its first instruction and then the rest.
pub proof fn lemma_run_row_cons(cfg: Config, c: Command, rest: Seq<Command>, row: Seq<u8>)
    ensures
        run_row(cfg, seq![c] + rest, row) == run_row(cfg, rest, apply_spec(cfg, c, row)),
    decreases rest.len(),
{
    let whole = seq![c] + rest;
    let next = apply_spec(cfg, c, row);
    if rest.len() == 0 {
        assert(whole.drop_last() =~= Seq::<Command>::empty());
        assert(whole.last() == c);
        assert(run_row(cfg, whole.drop_last(), row) == row);
        assert(run_row(cfg, whole, row) == next);
        assert(run_row(cfg, rest, next) == next);
    } else {
        assert(whole.drop_last() =~= seq![c] + rest.drop_last());
        assert(whole.last() == rest.last());
        lemma_run_row_cons(cfg, c, rest.drop_last(), row);
        assert(run_row(cfg, whole, row) == apply_spec(
            cfg,
            rest.last(),
            run_row(cfg, whole.drop_last(), row),
        ));
        assert(run_row(cfg, rest, next) == apply_spec(
            cfg,
            rest.last(),
            run_row(cfg, rest.drop_last(), next),
        ));
    }
}

/// A row that one catalog instruction turns into a row that `d` instructions
/// sort is sorted by `d + 1` instructions.
pub proof fn lemma_reach_step(cfg: Config, catalog: Seq<Command>, c: Command, p: Seq<u8>, d: int)
    requires
        catalog.contains(c),
        reach(cfg, catalog, apply_spec(cfg, c, p), d),
    ensures
        reach(cfg, catalog, p, d + 1),
{
    let rest = choose|program: Seq<Command>|
        program.len() == d && #[trigger] sorts_row(cfg, catalog, program, apply_spec(cfg, c, p));
    let whole = seq![c] + rest;
    lemma_run_row_cons(cfg, c, rest, p);
    assert forall|i: int| 0 <= i < whole.len() implies catalog.contains(#[trigger] whole[i]) by {
        if i > 0 {
            assert(whole[i] == rest[i - 1]);
        }
    }
    assert(sorts_row(cfg, catalog, whole, p));
}

/// What is left of a program that sorts a row, after its first instruction,
/// sorts what that instruction makes of the row.
pub proof fn lemma_unroll(cfg: Config, catalog: Seq<Command>, program: Seq<Command>, row: Seq<u8>)
    requires
        program.len() > 0,
        sorts_row(cfg, catalog, program, row),
    ensures
        catalog.contains(program[0]),
        sorts_row(cfg, catalog, program.skip(1), apply_spec(cfg, program[0], row)),
{
    let c = program[0];
    let rest = program.skip(1);
    assert(program =~= seq![c] + rest);
    lemma_run_row_cons(cfg, c, rest, row);
    assert forall|i: int| 0 <= i < rest.len() implies catalog.contains(#[trigger] rest[i]) by {
        assert(rest[i] == program[i + 1]);
    }
}

/// `f` is a choice of `count` of the values, one after another.
pub open spec fn is_choice(values: Seq<u8>, count: int, f: Seq<u8>) -> bool {
    &&& f.len() == count
    &&& forall|i: int| 0 <= i < f.len() ==> values.contains(#[trigger] f[i])
}

/// `multi_cartesian_product` of `Itertools` on `count` copies of values that
/// all differ: every sequence of `count` of the values, each once.
#[verifier::external_body]
fn scratch_fillings(values: &Vec<u8>, count: usize) -> (fillings: State)
    requires
        values.len() <= MAX_NUMBERS + 1,
        count <= MAX_SWAPS,
        values@.no_duplicates(),
    ensures
        forall|i: int|
            0 <= i < fillings.len() ==> is_choice(values@, count as int, #[trigger] rows(fillings)[i]),
        forall|f: Seq<u8>| is_choice(values@, count as int, f) ==> #[trigger] rows(fillings).contains(f),
        forall|i: int, j: int|
            0 <= i < j < fillings.len() ==> #[trigger] rows(fillings)[i] != #[trigger] rows(
                fillings,
            )[j],
{
    std::iter::repeat(values.clone()).take(count).multi_cartesian_product().collect()
}

/// `f` is a choice of `swaps` values from 0 to `n`.
pub open spec fn is_filling(n: int, swaps: int, f: Seq<u8>) -> bool {
    &&& f.len() == swaps
    &&& forall|i: int| 0 <= i < f.len() ==> #[trigger] f[i] <= n
}

/// The sorted register file of the scalar machine with these scratch values
/// and flags.
pub open spec fn goal_row(cfg: Config, filling: Seq<u8>, lt: u8, gt: u8) -> Seq<u8> {
    Seq::new(
        cfg.width_spec() as nat,
        |i: int|
            if i < cfg.numbers {
                (i + 1) as u8
            } else if i < cfg.regs_spec() {
                filling[i - cfg.numbers]
            } else if i == cfg.regs_spec() {
                lt
            } else {
                gt
            },
    )
}

/// Builds the sorted register file with these scratch values and flags.
fn build_goal(cfg: &Config, filling: &Permutation, lt: u8, gt: u8) -> (row: Permutation)
    requires
        cfg.wf(),
        cfg.lanes == 0,
        filling@.len() == cfg.swaps,
    ensures
        row@ == goal_row(*cfg, filling@, lt, gt),
{
    let width: usize = cfg.width();
    let regs: usize = cfg.regs();
    let mut row: Permutation = Vec::new();
    let mut i: usize = 0;
    while i < width
        invariant
            i <= width,
            cfg.wf(),
            cfg.lanes == 0,
            width == cfg.width_spec(),
            regs == cfg.regs_spec(),
            filling@.len() == cfg.swaps,
            row.len() == i,
            forall|k: int| 0 <= k < i ==> row@[k] == goal_row(*cfg, filling@, lt, gt)[k],
        decreases width - i,
    {
        let v: u8 = if i < cfg.numbers {
            (i + 1) as u8
        } else if i < regs {
            filling[i - cfg.numbers]
        } else if i == regs {
            lt
        } else {
            gt
        };
        row.push(v);
        i += 1;
    }
    assert(row@ =~= goal_row(*cfg, filling@, lt, gt));
    row
}

/// Every sorted register file of the scalar machine: the ranks in order in
/// the first registers, anything in the scratch registers and the flags.
fn goal_rows(cfg: &Config) -> (goals: State)
    requires
        cfg.wf(),
        cfg.lanes == 0,
        cfg.numbers <= MAX_NUMBERS,
        cfg.swaps <= MAX_SWAPS,
    ensures
        forall|i: int|
            0 <= i < goals.len() ==> valid_row(*cfg, #[trigger] rows(goals)[i]) && row_sorted(
                *cfg,
                rows(goals)[i],
            ),
        forall|r: Seq<u8>|
            valid_row(*cfg, r) && row_sorted(*cfg, r) ==> #[trigger] rows(goals).contains(r),
{
    let values = span(0, cfg.numbers as u8);
    let fillings = scratch_fillings(&values, cfg.swaps);
    proof {
        let n = cfg.numbers as int;
        let k = cfg.swaps as int;
        assert forall|f: Seq<u8>| is_choice(values@, k, f) <==> is_filling(n, k, f) by {
            if is_choice(values@, k, f) {
                assert forall|i: int| 0 <= i < f.len() implies #[trigger] f[i] <= n by {
                    assert(values@.contains(f[i]));
                    let j = choose|j: int| 0 <= j < values@.len() && values@[j] == f[i];
                }
            }
            if is_filling(n, k, f) {
                assert forall|i: int| 0 <= i < f.len() implies values@.contains(#[trigger] f[i]) by {
                    assert(values@[f[i] as int] == f[i]);
                }
            }
        }
        assert forall|i: int| 0 <= i < fillings.len() implies is_filling(
            n,
            k,
            #[trigger] rows(fillings)[i],
        ) by {
            assert(is_choice(values@, k, rows(fillings)[i]));
        }
        assert forall|f: Seq<u8>| is_filling(n, k, f) implies #[trigger] rows(fillings).contains(
            f,
        ) by {
            assert(is_choice(values@, k, f));
        }
    }
    let mut goals: State = Vec::new();
    let mut i: usize = 0;
    while i < fillings.len()
        invariant
            i <= fillings.len(),
            cfg.wf(),
            cfg.lanes == 0,
            forall|k: int|
                0 <= k < fillings.len() ==> is_filling(
                    cfg.numbers as int,
                    cfg.swaps as int,
                    #[trigger] rows(fillings)[k],
                ),
            forall|k: int|
                0 <= k < goals.len() ==> valid_row(*cfg, #[trigger] rows(goals)[k]) && row_sorted(
                    *cfg,
                    rows(goals)[k],
                ),
            forall|k: int, lt: u8, gt: u8|
                0 <= k < i && lt <= 1 && gt <= 1 ==> rows(goals).contains(
                    #[trigger] goal_row(*cfg, rows(fillings)[k], lt, gt),
                ),
        decreases fillings.len() - i,
    {
        let filling = &fillings[i];
        assert(filling@ == rows(fillings)[i as int]);
        assert(is_filling(cfg.numbers as int, cfg.swaps as int, filling@));
        let ghost before = rows(goals);
        goals.push(build_goal(cfg, filling, 0, 0));
        goals.push(build_goal(cfg, filling, 0, 1));
        goals.push(build_goal(cfg, filling, 1, 0));
        goals.push(build_goal(cfg, filling, 1, 1));
        proof {
            let after = rows(goals);
            let n0 = before.len() as int;
            assert(after.len() == n0 + 4);
            assert(forall|k: int| 0 <= k < n0 ==> after[k] == before[k]);
            assert(after[n0] == goal_row(*cfg, filling@, 0, 0));
            assert(after[n0 + 1] == goal_row(*cfg, filling@, 0, 1));
            assert(after[n0 + 2] == goal_row(*cfg, filling@, 1, 0));
            assert(after[n0 + 3] == goal_row(*cfg, filling@, 1, 1));
            assert forall|k: int| 0 <= k < after.len() implies valid_row(
                *cfg,
                #[trigger] after[k],
            ) && row_sorted(*cfg, after[k]) by {
                if k < n0 {
                    assert(after[k] == before[k]);
                }
            }
            assert forall|k: int, lt: u8, gt: u8| 0 <= k < i + 1 && lt <= 1 && gt <= 1 implies after.contains(
                #[trigger] goal_row(*cfg, rows(fillings)[k], lt, gt),
            ) by {
                let g = goal_row(*cfg, rows(fillings)[k], lt, gt);
                if k < i {
                    assert(before.contains(g));
                    let j = choose|j: int| 0 <= j < before.len() && before[j] == g;
                    assert(after[j] == g);
                } else {
                    let off = lt * 2 + gt;
                    assert(after[n0 + off] == g);
                }
            }
        }
        i += 1;
    }
    proof {
        assert forall|r: Seq<u8>| valid_row(*cfg, r) && row_sorted(*cfg, r) implies #[trigger] rows(
            goals,
        ).contains(r) by {
            let f = r.subrange(cfg.numbers as int, cfg.regs_spec());
            assert(is_filling(cfg.numbers as int, cfg.swaps as int, f)) by {
                assert forall|i: int| 0 <= i < f.len() implies #[trigger] f[i] <= cfg.numbers by {
                    assert(r[i + cfg.numbers] <= cfg.numbers);
                }
            }
            assert(rows(fillings).contains(f));
            let k = choose|k: int| 0 <= k < rows(fillings).len() && rows(fillings)[k] == f;
            let lt = r[cfg.regs_spec()];
            let gt = r[cfg.regs_spec() + 1];
            assert(r =~= goal_row(*cfg, f, lt, gt));
        }
    }
    goals
}

/// The table `b` holds all that `a` holds, and what it holds more has the
/// length `d`.
pub open spec fn grows(a: Map<Seq<u8>, u8>, b: Map<Seq<u8>, u8>, d: int) -> bool {
    &&& forall|row: Seq<u8>| #[trigger] a.contains_key(row) ==> b.contains_key(row) && b[row] == a[row]
    &&& forall|row: Seq<u8>| #[trigger] b.contains_key(row) && !a.contains_key(row) ==> b[row] == d
}

/// `level` lists the rows whose entry is `d`.
pub open spec fn lists_level(table: Map<Seq<u8>, u8>, level: Seq<Seq<u8>>, d: int) -> bool {
    &&& forall|i: int|
        0 <= i < level.len() ==> table.contains_key(#[trigger] level[i]) && table[level[i]] == d
    &&& forall|row: Seq<u8>|
        #[trigger] table.contains_key(row) && table[row] == d ==> level.contains(row)
}

/// Every register file that the instruction turns into `r` has an entry.
pub open spec fn covered(cfg: Config, table: Map<Seq<u8>, u8>, cmd: Command, r: Seq<u8>) -> bool {
    forall|p: Seq<u8>|
        valid_row(cfg, p) && #[trigger] apply_spec(cfg, cmd, p) == r ==> table.contains_key(p)
}

/// The register files that running backwards hands out for a register file
/// of the machine are register files of the machine.
pub proof fn lemma_origins_valid(cfg: Config, cmd: Command, perm: Seq<u8>)
    requires
        cfg.wf(),
        scalar_command(cfg, cmd),
        valid_row(cfg, perm),
    ensures
        valid_rows(cfg, apply_invers_spec(cfg, cmd, perm)),
{
    let origins = apply_invers_spec(cfg, cmd, perm);
    assert forall|i: int| 0 <= i < origins.len() implies valid_row(cfg, #[trigger] origins[i]) by {
        let o = origins[i];
        assert forall|j: int| 0 <= j < o.len() implies #[trigger] o[j] <= cfg.numbers by {
            assert(perm[j] <= cfg.numbers);
        }
    }
}

/// Takes one register file of the current level back through one
/// instruction: every register file that the instruction turns into it, and
/// that has no entry yet, gets the next length and joins the next level.
fn relax(
    cfg: &Config,
    Ghost(catalog): Ghost<Seq<Command>>,
    cmd: &Command,
    r: &Permutation,
    k: u8,
    table: &mut MemoryStore,
    next: &mut State,
)
    requires
        cfg.wf(),
        cfg.lanes == 0,
        catalog.contains(*cmd),
        command_ok(*cfg, *cmd),
        valid_row(*cfg, r@),
        reach(*cfg, catalog, r@, k as int),
        k < 255,
        table_sound(*cfg, catalog, old(table)@, k + 1),
        lists_level(old(table)@, rows(*old(next)), k + 1),
    ensures
        table_sound(*cfg, catalog, final(table)@, k + 1),
        lists_level(final(table)@, rows(*final(next)), k + 1),
        grows(old(table)@, final(table)@, k + 1),
        covered(*cfg, final(table)@, *cmd, r@),
{
    let origins = apply_invers(cfg, cmd, r);
    proof {
        lemma_origins_valid(*cfg, *cmd, r@);
    }
    let mut i: usize = 0;
    while i < origins.len()
        invariant
            i <= origins.len(),
            cfg.wf(),
            cfg.lanes == 0,
            catalog.contains(*cmd),
            command_ok(*cfg, *cmd),
            valid_row(*cfg, r@),
            reach(*cfg, catalog, r@, k as int),
            k < 255,
            valid_rows(*cfg, rows(origins)),
            rows(origins) == apply_invers_spec(*cfg, *cmd, r@),
            table_sound(*cfg, catalog, table@, k + 1),
            lists_level(table@, rows(*next), k + 1),
            grows(old(table)@, table@, k + 1),
            forall|j: int|
                0 <= j < i && apply_spec(*cfg, *cmd, #[trigger] rows(origins)[j]) == r@
                    ==> table@.contains_key(rows(origins)[j]),
        decreases origins.len() - i,
    {
        let p = &origins[i];
        assert(p@ == rows(origins)[i as int]);
        assert(valid_row(*cfg, p@));
        let mut q = copy_row(p);
        proof {
            lemma_ok_in_bounds(*cfg, *cmd);
        }
        apply(cfg, cmd, &mut q);
        if compare_rows(&q, r) == RowOrder::Equal {
            if table.get(p).is_none() {
                let ghost before = table@;
                let ghost listed = rows(*next);
                table.insert(copy_row(p), k + 1);
                next.push(copy_row(p));
                proof {
                    lemma_reach_step(*cfg, catalog, *cmd, p@, k as int);
                    let after = table@;
                    let more = rows(*next);
                    assert(more =~= listed.push(p@));
                    assert forall|row: Seq<u8>|
                        #[trigger] after.contains_key(row) && after[row] == k + 1 implies more.contains(
                        row,
                    ) by {
                        if row == p@ {
                            assert(more[listed.len() as int] == row);
                        } else {
                            assert(before.contains_key(row));
                            assert(listed.contains(row));
                            let j = choose|j: int| 0 <= j < listed.len() && listed[j] == row;
                            assert(more[j] == row);
                        }
                    }
                    assert forall|j: int| 0 <= j < more.len() implies after.contains_key(
                        #[trigger] more[j],
                    ) && after[more[j]] == k + 1 by {
                        if j < listed.len() {
                            assert(more[j] == listed[j]);
                            assert(before.contains_key(listed[j]));
                        }
                    }
                }
            }
        }
        i += 1;
    }
    proof {
        assert forall|p: Seq<u8>|
            valid_row(*cfg, p) && #[trigger] apply_spec(*cfg, *cmd, p) == r@ implies table@.contains_key(
            p,
        ) by {
            lemma_invers_complete(*cfg, *cmd, r@, p);
            let j = choose|j: int| 0 <= j < rows(origins).len() && rows(origins)[j] == p;
            assert(apply_spec(*cfg, *cmd, rows(origins)[j]) == r@);
        }
    }
}

/// Takes one register file of the current level back through every
/// instruction of the catalog.
fn expand_row(
    cfg: &Config,
    catalog: &Vec<Command>,
    r: &Permutation,
    k: u8,
    table: &mut MemoryStore,
    next: &mut State,
)
    requires
        cfg.wf(),
        cfg.lanes == 0,
        catalog_ok(*cfg, catalog@),
        valid_row(*cfg, r@),
        reach(*cfg, catalog@, r@, k as int),
        k < 255,
        table_sound(*cfg, catalog@, old(table)@, k + 1),
        lists_level(old(table)@, rows(*old(next)), k + 1),
    ensures
        table_sound(*cfg, catalog@, final(table)@, k + 1),
        lists_level(final(table)@, rows(*final(next)), k + 1),
        grows(old(table)@, final(table)@, k + 1),
        forall|c: int| 0 <= c < catalog.len() ==> covered(*cfg, final(table)@, #[trigger] catalog@[c], r@),
{
    let mut ci: usize = 0;
    while ci < catalog.len()
        invariant
            ci <= catalog.len(),
            cfg.wf(),
            cfg.lanes == 0,
            catalog_ok(*cfg, catalog@),
            valid_row(*cfg, r@),
            reach(*cfg, catalog@, r@, k as int),
            k < 255,
            table_sound(*cfg, catalog@, table@, k + 1),
            lists_level(table@, rows(*next), k + 1),
            grows(old(table)@, table@, k + 1),
            forall|c: int| 0 <= c < ci ==> covered(*cfg, table@, #[trigger] catalog@[c], r@),
        decreases catalog.len() - ci,
    {
        let ghost before = table@;
        assert(catalog@.contains(catalog@[ci as int]));
        relax(cfg, Ghost(catalog@), &catalog[ci], r, k, table, next);
        proof {
            let after = table@;
            assert forall|c: int| 0 <= c < ci + 1 implies covered(
                *cfg,
                after,
                #[trigger] catalog@[c],
                r@,
            ) by {
                if c < ci {
                    assert(covered(*cfg, before, catalog@[c], r@));
                    assert forall|p: Seq<u8>|
                        valid_row(*cfg, p) && #[trigger] apply_spec(*cfg, catalog@[c], p)
                            == r@ implies after.contains_key(p) by {
                        assert(before.contains_key(p));
                    }
                }
            }
        }
        ci += 1;
    }
}

/// Builds the next level of the table: takes every register file of the
/// current level back through every instruction.
fn next_level(cfg: &Config, catalog: &Vec<Command>, level: &State, k: u8, table: &mut MemoryStore) -> (next:
    State)
    requires
        cfg.wf(),
        cfg.lanes == 0,
        catalog_ok(*cfg, catalog@),
        k < 255,
        table_sound(*cfg, catalog@, old(table)@, k as int),
        lists_level(old(table)@, rows(*level), k as int),
    ensures
        table_sound(*cfg, catalog@, final(table)@, k + 1),
        lists_level(final(table)@, rows(next), k + 1),
        grows(old(table)@, final(table)@, k + 1),
        forall|f: int, c: int|
            0 <= f < level.len() && 0 <= c < catalog.len() ==> covered(
                *cfg,
                final(table)@,
                #[trigger] catalog@[c],
                #[trigger] rows(*level)[f],
            ),
{
    let mut next: State = Vec::new();
    let mut fi: usize = 0;
    while fi < level.len()
        invariant
            fi <= level.len(),
            cfg.wf(),
            cfg.lanes == 0,
            catalog_ok(*cfg, catalog@),
            k < 255,
            table_sound(*cfg, catalog@, old(table)@, k as int),
            lists_level(old(table)@, rows(*level), k as int),
            table_sound(*cfg, catalog@, table@, k + 1),
            lists_level(table@, rows(next), k + 1),
            grows(old(table)@, table@, k + 1),
            forall|f: int, c: int|
                0 <= f < fi && 0 <= c < catalog.len() ==> covered(
                    *cfg,
                    table@,
                    #[trigger] catalog@[c],
                    #[trigger] rows(*level)[f],
                ),
        decreases level.len() - fi,
    {
        let r = &level[fi];
        let ghost before = table@;
        proof {
            assert(r@ == rows(*level)[fi as int]);
            assert(old(table)@.contains_key(r@));
            assert(before.contains_key(r@) && before[r@] == k);
        }
        expand_row(cfg, catalog, r, k, table, &mut next);
        proof {
            let after = table@;
            assert(grows(old(table)@, after, k + 1)) by {
                assert forall|row: Seq<u8>| #[trigger] old(table)@.contains_key(row) implies after.contains_key(
                    row,
                ) && after[row] == old(table)@[row] by {
                    assert(before.contains_key(row));
                }
                assert forall|row: Seq<u8>|
                    #[trigger] after.contains_key(row) && !old(table)@.contains_key(row) implies after[row]
                    == k + 1 by {
                    if before.contains_key(row) {
                        assert(after[row] == before[row]);
                    }
                }
            }
            assert forall|f: int, c: int| 0 <= f < fi + 1 && 0 <= c < catalog.len() implies covered(
                *cfg,
                after,
                #[trigger] catalog@[c],
                #[trigger] rows(*level)[f],
            ) by {
                if f < fi {
                    assert(covered(*cfg, before, catalog@[c], rows(*level)[f]));
                    assert forall|p: Seq<u8>|
                        valid_row(*cfg, p) && #[trigger] apply_spec(*cfg, catalog@[c], p) == rows(
                            *level,
                        )[f] implies after.contains_key(p) by {
                        assert(before.contains_key(p));
                    }
                }
            }
        }
        fi += 1;
    }
    next
}

/// Once a level is built the table is complete one instruction further.
pub proof fn lemma_level_complete(
    cfg: Config,
    catalog: Seq<Command>,
    t0: Map<Seq<u8>, u8>,
    t1: Map<Seq<u8>, u8>,
    level: Seq<Seq<u8>>,
    k: int,
)
    requires
        cfg.wf(),
        cfg.lanes == 0,
        catalog_ok(cfg, catalog),
        0 <= k,
        table_sound(cfg, catalog, t0, k),
        table_complete(cfg, catalog, t0, k),
        lists_level(t0, level, k),
        table_sound(cfg, catalog, t1, k + 1),
        grows(t0, t1, k + 1),
        forall|f: int, c: int|
            0 <= f < level.len() && 0 <= c < catalog.len() ==> covered(
                cfg,
                t1,
                #[trigger] catalog[c],
                #[trigger] level[f],
            ),
    ensures
        table_complete(cfg, catalog, t1, k + 1),
{
    assert forall|row: Seq<u8>, program: Seq<Command>|
        valid_row(cfg, row) && #[trigger] sorts_row(cfg, catalog, program, row) && program.len() <= k
            + 1 implies t1.contains_key(row) && t1[row] <= program.len() by {
        if program.len() <= k {
            assert(t0.contains_key(row) && t0[row] <= program.len());
        } else {
            lemma_unroll(cfg, catalog, program, row);
            let c = program[0];
            let rest = program.skip(1);
            let r = apply_spec(cfg, c, row);
            let ci = choose|ci: int| 0 <= ci < catalog.len() && catalog[ci] == c;
            lemma_apply_keeps_valid(cfg, c, row);
            assert(sorts_row(cfg, catalog, rest, r));
            assert(t0.contains_key(r) && t0[r] <= k);
            if t0[r] == k {
                assert(level.contains(r));
                let fi = choose|fi: int| 0 <= fi < level.len() && level[fi] == r;
                assert(covered(cfg, t1, catalog[ci], level[fi]));
                assert(t1.contains_key(row));
            } else {
                let j = t0[r] as int;
                lemma_reach_step(cfg, catalog, c, row, j);
                let shorter = choose|shorter: Seq<Command>|
                    shorter.len() == j + 1 && #[trigger] sorts_row(cfg, catalog, shorter, row);
                assert(t0.contains_key(row) && t0[row] <= shorter.len());
                assert(t1.contains_key(row));
            }
        }
    }
}

/// The longest program whose length the table can hold.
pub const MAX_LENGTH: u8 = 255;

/// No entry of the table has the largest length that it can hold: the
/// search backwards came to an end by itself.
pub open spec fn table_finished(table: Map<Seq<u8>, u8>) -> bool {
    forall|row: Seq<u8>| #[trigger] table.contains_key(row) ==> table[row] < MAX_LENGTH
}

/// A table whose last level holds nothing is complete for programs of every
/// length: a register file that is sorted by a longer program than the table
/// has entries for would have one on its way with an entry of the last
/// level.
pub proof fn lemma_table_done(
    cfg: Config,
    catalog: Seq<Command>,
    table: Map<Seq<u8>, u8>,
    k: int,
    depth: int,
)
    requires
        cfg.wf(),
        cfg.lanes == 0,
        catalog_ok(cfg, catalog),
        0 <= k,
        table_sound(cfg, catalog, table, k),
        table_complete(cfg, catalog, table, k),
        forall|row: Seq<u8>| #[trigger] table.contains_key(row) ==> table[row] != k,
    ensures
        table_complete(cfg, catalog, table, depth),
    decreases depth - k,
{
    if depth > k {
        let none = Seq::<Seq<u8>>::empty();
        lemma_level_complete(cfg, catalog, table, table, none, k);
        lemma_table_done(cfg, catalog, table, k + 1, depth);
    }
}

/// The table is closed under running an instruction backwards: a register
/// file that a comparison, or a move between two different registers, turns
/// into a row of the table is in the table itself, with a length that is at
/// most one more. This holds of the rows whose length is not the largest
/// that the table can hold.
pub proof fn lemma_table_closed(
    cfg: Config,
    catalog: Seq<Command>,
    table: Map<Seq<u8>, u8>,
    cmd: Command,
    row: Seq<u8>,
    p: Seq<u8>,
)
    requires
        cfg.wf(),
        cfg.lanes == 0,
        catalog_ok(cfg, catalog),
        catalog.contains(cmd),
        cmd.0 == CMP || cmd.1 != cmd.2,
        table_sound(cfg, catalog, table, MAX_LENGTH as int),
        table_complete(cfg, catalog, table, MAX_LENGTH as int),
        table.contains_key(row),
        table[row] < MAX_LENGTH,
        valid_row(cfg, p),
        apply_invers_spec(cfg, cmd, row).contains(p),
    ensures
        table.contains_key(p),
        table[p] <= table[row] + 1,
{
    let i = choose|i: int| 0 <= i < catalog.len() && catalog[i] == cmd;
    assert(command_ok(cfg, catalog[i]));
    lemma_invers_is_preimage(cfg, cmd, row, p);
    lemma_reach_step(cfg, catalog, cmd, p, table[row] as int);
    let program = choose|program: Seq<Command>|
        program.len() == table[row] + 1 && #[trigger] sorts_row(cfg, catalog, program, p);
    assert(sorts_row(cfg, catalog, program, p));
}

/// Builds the table of lower bounds of a scalar machine: for every register
/// file that some program of catalog instructions sorts, the length of the
/// shortest such program. The table is built level by level until a level
/// holds nothing; it does not depend on the longest program allowed.
/// Register files that no program sorts have no entry, nor have those that
/// take more than 255 instructions. Machines with lanes, catalogs that do not
/// fit, and machines with more values than `MAX_NUMBERS` or more scratch
/// registers than `MAX_SWAPS` get no table.
pub fn min_instructions(cfg: &Config, catalog: &Vec<Command>) -> (res: Option<MemoryStore>)
    ensures
        res.is_some() <==> (cfg.wf() && cfg.lanes == 0 && cfg.numbers <= MAX_NUMBERS && cfg.swaps
            <= MAX_SWAPS && catalog_ok(*cfg, catalog@)),
        match res {
            Some(table) => {
                &&& table_sound(*cfg, catalog@, table@, MAX_LENGTH as int)
                &&& table_complete(*cfg, catalog@, table@, MAX_LENGTH as int)
                &&& table_finished(table@) ==> forall|depth: int|
                    table_complete(*cfg, catalog@, table@, depth)
            },
            None => true,
        },
{
    if !cfg.is_wf() || cfg.lanes != 0 || cfg.numbers > MAX_NUMBERS || cfg.swaps > MAX_SWAPS {
        return None;
    }
    if check_catalog(cfg, catalog).is_err() {
        return None;
    }
    let goals = goal_rows(cfg);
    let mut table = MemoryStore::new();
    let mut level: State = Vec::new();
    let mut i: usize = 0;
    while i < goals.len()
        invariant
            i <= goals.len(),
            cfg.wf(),
            forall|j: int|
                0 <= j < goals.len() ==> valid_row(*cfg, #[trigger] rows(goals)[j]) && row_sorted(
                    *cfg,
                    rows(goals)[j],
                ),
            level.len() == i,
            forall|j: int| 0 <= j < i ==> rows(level)[j] == rows(goals)[j],
            forall|row: Seq<u8>|
                #[trigger] table@.contains_key(row) ==> table@[row] == 0 && rows(goals).contains(row),
            forall|j: int| 0 <= j < i ==> table@.contains_key(#[trigger] rows(goals)[j]),
        decreases goals.len() - i,
    {
        let ghost before = table@;
        assert(rows(goals)[i as int] == goals@[i as int]@);
        table.insert(copy_row(&goals[i]), 0);
        level.push(copy_row(&goals[i]));
        proof {
            assert forall|row: Seq<u8>| #[trigger] table@.contains_key(row) implies table@[row] == 0
                && rows(goals).contains(row) by {
                if row == rows(goals)[i as int] {
                } else {
                    assert(before.contains_key(row));
                }
            }
            assert forall|j: int| 0 <= j < i + 1 implies table@.contains_key(
                #[trigger] rows(goals)[j],
            ) by {
                if j < i {
                    assert(before.contains_key(rows(goals)[j]));
                }
            }
        }
        i += 1;
    }
    proof {
        assert(rows(level) =~= rows(goals));
        assert forall|row: Seq<u8>| #[trigger] table@.contains_key(row) implies valid_row(*cfg, row)
            && table@[row] <= 0 && reach(*cfg, catalog@, row, table@[row] as int) by {
            let j = choose|j: int| 0 <= j < rows(goals).len() && rows(goals)[j] == row;
            let empty = Seq::<Command>::empty();
            assert(sorts_row(*cfg, catalog@, empty, row));
        }
        assert forall|row: Seq<u8>, program: Seq<Command>|
            valid_row(*cfg, row) && #[trigger] sorts_row(*cfg, catalog@, program, row)
                && program.len() <= 0 implies table@.contains_key(row) && table@[row]
            <= program.len() by {
            assert(run_row(*cfg, program, row) == row);
            assert(rows(goals).contains(row));
            let j = choose|j: int| 0 <= j < rows(goals).len() && rows(goals)[j] == row;
        }
        assert forall|row: Seq<u8>| #[trigger] table@.contains_key(row) && table@[row] == 0 implies rows(
            level,
        ).contains(row) by {}
    }
    let mut k: u8 = 0;
    while k < MAX_LENGTH && level.len() > 0
        invariant
            cfg.wf(),
            cfg.lanes == 0,
            catalog_ok(*cfg, catalog@),
            table_sound(*cfg, catalog@, table@, k as int),
            table_complete(*cfg, catalog@, table@, k as int),
            lists_level(table@, rows(level), k as int),
        decreases MAX_LENGTH - k,
    {
        let ghost before = table@;
        let next = next_level(cfg, catalog, &level, k, &mut table);
        proof {
            lemma_level_complete(*cfg, catalog@, before, table@, rows(level), k as int);
        }
        level = next;
        k += 1;
    }
    proof {
        if level.len() == 0 {
            // the last level holds nothing: no longer program finds more
            assert forall|row: Seq<u8>| #[trigger] table@.contains_key(row) implies table@[row]
                != k by {
                if table@[row] == k {
                    assert(rows(level).contains(row));
                }
            }
            assert forall|depth: int| table_complete(*cfg, catalog@, table@, depth) by {
                lemma_table_done(*cfg, catalog@, table@, k as int, depth);
            }
        } else {
            assert(table@.contains_key(rows(level)[0]));
            assert(!table_finished(table@));
        }
    }
    Some(table)
}

/// The hard cutoff cuts nothing that could be sorted in time: where some row
/// of a joint state is over the budget after `length` instructions, no
/// program of catalog instructions that keeps the whole within the longest
/// length allowed sorts the joint state.
pub proof fn lemma_over_budget_is_final(
    cfg: Config,
    catalog: Seq<Command>,
    table: Map<Seq<u8>, u8>,
    s: Seq<Seq<u8>>,
    length: u8,
    program: Seq<Command>,
)
    requires
        table_complete(cfg, catalog, table, cfg.max_len as int),
        valid_rows(cfg, s),
        crate::heuristic::state_over_budget(table, s, length, cfg.max_len),
        from_catalog(catalog, program),
        length + program.len() <= cfg.max_len,
    ensures
        !crate::program::solves(cfg, program, s),
{
    let i = choose|i: int|
        0 <= i < s.len() && crate::heuristic::row_over_budget(
            table,
            #[trigger] s[i],
            length,
            cfg.max_len,
        );
    if crate::program::solves(cfg, program, s) {
        crate::program::lemma_replay_pointwise(cfg, program, s);
        assert(row_sorted(cfg, crate::program::replay(cfg, program, s)[i]));
        assert(sorts_row(cfg, catalog, program, s[i]));
        assert(table.contains_key(s[i]) && table[s[i]] <= program.len());
    }
}

} // verus!
