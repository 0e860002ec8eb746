//! The search by chance: programs of the longest length allowed are drawn at
//! random from the catalog, with the `rand` crate, and tried one after
//! another.

use rand::seq::SliceRandom;
use vstd::prelude::*;
use crate::catalog::{catalog_ok, lemma_ok_in_bounds};
use crate::config::Config;
use crate::machine::{Command, in_bounds, uniform};
use crate::order::{State, rows};
use crate::program::{from_catalog, program_solves, solves};

verus! {

/// `SliceRandom::choose` with the thread's generator: some instruction of
/// the catalog, whichever chance picks; none from an empty catalog.
#[verifier::external_body]
fn choose_command(catalog: &Vec<Command>) -> (picked: Option<Command>)
    ensures
        match picked {
            Some(cmd) => catalog@.contains(cmd),
            None => catalog.len() == 0,
        },
{
    catalog.choose(&mut rand::thread_rng()).copied()
}

/// Draws a program of the given length from the catalog at random.
pub fn random_program(catalog: &Vec<Command>, length: u8) -> (program: Vec<Command>)
    requires
        catalog.len() > 0,
    ensures
        program.len() == length,
        from_catalog(catalog@, program@),
{
    let mut program: Vec<Command> = Vec::new();
    while program.len() < length as usize
        invariant
            catalog.len() > 0,
            program.len() <= length,
            from_catalog(catalog@, program@),
        decreases length - program.len(),
    {
        let ghost before = program@;
        match choose_command(catalog) {
            Some(cmd) => {
                program.push(cmd);
                proof {
                    assert forall|i: int| 0 <= i < program.len() implies catalog@.contains(
                        #[trigger] program@[i],
                    ) by {
                        if i < before.len() {
                            assert(program@[i] == before[i]);
                        }
                    }
                }
            },
            // Only an empty catalog has nothing to draw from.
            None => {},
        }
    }
    program
}

/// Every program of the longest length allowed that is made of catalog
/// instructions sorts every row of the joint state.
pub open spec fn all_sort(cfg: Config, catalog: Seq<Command>, initial: Seq<Seq<u8>>) -> bool {
    forall|q: Seq<Command>|
        from_catalog(catalog, q) && q.len() == cfg.max_len ==> #[trigger] solves(cfg, q, initial)
}

/// No program of the longest length allowed that is made of catalog
/// instructions sorts every row of the joint state.
pub open spec fn none_sorts(cfg: Config, catalog: Seq<Command>, initial: Seq<Seq<u8>>) -> bool {
    forall|q: Seq<Command>|
        from_catalog(catalog, q) && q.len() == cfg.max_len ==> !#[trigger] solves(cfg, q, initial)
}

/// Tries up to `tries` programs of the longest length allowed, drawn at
/// random from the catalog, on the joint state, and hands out the first one
/// that sorts every row of it. Nothing is tried with an empty catalog.
///
/// Chance decides which programs are tried, and so whether one is found,
/// unless all of them sort or none does: where every program sorts, the first
/// try finds one; where none sorts, none is found.
pub fn random_search(cfg: &Config, catalog: &Vec<Command>, initial: &State, tries: u64) -> (found:
    Option<Vec<Command>>)
    requires
        cfg.wf(),
        catalog_ok(*cfg, catalog@),
        uniform(*cfg, rows(*initial)),
    ensures
        match found {
            Some(program) => {
                &&& solves(*cfg, program@, rows(*initial))
                &&& program@.len() == cfg.max_len
                &&& from_catalog(catalog@, program@)
            },
            None => true,
        },
        found is Some ==> tries > 0 && catalog.len() > 0,
        tries > 0 && catalog.len() > 0 && all_sort(*cfg, catalog@, rows(*initial)) ==> found is Some,
        none_sorts(*cfg, catalog@, rows(*initial)) ==> found is None,
{
    if catalog.len() == 0 {
        return None;
    }
    let mut left: u64 = tries;
    while left > 0
        invariant
            cfg.wf(),
            catalog_ok(*cfg, catalog@),
            catalog.len() > 0,
            uniform(*cfg, rows(*initial)),
            left <= tries,
            all_sort(*cfg, catalog@, rows(*initial)) ==> left == tries,
        decreases left,
    {
        let program = random_program(catalog, cfg.max_len);
        proof {
            assert forall|i: int| 0 <= i < program.len() implies in_bounds(
                *cfg,
                #[trigger] program@[i],
            ) by {
                assert(catalog@.contains(program@[i]));
                let j = choose|j: int| 0 <= j < catalog.len() && catalog@[j] == program@[i];
                lemma_ok_in_bounds(*cfg, catalog@[j]);
            }
        }
        if program_solves(cfg, &program, initial) {
            return Some(program);
        }
        // a program that does not sort was drawn: not every program sorts
        assert(!all_sort(*cfg, catalog@, rows(*initial)));
        left -= 1;
    }
    None
}

} // verus!
