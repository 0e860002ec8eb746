//! The problem configuration, fixed for one run.

use vstd::prelude::*;

verus! {

/// The size of the machine and the longest program that is looked for.
#[derive(Clone, Copy, Debug, PartialEq, Eq, Structural)]
pub struct Config {
    /// How many distinct values are sorted.
    pub numbers: usize,
    /// How many scratch registers the machine has beside the value registers.
    pub swaps: usize,
    /// How many vector lanes the machine has; zero for the scalar machine.
    pub lanes: usize,
    /// The longest program that the search may emit.
    pub max_len: u8,
}

impl Config {
    /// The sizes fit the machine's integers, a rank fits a byte, and the
    /// lanes, where there are any, can hold all values.
    pub open spec fn wf(&self) -> bool {
        &&& 1 <= self.numbers <= 255
        &&& self.numbers + self.swaps + 2 + self.lanes <= usize::MAX
        &&& self.lanes == 0 || self.lanes >= self.numbers
    }

    /// The number of general registers, as a mathematical integer.
    pub open spec fn regs_spec(&self) -> int {
        self.numbers + self.swaps
    }

    /// The number of slots in one register file: registers, two flags, lanes.
    pub open spec fn width_spec(&self) -> int {
        self.numbers + self.swaps + 2 + self.lanes
    }

    /// The index of the first vector lane.
    pub open spec fn lane_base_spec(&self) -> int {
        self.numbers + self.swaps + 2
    }

    /// Builds the configuration of the scalar machine.
    pub fn new(numbers: usize, swaps: usize, max_len: u8) -> (cfg: Config)
        ensures
            cfg == (Config { numbers, swaps, lanes: 0, max_len }),
    {
        Config { numbers, swaps, lanes: 0, max_len }
    }

    /// Builds the configuration of the machine with as many vector lanes as
    /// it has general registers.
    pub fn with_lanes(numbers: usize, swaps: usize, max_len: u8) -> (cfg: Option<Config>)
        ensures
            numbers + swaps <= usize::MAX ==> cfg == Some(
                Config { numbers, swaps, lanes: (numbers + swaps) as usize, max_len },
            ),
            numbers + swaps > usize::MAX ==> cfg.is_none(),
    {
        match numbers.checked_add(swaps) {
            Some(lanes) => Some(Config { numbers, swaps, lanes, max_len }),
            None => None,
        }
    }

    /// Tells whether the sizes are usable: at least one value, a rank fits a
    /// byte, a register file can be indexed, and the lanes, where there are
    /// any, can hold all values.
    pub fn is_wf(&self) -> (ok: bool)
        ensures
            ok == self.wf(),
    {
        if self.numbers < 1 || self.numbers > 255 {
            return false;
        }
        if self.lanes != 0 && self.lanes < self.numbers {
            return false;
        }
        match self.numbers.checked_add(self.swaps) {
            None => false,
            Some(r) => match r.checked_add(2) {
                None => false,
                Some(f) => f.checked_add(self.lanes).is_some(),
            },
        }
    }

    /// The number of general registers.
    pub fn regs(&self) -> (r: usize)
        requires
            self.wf(),
        ensures
            r == self.regs_spec(),
    {
        self.numbers + self.swaps
    }

    /// The number of slots in one register file.
    pub fn width(&self) -> (w: usize)
        requires
            self.wf(),
        ensures
            w == self.width_spec(),
    {
        self.numbers + self.swaps + 2 + self.lanes
    }

    /// The index of the first vector lane.
    pub fn lane_base(&self) -> (b: usize)
        requires
            self.wf(),
        ensures
            b == self.lane_base_spec(),
    {
        self.numbers + self.swaps + 2
    }
}

} // verus!
