//! Instructions as text: in assembler syntax with register names, and in a
//! plain form with slots counted from 1.

use vstd::prelude::*;
use vstd::string::StringExecFns;
use crate::machine::{Command, CMP, MOV, CMOVG, CMOVL, MIN, MAX, MOVD, MOVDQA};

verus! {

/// The numeral of one decimal digit.
pub open spec fn digit(d: int) -> Seq<char> {
    if d == 0 {
        "0"@
    } else if d == 1 {
        "1"@
    } else if d == 2 {
        "2"@
    } else if d == 3 {
        "3"@
    } else if d == 4 {
        "4"@
    } else if d == 5 {
        "5"@
    } else if d == 6 {
        "6"@
    } else if d == 7 {
        "7"@
    } else if d == 8 {
        "8"@
    } else {
        "9"@
    }
}

/// A number in decimal digits, without leading zeros.
pub open spec fn decimal(n: nat) -> Seq<char>
    decreases n,
{
    if n < 10 {
        digit(n as int)
    } else {
        decimal(n / 10) + digit((n % 10) as int)
    }
}

/// The name of a slot in assembler syntax: four general registers, then four
/// vector registers.
pub open spec fn reg_name_spec(reg: usize) -> Seq<char> {
    if reg == 0 {
        "eax"@
    } else if reg == 1 {
        "ecx"@
    } else if reg == 2 {
        "edx"@
    } else if reg == 3 {
        "r8d"@
    } else if reg == 4 {
        "xmm0"@
    } else if reg == 5 {
        "xmm1"@
    } else if reg == 6 {
        "xmm2"@
    } else {
        "xmm3"@
    }
}

/// The mnemonic of an opcode in assembler syntax.
pub open spec fn mnemonic_spec(instr: usize) -> Seq<char> {
    if instr == CMP {
        "cmp"@
    } else if instr == MOV {
        "mov"@
    } else if instr == CMOVG {
        "cmovg"@
    } else if instr == CMOVL {
        "cmovl"@
    } else if instr == MIN {
        "pminud"@
    } else if instr == MAX {
        "pmaxud"@
    } else if instr == MOVD {
        "movd"@
    } else {
        "movdqa"@
    }
}

/// The name of an opcode in the plain form.
pub open spec fn opcode_name_spec(instr: usize) -> Seq<char> {
    if instr == CMP {
        "CMP"@
    } else if instr == MOV {
        "MOV"@
    } else if instr == CMOVG {
        "CMOVG"@
    } else if instr == CMOVL {
        "CMOVL"@
    } else if instr == MIN {
        "MIN"@
    } else if instr == MAX {
        "MAX"@
    } else if instr == MOVD {
        "MOVD"@
    } else {
        "MOVDQA"@
    }
}

/// What stands between the two operands in the plain form: a blank for the
/// scalar instructions, a comma and a blank for the vector ones.
pub open spec fn separator_spec(instr: usize) -> Seq<char> {
    if instr <= CMOVL {
        " "@
    } else {
        ", "@
    }
}

/// An instruction in assembler syntax: mnemonic, source, destination.
pub open spec fn show_assembler_spec(cmd: Command) -> Seq<char> {
    mnemonic_spec(cmd.0) + " "@ + reg_name_spec(cmd.2) + ", "@ + reg_name_spec(cmd.1)
}

/// An instruction of the scalar machine as text: opcode, destination, source,
/// with a blank between them and the slots counted from 1.
pub open spec fn show_command_spec(cmd: Command) -> Seq<char> {
    opcode_name_spec(cmd.0) + " "@ + decimal((cmd.1 + 1) as nat) + " "@ + decimal(
        (cmd.2 + 1) as nat,
    )
}

/// An instruction in the plain form: opcode, destination, source, the slots
/// counted from 1.
pub open spec fn show_command_human_spec(cmd: Command) -> Seq<char> {
    opcode_name_spec(cmd.0) + " "@ + decimal((cmd.1 + 1) as nat) + separator_spec(cmd.0) + decimal(
        (cmd.2 + 1) as nat,
    )
}

/// The numeral of one decimal digit.
fn digit_str(d: usize) -> (s: &'static str)
    requires
        d < 10,
    ensures
        s@ == digit(d as int),
{
    if d == 0 {
        "0"
    } else if d == 1 {
        "1"
    } else if d == 2 {
        "2"
    } else if d == 3 {
        "3"
    } else if d == 4 {
        "4"
    } else if d == 5 {
        "5"
    } else if d == 6 {
        "6"
    } else if d == 7 {
        "7"
    } else if d == 8 {
        "8"
    } else {
        "9"
    }
}

/// Writes a number in decimal digits.
pub fn decimal_string(n: usize) -> (s: String)
    ensures
        s@ == decimal(n as nat),
    decreases n,
{
    if n < 10 {
        String::from_str(digit_str(n))
    } else {
        let mut s = decimal_string(n / 10);
        s.append(digit_str(n % 10));
        s
    }
}

/// The name of a slot in assembler syntax.
fn reg_name(reg: usize) -> (s: &'static str)
    requires
        reg < 8,
    ensures
        s@ == reg_name_spec(reg),
{
    if reg == 0 {
        "eax"
    } else if reg == 1 {
        "ecx"
    } else if reg == 2 {
        "edx"
    } else if reg == 3 {
        "r8d"
    } else if reg == 4 {
        "xmm0"
    } else if reg == 5 {
        "xmm1"
    } else if reg == 6 {
        "xmm2"
    } else {
        "xmm3"
    }
}

/// The mnemonic of an opcode in assembler syntax.
fn mnemonic(instr: usize) -> (s: &'static str)
    requires
        instr <= MOVDQA,
    ensures
        s@ == mnemonic_spec(instr),
{
    if instr == CMP {
        "cmp"
    } else if instr == MOV {
        "mov"
    } else if instr == CMOVG {
        "cmovg"
    } else if instr == CMOVL {
        "cmovl"
    } else if instr == MIN {
        "pminud"
    } else if instr == MAX {
        "pmaxud"
    } else if instr == MOVD {
        "movd"
    } else {
        "movdqa"
    }
}

/// The name of an opcode in the plain form.
fn opcode_name(instr: usize) -> (s: &'static str)
    requires
        instr <= MOVDQA,
    ensures
        s@ == opcode_name_spec(instr),
{
    if instr == CMP {
        "CMP"
    } else if instr == MOV {
        "MOV"
    } else if instr == CMOVG {
        "CMOVG"
    } else if instr == CMOVL {
        "CMOVL"
    } else if instr == MIN {
        "MIN"
    } else if instr == MAX {
        "MAX"
    } else if instr == MOVD {
        "MOVD"
    } else {
        "MOVDQA"
    }
}

/// Writes an instruction in assembler syntax, source before destination, as
/// in `cmp ecx, eax`. Only the first eight slots have a name.
pub fn show_assembler(cmd: &Command) -> (text: String)
    requires
        cmd.0 <= MOVDQA,
        cmd.1 < 8,
        cmd.2 < 8,
    ensures
        text@ == show_assembler_spec(*cmd),
{
    let (instr, to, from) = *cmd;
    let mut text = String::from_str(mnemonic(instr));
    text.append(" ");
    text.append(reg_name(from));
    text.append(", ");
    text.append(reg_name(to));
    text
}

/// Writes an instruction of the scalar machine: the opcode, then destination
/// and source counted from 1, as in `CMOVG 4 1`.
pub fn show_command(cmd: &Command) -> (text: String)
    requires
        cmd.0 <= CMOVL,
        cmd.1 < usize::MAX,
        cmd.2 < usize::MAX,
    ensures
        text@ == show_command_spec(*cmd),
        text@ == show_command_human_spec(*cmd),
{
    let (instr, to, from) = *cmd;
    let mut text = String::from_str(opcode_name(instr));
    text.append(" ");
    let first = decimal_string(to + 1);
    text.append(first.as_str());
    text.append(" ");
    let second = decimal_string(from + 1);
    text.append(second.as_str());
    text
}

/// Writes an instruction of the machine with lanes in the plain form,
/// destination before source and slots counted from 1, as in `CMOVG 1 2` or
/// `MIN 7, 8`. On the scalar instructions this is `show_command`.
pub fn show_command_human(cmd: &Command) -> (text: String)
    requires
        cmd.0 <= MOVDQA,
        cmd.1 < usize::MAX,
        cmd.2 < usize::MAX,
    ensures
        text@ == show_command_human_spec(*cmd),
{
    let (instr, to, from) = *cmd;
    let mut text = String::from_str(opcode_name(instr));
    text.append(" ");
    let first = decimal_string(to + 1);
    text.append(first.as_str());
    if instr <= CMOVL {
        text.append(" ");
    } else {
        text.append(", ");
    }
    let second = decimal_string(from + 1);
    text.append(second.as_str());
    text
}

} // verus!
