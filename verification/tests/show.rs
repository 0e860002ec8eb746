use sortsynth::machine::{CMOVG, CMOVL, CMP, MAX, MIN, MOV, MOVD, MOVDQA};
use sortsynth::show::{decimal_string, show_assembler, show_command, show_command_human};

#[test]
fn assembler_syntax_names_source_first() {
    assert_eq!(show_assembler(&(CMP, 0, 1)), "cmp ecx, eax");
    assert_eq!(show_assembler(&(MOV, 3, 0)), "mov eax, r8d");
    assert_eq!(show_assembler(&(CMOVG, 2, 1)), "cmovg ecx, edx");
    assert_eq!(show_assembler(&(CMOVL, 1, 2)), "cmovl edx, ecx");
    assert_eq!(show_assembler(&(MIN, 4, 5)), "pminud xmm1, xmm0");
    assert_eq!(show_assembler(&(MAX, 6, 7)), "pmaxud xmm3, xmm2");
    assert_eq!(show_assembler(&(MOVD, 4, 0)), "movd eax, xmm0");
    assert_eq!(show_assembler(&(MOVDQA, 7, 4)), "movdqa xmm0, xmm3");
}

#[test]
fn plain_form_counts_slots_from_one() {
    assert_eq!(show_command_human(&(CMP, 0, 1)), "CMP 1 2");
    assert_eq!(show_command_human(&(MOV, 3, 0)), "MOV 4 1");
    assert_eq!(show_command_human(&(CMOVG, 0, 1)), "CMOVG 1 2");
    assert_eq!(show_command_human(&(CMOVL, 9, 10)), "CMOVL 10 11");
    assert_eq!(show_command_human(&(MIN, 6, 7)), "MIN 7, 8");
    assert_eq!(show_command_human(&(MAX, 7, 6)), "MAX 8, 7");
    assert_eq!(show_command_human(&(MOVD, 0, 6)), "MOVD 1, 7");
    assert_eq!(show_command_human(&(MOVDQA, 99, 8)), "MOVDQA 100, 9");
}

#[test]
fn numbers_in_decimal() {
    assert_eq!(decimal_string(0), "0");
    assert_eq!(decimal_string(7), "7");
    assert_eq!(decimal_string(10), "10");
    assert_eq!(decimal_string(255), "255");
    assert_eq!(decimal_string(1002003), "1002003");
    assert_eq!(decimal_string(usize::MAX), usize::MAX.to_string());
}

#[test]
fn scalar_instructions_are_written_with_slots_counted_from_one() {
    assert_eq!(show_command(&(CMOVG, 3, 0)), "CMOVG 4 1");
    assert_eq!(show_command(&(CMP, 0, 1)), "CMP 1 2");
    assert_eq!(show_command(&(MOV, 2, 3)), "MOV 3 4");
    assert_eq!(show_command(&(CMOVL, 9, 10)), "CMOVL 10 11");
    for instr in [CMP, MOV, CMOVG, CMOVL] {
        assert_eq!(show_command(&(instr, 12, 0)), show_command_human(&(instr, 12, 0)));
    }
}
