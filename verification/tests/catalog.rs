use sortsynth::catalog::{check_catalog, check_command, possible_commands, ConfigError};
use sortsynth::config::Config;
use sortsynth::machine::{CMOVG, CMOVL, CMP, MAX, MIN, MOV, MOVD, MOVDQA};

#[test]
fn scalar_catalog_of_four_registers() {
    let cfg = Config::new(3, 1, 11);
    let catalog = possible_commands(&cfg);
    assert_eq!(catalog.len(), 3 * 4 * 3 + 6);
    assert_eq!(catalog[0], (MOV, 0, 1));
    assert_eq!(catalog[1], (MOV, 0, 2));
    assert_eq!(catalog[3], (MOV, 1, 0));
    assert_eq!(catalog[12], (CMOVG, 0, 1));
    assert_eq!(catalog[24], (CMOVL, 0, 1));
    assert_eq!(catalog[36], (CMP, 0, 1));
    assert_eq!(catalog[41], (CMP, 2, 3));
    assert!(!catalog.contains(&(MOV, 2, 2)));
    assert!(!catalog.contains(&(CMP, 1, 0)));
    assert!(!catalog.contains(&(MOV, 0, 4)));
    for cmd in catalog.iter() {
        assert!(cmd.0 <= CMOVL);
    }
}

#[test]
fn catalog_of_two_registers() {
    let cfg = Config::new(2, 0, 4);
    let catalog = possible_commands(&cfg);
    assert_eq!(
        catalog,
        vec![
            (MOV, 0, 1),
            (MOV, 1, 0),
            (CMOVG, 0, 1),
            (CMOVG, 1, 0),
            (CMOVL, 0, 1),
            (CMOVL, 1, 0),
            (CMP, 0, 1)
        ]
    );
}

#[test]
fn catalog_with_lanes() {
    let cfg = Config::with_lanes(2, 0, 4).unwrap();
    let catalog = possible_commands(&cfg);
    // 7 scalar, 3 * 2 between lanes, 2 * 2 + 2 * 2 between registers and lanes
    assert_eq!(catalog.len(), 7 + 6 + 8);
    assert_eq!(catalog[7], (MIN, 4, 5));
    assert_eq!(catalog[8], (MIN, 5, 4));
    assert_eq!(catalog[9], (MAX, 4, 5));
    assert_eq!(catalog[11], (MOVDQA, 4, 5));
    assert_eq!(catalog[13], (MOVD, 0, 4));
    assert_eq!(catalog[17], (MOVD, 4, 0));
    assert_eq!(catalog[20], (MOVD, 5, 1));
    assert_eq!(check_catalog(&cfg, &catalog), Ok(()));
}

#[test]
fn generated_catalogs_fit_their_machine() {
    for n in 1..5usize {
        for s in 0..3usize {
            let cfg = Config::new(n, s, 10);
            assert_eq!(check_catalog(&cfg, &possible_commands(&cfg)), Ok(()));
        }
    }
}

#[test]
fn catalog_entries_that_do_not_fit_are_reported() {
    let cfg = Config::new(3, 1, 11);
    assert!(check_command(&cfg, &(MOV, 3, 0)));
    assert!(check_command(&cfg, &(MOV, 2, 2)));
    // a flag slot is no register
    assert!(!check_command(&cfg, &(MOV, 4, 0)));
    assert!(!check_command(&cfg, &(CMP, 0, 5)));
    // no lanes on the scalar machine
    assert!(!check_command(&cfg, &(MIN, 0, 1)));
    assert!(!check_command(&cfg, &(MOVD, 0, 6)));
    // unknown opcode
    assert!(!check_command(&cfg, &(8, 0, 1)));
    let catalog = vec![(MOV, 0, 1), (CMP, 0, 1), (MOV, 0, 4), (9, 0, 0)];
    assert_eq!(check_catalog(&cfg, &catalog), Err(ConfigError::BadCommand(2)));
    assert_eq!(check_catalog(&cfg, &Vec::new()), Ok(()));
}

#[test]
fn lane_instructions_want_lanes() {
    let cfg = Config::with_lanes(3, 1, 11).unwrap();
    assert_eq!(cfg.lanes, 4);
    assert!(check_command(&cfg, &(MAX, 6, 9)));
    assert!(!check_command(&cfg, &(MAX, 5, 9)));
    assert!(!check_command(&cfg, &(MAX, 6, 10)));
    assert!(check_command(&cfg, &(MOVD, 3, 9)));
    assert!(check_command(&cfg, &(MOVD, 9, 3)));
    assert!(!check_command(&cfg, &(MOVD, 3, 2)));
    assert!(!check_command(&cfg, &(MOVD, 6, 7)));
    assert!(!check_command(&cfg, &(MOVDQA, 0, 1)));
}

#[test]
fn sizes_are_checked() {
    assert!(Config::new(3, 1, 11).is_wf());
    assert!(!Config::new(0, 1, 11).is_wf());
    assert!(!Config::new(256, 0, 11).is_wf());
    assert!(Config::new(255, 0, 11).is_wf());
    assert!(!Config::new(3, usize::MAX, 11).is_wf());
    assert!(!(Config { numbers: 3, swaps: 0, lanes: 2, max_len: 5 }).is_wf());
    assert!((Config { numbers: 3, swaps: 0, lanes: 3, max_len: 5 }).is_wf());
    assert_eq!(Config::with_lanes(3, usize::MAX, 5), None);
    let cfg = Config::new(3, 1, 11);
    assert_eq!(cfg.regs(), 4);
    assert_eq!(cfg.width(), 6);
    assert_eq!(cfg.lane_base(), 6);
    let wide = Config::with_lanes(3, 1, 11).unwrap();
    assert_eq!(wide.width(), 10);
}

#[test]
fn a_span_holds_the_values_from_the_first_to_the_last() {
    assert_eq!(sortsynth::initial::span(1, 3), vec![1, 2, 3]);
    assert_eq!(sortsynth::initial::span(0, 4), vec![0, 1, 2, 3, 4]);
    assert_eq!(sortsynth::initial::span(7, 7), vec![7]);
    let all = sortsynth::initial::span(0, 255);
    assert_eq!(all.len(), 256);
    assert_eq!(all[255], 255);
}
