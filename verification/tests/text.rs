use sortsynth::signature::PermInfo;
use sortsynth::text::{
    get_number, get_truth, parse_signatures, show_signature, show_signatures, skip_back,
    skip_front, split, Mark,
};

fn chars(s: &str) -> Vec<char> {
    s.chars().collect()
}

fn text(v: Vec<char>) -> String {
    v.into_iter().collect()
}

fn plain(infos: Vec<PermInfo>) -> Vec<(Vec<Vec<u8>>, Vec<bool>)> {
    infos.into_iter().map(|i| (i.perm, i.flags)).collect()
}

/// The same reading with the string functions of the standard library.
fn by_std(s: &str) -> Option<Vec<(Vec<Vec<u8>>, Vec<bool>)>> {
    let mut res = vec![];
    for part in s.split(",") {
        let part = part.trim();
        let part = part.trim_start_matches('[');
        let part = part.trim_end_matches(']');
        let mut iter = part.split_whitespace();
        let perm = iter.next()?;
        let flags = iter.next()?;
        let perm = perm.trim_start_matches('[');
        let perm = perm.trim_end_matches(']');
        let mut lists = vec![];
        for x in perm.split("|") {
            let mut list = vec![];
            for y in x.split(",") {
                list.push(y.parse::<u8>().ok()?);
            }
            lists.push(list);
        }
        let mut fs = vec![];
        for x in flags.split(',') {
            fs.push(x.parse::<bool>().ok()?);
        }
        res.push((lists, fs));
    }
    Some(res)
}

#[test]
fn a_signature_is_written_as_nested_lists() {
    let info = PermInfo { perm: vec![vec![2, 3], vec![1], vec![]], flags: vec![false, true] };
    assert_eq!(text(show_signature(&info)), "[[2, 3], [1], []] [false, true]");
    assert_eq!(
        text(show_signature(&info)),
        format!("{:?} {:?}", vec![vec![2u8, 3], vec![1], vec![]], vec![false, true])
    );
}

#[test]
fn numbers_are_written_in_decimal() {
    for n in 0..=255u8 {
        let info = PermInfo { perm: vec![vec![n]], flags: vec![] };
        assert_eq!(text(show_signature(&info)), format!("[[{}]] []", n));
    }
}

#[test]
fn signatures_are_written_in_brackets_with_commas_between() {
    let a = PermInfo { perm: vec![vec![0], vec![1, 2]], flags: vec![true, false] };
    let b = PermInfo { perm: vec![vec![], vec![100, 255]], flags: vec![false, false] };
    assert_eq!(text(show_signatures(&vec![])), "");
    assert_eq!(
        text(show_signatures(&vec![PermInfo { perm: vec![], flags: vec![] }])),
        "[[] []]"
    );
    assert_eq!(
        text(show_signatures(&vec![a, b])),
        "[[[0], [1, 2]] [true, false]], [[[], [100, 255]] [false, false]]"
    );
}

#[test]
fn the_short_form_is_read() {
    let got = parse_signatures(&chars("[3|1|2 true], [0|2 false]")).map(plain);
    assert_eq!(
        got,
        Some(vec![
            (vec![vec![3], vec![1], vec![2]], vec![true]),
            (vec![vec![0], vec![2]], vec![false]),
        ])
    );
}

#[test]
fn brackets_and_white_space_around_a_part_are_left_aside() {
    let got = parse_signatures(&chars(" \t[[[7|+8]]\u{a0}\n false  more]] ")).map(plain);
    assert_eq!(got, Some(vec![(vec![vec![7], vec![8]], vec![false])]));
    let got = parse_signatures(&chars("255 true")).map(plain);
    assert_eq!(got, Some(vec![(vec![vec![255]], vec![true])]));
    let got = parse_signatures(&chars("007 true")).map(plain);
    assert_eq!(got, Some(vec![(vec![vec![7]], vec![true])]));
}

#[test]
fn a_part_without_a_signature_gives_nothing() {
    for bad in [
        "",
        "1",
        "1 true,",
        ",1 true",
        "1 yes",
        "1 True",
        "1 true]x",
        "256 true",
        "1000 true",
        "-1 true",
        "+ true",
        "1| true",
        "|1 true",
        "1||2 true",
        "a true",
        "1 2 true",
        "[] true",
        "1\u{3000}",
        "١ true",
    ] {
        assert!(parse_signatures(&chars(bad)).is_none(), "{:?}", bad);
    }
}

#[test]
fn what_is_written_is_not_the_short_form() {
    let one = PermInfo { perm: vec![vec![1]], flags: vec![true] };
    let written = show_signatures(&vec![one]);
    assert_eq!(text(written.clone()), "[[[1]] [true]]");
    assert!(parse_signatures(&written).is_none());
    assert!(parse_signatures(&show_signatures(&vec![])).is_none());
}

#[test]
fn reading_agrees_with_the_string_functions_of_the_standard_library() {
    let alphabet = ['1', '2', '+', '|', ',', ' ', '[', ']', 't', '\u{2003}'];
    let words = ["true", "false", " true", "] false", "1|2", "25", "6", "[", "]", ",", " ", "|"];
    let mut inputs: Vec<String> = vec![];
    for a in words {
        for b in words {
            for c in words {
                inputs.push(format!("{a}{b}{c}"));
                for d in alphabet {
                    inputs.push(format!("{a}{d}{b}{c}"));
                }
            }
        }
    }
    let mut read = 0;
    for s in &inputs {
        let got = parse_signatures(&chars(s)).map(plain);
        assert_eq!(got, by_std(s), "{:?}", s);
        if got.is_some() {
            read += 1;
        }
    }
    assert!(read > 100);
}

#[test]
fn a_text_is_cut_at_each_separator() {
    let t = chars("a,,bc,");
    assert_eq!(split(&t, 0, t.len(), ','), vec![(0, 1), (2, 2), (3, 5), (6, 6)]);
    assert_eq!(split(&t, 3, 5, ','), vec![(3, 5)]);
    assert_eq!(split(&t, 2, 2, ','), vec![(2, 2)]);
    let expected: Vec<&str> = "a,,bc,".split(',').collect();
    let got: Vec<String> =
        split(&t, 0, t.len(), ',').into_iter().map(|(a, b)| t[a..b].iter().collect()).collect();
    assert_eq!(got, expected);
}

#[test]
fn the_ends_of_a_window_are_moved_over_one_kind_of_character() {
    let t = chars("  [[x ]] ");
    assert_eq!(skip_front(&t, 0, t.len(), Mark::Blank), 2);
    assert_eq!(skip_back(&t, 0, t.len(), Mark::Blank), 8);
    assert_eq!(skip_front(&t, 2, 8, Mark::Open), 4);
    assert_eq!(skip_back(&t, 2, 8, Mark::Close), 6);
    assert_eq!(skip_front(&t, 4, 6, Mark::Word), 5);
    assert_eq!(skip_front(&t, 0, t.len(), Mark::Open), 0);
    assert_eq!(skip_back(&t, 0, 2, Mark::Blank), 0);
}

#[test]
fn numbers_and_flags_are_read_letter_for_letter() {
    let t = chars("+255 256 true false tru 0");
    assert_eq!(get_number(&t, 0, 4), Some(255));
    assert_eq!(get_number(&t, 1, 4), Some(255));
    assert_eq!(get_number(&t, 5, 8), None);
    assert_eq!(get_number(&t, 5, 7), Some(25));
    assert_eq!(get_number(&t, 0, 1), None);
    assert_eq!(get_number(&t, 3, 3), None);
    assert_eq!(get_number(&t, 3, 5), None);
    assert_eq!(get_number(&t, 24, 25), Some(0));
    assert_eq!(get_truth(&t, 9, 13), Some(true));
    assert_eq!(get_truth(&t, 14, 19), Some(false));
    assert_eq!(get_truth(&t, 20, 23), None);
    assert_eq!(get_truth(&t, 9, 14), None);
    assert_eq!(get_truth(&t, 15, 19), None);
}

#[test]
fn white_space_is_what_the_standard_library_takes_for_it() {
    let listed = |u: u32| {
        (0x09..=0x0D).contains(&u)
            || [0x20, 0x85, 0xA0, 0x1680, 0x2028, 0x2029, 0x202F, 0x205F, 0x3000].contains(&u)
            || (0x2000..=0x200A).contains(&u)
    };
    let mut count = 0;
    for u in 0..=0x10FFFFu32 {
        if let Some(c) = char::from_u32(u) {
            let text = vec![c];
            let blank = skip_front(&text, 0, 1, Mark::Blank) == 1;
            assert_eq!(blank, listed(u), "{:x}", u);
            assert_eq!(blank, c.is_whitespace(), "{:x}", u);
            assert_eq!(skip_back(&text, 0, 1, Mark::Word) == 0, !listed(u), "{:x}", u);
            if blank {
                count += 1;
            }
        }
    }
    assert_eq!(count, 25);
}
