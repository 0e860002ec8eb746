//! Signatures as text.
//!
//! Written, a signature is its lists and its flags as nested lists, a blank
//! between them: `[[2, 3], [1], []] [false, true]`. The signatures of a joint
//! state stand in square brackets each, with a comma and a blank between
//! them.
//!
//! Read, a text is cut at its commas, and each part holds one signature in a
//! short form: the registers of the ranks with `|` between them, a blank, and
//! one flag as `true` or `false`, as in `[3|1|2 true], [0|2 false]`. Every
//! rank has one register there. The short form is not the written form.

use vstd::prelude::*;
use crate::order::{State, rows};
use crate::show::{decimal, digit};
use crate::signature::PermInfo;

verus! {

/// Whether the character is white space: it has the property `White_Space`
/// of the Unicode character database, which the tabulator, the line feed and
/// the blank have, and twenty-two more characters.
pub open spec fn white_space(c: char) -> bool {
    let u = c as u32;
    ||| 0x09 <= u <= 0x0D
    ||| u == 0x20
    ||| u == 0x85
    ||| u == 0xA0
    ||| u == 0x1680
    ||| 0x2000 <= u <= 0x200A
    ||| u == 0x2028
    ||| u == 0x2029
    ||| u == 0x202F
    ||| u == 0x205F
    ||| u == 0x3000
}

/// Tells whether a character is white space.
fn is_space(c: char) -> (b: bool)
    ensures
        b == white_space(c),
{
    let u: u32 = c as u32;
    (0x09 <= u && u <= 0x0D) || u == 0x20 || u == 0x85 || u == 0xA0 || u == 0x1680 || (0x2000 <= u
        && u <= 0x200A) || u == 0x2028 || u == 0x2029 || u == 0x202F || u == 0x205F || u == 0x3000
}

/// A kind of character that is taken off the ends of a text.
pub enum Mark {
    /// White space.
    Blank,
    /// Anything but white space.
    Word,
    /// The opening square bracket.
    Open,
    /// The closing square bracket.
    Close,
}

impl Mark {
    /// The character is of this kind.
    pub open spec fn has(self, c: char) -> bool {
        match self {
            Mark::Blank => white_space(c),
            Mark::Word => !white_space(c),
            Mark::Open => c == '[',
            Mark::Close => c == ']',
        }
    }

    /// Tells whether the character is of this kind.
    pub fn test(&self, c: char) -> (b: bool)
        ensures
            b == self.has(c),
    {
        match self {
            Mark::Blank => is_space(c),
            Mark::Word => !is_space(c),
            Mark::Open => c == '[',
            Mark::Close => c == ']',
        }
    }
}

/// How many characters of the kind stand at the front of the text.
pub open spec fn lead(s: Seq<char>, m: Mark) -> nat
    decreases s.len(),
{
    if s.len() > 0 && m.has(s[0]) {
        1 + lead(s.skip(1), m)
    } else {
        0
    }
}

/// How many characters of the kind stand at the end of the text.
pub open spec fn trail(s: Seq<char>, m: Mark) -> nat
    decreases s.len(),
{
    if s.len() > 0 && m.has(s.last()) {
        1 + trail(s.drop_last(), m)
    } else {
        0
    }
}

/// The text without the characters of the kind at its front.
pub open spec fn strip_front(s: Seq<char>, m: Mark) -> Seq<char> {
    s.skip(lead(s, m) as int)
}

/// The text without the characters of the kind at its end.
pub open spec fn strip_back(s: Seq<char>, m: Mark) -> Seq<char> {
    s.take(s.len() - trail(s, m))
}

/// The characters at the front are counted up to the first of another kind.
pub proof fn lemma_lead(s: Seq<char>, m: Mark, k: int)
    requires
        0 <= k <= s.len(),
        forall|i: int| 0 <= i < k ==> m.has(#[trigger] s[i]),
        k == s.len() || !m.has(s[k]),
    ensures
        lead(s, m) == k,
    decreases s.len(),
{
    if k > 0 {
        assert(m.has(s[0]));
        let t = s.skip(1);
        assert forall|i: int| 0 <= i < k - 1 implies m.has(#[trigger] t[i]) by {
            assert(t[i] == s[i + 1]);
        }
        lemma_lead(t, m, k - 1);
    }
}

/// The characters at the end are counted back to the last of another kind.
pub proof fn lemma_trail(s: Seq<char>, m: Mark, k: int)
    requires
        0 <= k <= s.len(),
        forall|i: int| s.len() - k <= i < s.len() ==> m.has(#[trigger] s[i]),
        k == s.len() || !m.has(s[s.len() - k - 1]),
    ensures
        trail(s, m) == k,
    decreases s.len(),
{
    if k > 0 {
        assert(m.has(s[s.len() - 1]));
        let t = s.drop_last();
        assert forall|i: int| t.len() - (k - 1) <= i < t.len() implies m.has(#[trigger] t[i]) by {
            assert(t[i] == s[i]);
        }
        lemma_trail(t, m, k - 1);
    }
}

/// The part of a text between two places.
pub open spec fn window(text: Seq<char>, lo: int, hi: int) -> Seq<char> {
    text.subrange(lo, hi)
}

/// Moves the front of a window behind the characters of the kind.
pub fn skip_front(text: &Vec<char>, lo: usize, hi: usize, m: Mark) -> (k: usize)
    requires
        lo <= hi <= text.len(),
    ensures
        lo <= k <= hi,
        k - lo == lead(window(text@, lo as int, hi as int), m),
        window(text@, k as int, hi as int) == strip_front(window(text@, lo as int, hi as int), m),
{
    let mut k: usize = lo;
    while k < hi && m.test(text[k])
        invariant
            lo <= k <= hi <= text.len(),
            forall|i: int| lo <= i < k ==> m.has(#[trigger] text@[i]),
        ensures
            lo <= k <= hi,
            forall|i: int| lo <= i < k ==> m.has(#[trigger] text@[i]),
            k == hi || !m.has(text@[k as int]),
        decreases hi - k,
    {
        k += 1;
    }
    proof {
        let w = window(text@, lo as int, hi as int);
        assert forall|i: int| 0 <= i < k - lo implies m.has(#[trigger] w[i]) by {
            assert(w[i] == text@[lo + i]);
        }
        lemma_lead(w, m, k - lo);
        assert(window(text@, k as int, hi as int) =~= w.skip(k - lo));
    }
    k
}

/// Moves the end of a window before the characters of the kind.
pub fn skip_back(text: &Vec<char>, lo: usize, hi: usize, m: Mark) -> (k: usize)
    requires
        lo <= hi <= text.len(),
    ensures
        lo <= k <= hi,
        hi - k == trail(window(text@, lo as int, hi as int), m),
        window(text@, lo as int, k as int) == strip_back(window(text@, lo as int, hi as int), m),
{
    let mut k: usize = hi;
    while k > lo && m.test(text[k - 1])
        invariant
            lo <= k <= hi <= text.len(),
            forall|i: int| k <= i < hi ==> m.has(#[trigger] text@[i]),
        ensures
            lo <= k <= hi,
            forall|i: int| k <= i < hi ==> m.has(#[trigger] text@[i]),
            k == lo || !m.has(text@[k - 1]),
        decreases k - lo,
    {
        k -= 1;
    }
    proof {
        let w = window(text@, lo as int, hi as int);
        assert forall|i: int| w.len() - (hi - k) <= i < w.len() implies m.has(#[trigger] w[i]) by {
            assert(w[i] == text@[lo + i]);
        }
        lemma_trail(w, m, hi - k);
        assert(window(text@, lo as int, k as int) =~= w.take(w.len() - (hi - k)));
    }
    k
}

/// The pieces that a text falls into where it is cut at each separator. A
/// text without a separator is one piece, the empty text too.
pub open spec fn pieces(s: Seq<char>, sep: char) -> Seq<Seq<char>>
    decreases s.len(),
{
    if s.len() == 0 {
        seq![Seq::empty()]
    } else {
        let before = pieces(s.drop_last(), sep);
        if s.last() == sep {
            before.push(Seq::empty())
        } else {
            before.drop_last().push(before.last().push(s.last()))
        }
    }
}

/// The pieces put together again, with the separator between them.
pub open spec fn joined(ps: Seq<Seq<char>>, sep: Seq<char>) -> Seq<char>
    decreases ps.len(),
{
    if ps.len() == 0 {
        Seq::empty()
    } else if ps.len() == 1 {
        ps[0]
    } else {
        joined(ps.drop_last(), sep) + sep + ps.last()
    }
}

/// Cutting loses nothing: there is at least one piece, no piece holds the
/// separator, and the pieces joined by the separator are the text.
pub proof fn lemma_pieces(s: Seq<char>, sep: char)
    ensures
        pieces(s, sep).len() >= 1,
        forall|i: int, j: int|
            0 <= i < pieces(s, sep).len() && 0 <= j < pieces(s, sep)[i].len() ==> #[trigger] pieces(
                s,
                sep,
            )[i][j] != sep,
        joined(pieces(s, sep), seq![sep]) == s,
    decreases s.len(),
{
    let ps = pieces(s, sep);
    if s.len() == 0 {
        assert(joined(ps, seq![sep]) =~= s);
    } else {
        let t = s.drop_last();
        let before = pieces(t, sep);
        lemma_pieces(t, sep);
        if s.last() == sep {
            assert(ps.drop_last() =~= before);
            assert(joined(ps, seq![sep]) =~= s);
        } else {
            let last = before.last().push(s.last());
            assert(ps.last() == last);
            if before.len() == 1 {
                assert(before[0] == t);
                assert(ps.len() == 1);
                assert(ps[0] == last);
                assert(t.push(s.last()) =~= s);
            } else {
                assert(ps.drop_last() =~= before.drop_last());
                assert(joined(ps, seq![sep]) =~= joined(before.drop_last(), seq![sep]) + seq![sep]
                    + last);
                assert(t == joined(before.drop_last(), seq![sep]) + seq![sep] + before.last());
                assert(t.push(s.last()) =~= s);
                assert(joined(ps, seq![sep]) =~= t.push(s.last()));
            }
        }
    }
}

/// The windows are the pieces of the window from `lo` to `hi`, in turn.
pub open spec fn cut_into(
    text: Seq<char>,
    lo: int,
    hi: int,
    sep: char,
    wins: Seq<(usize, usize)>,
) -> bool {
    let ps = pieces(window(text, lo, hi), sep);
    &&& wins.len() == ps.len()
    &&& forall|i: int|
        0 <= i < wins.len() ==> {
            &&& lo <= (#[trigger] wins[i]).0 <= wins[i].1 <= hi
            &&& window(text, wins[i].0 as int, wins[i].1 as int) == ps[i]
        }
}

/// Cuts a window at each separator.
pub fn split(text: &Vec<char>, lo: usize, hi: usize, sep: char) -> (wins: Vec<(usize, usize)>)
    requires
        lo <= hi <= text.len(),
    ensures
        cut_into(text@, lo as int, hi as int, sep, wins@),
{
    let mut wins: Vec<(usize, usize)> = Vec::new();
    let mut start: usize = lo;
    let mut i: usize = lo;
    proof {
        assert(window(text@, lo as int, lo as int) =~= Seq::<char>::empty());
    }
    while i < hi
        invariant
            lo <= start <= i <= hi <= text.len(),
            pieces(window(text@, lo as int, i as int), sep).len() == wins.len() + 1,
            pieces(window(text@, lo as int, i as int), sep).last() == window(
                text@,
                start as int,
                i as int,
            ),
            forall|j: int|
                0 <= j < wins.len() ==> {
                    &&& lo <= (#[trigger] wins@[j]).0 <= wins@[j].1 <= hi
                    &&& window(text@, wins@[j].0 as int, wins@[j].1 as int) == pieces(
                        window(text@, lo as int, i as int),
                        sep,
                    )[j]
                },
        decreases hi - i,
    {
        let ghost before = pieces(window(text@, lo as int, i as int), sep);
        let ghost next = window(text@, lo as int, i + 1);
        proof {
            assert(next.drop_last() =~= window(text@, lo as int, i as int));
            assert(next.last() == text@[i as int]);
        }
        if text[i] == sep {
            wins.push((start, i));
            start = i + 1;
            proof {
                assert(window(text@, start as int, i + 1) =~= Seq::<char>::empty());
            }
        } else {
            proof {
                assert(window(text@, start as int, i + 1) =~= window(
                    text@,
                    start as int,
                    i as int,
                ).push(text@[i as int]));
            }
        }
        i += 1;
    }
    wins.push((start, hi));
    wins
}

/// The character is a decimal digit.
pub open spec fn is_digit(c: char) -> bool {
    48 <= c as u32 <= 57
}

/// The number that a digit stands for.
pub open spec fn digit_value(c: char) -> nat {
    (c as u32 - 48) as nat
}

/// The number that a row of digits stands for.
pub open spec fn value(s: Seq<char>) -> nat
    decreases s.len(),
{
    if s.len() == 0 {
        0
    } else {
        value(s.drop_last()) * 10 + digit_value(s.last())
    }
}

/// Every character is a decimal digit.
pub open spec fn digits(s: Seq<char>) -> bool {
    forall|i: int| 0 <= i < s.len() ==> is_digit(#[trigger] s[i])
}

/// The text without a plus sign at its front.
pub open spec fn unsigned(s: Seq<char>) -> Seq<char> {
    if s.len() > 0 && s[0] == '+' {
        s.skip(1)
    } else {
        s
    }
}

/// The number of one byte that a text stands for: digits, at least one, a
/// plus sign before them or none, and no more than 255.
pub open spec fn number(s: Seq<char>) -> Option<u8> {
    let d = unsigned(s);
    if d.len() > 0 && digits(d) && value(d) <= 255 {
        Some(value(d) as u8)
    } else {
        None
    }
}

/// A row of digits stands for no less than the digits at its front.
pub proof fn lemma_value_grows(s: Seq<char>, k: int)
    requires
        0 <= k <= s.len(),
        digits(s),
    ensures
        value(s.take(k)) <= value(s),
    decreases s.len() - k,
{
    if k < s.len() {
        let t = s.take(k + 1);
        assert(t.drop_last() =~= s.take(k));
        assert(is_digit(s[k]));
        lemma_value_grows(s, k + 1);
    } else {
        assert(s.take(k) =~= s);
    }
}

/// Reads a number of one byte from a window.
pub fn get_number(text: &Vec<char>, lo: usize, hi: usize) -> (res: Option<u8>)
    requires
        lo <= hi <= text.len(),
    ensures
        res == number(window(text@, lo as int, hi as int)),
{
    let ghost whole = window(text@, lo as int, hi as int);
    let start: usize = if lo < hi && text[lo] == '+' {
        lo + 1
    } else {
        lo
    };
    let ghost d = window(text@, start as int, hi as int);
    proof {
        assert(lo < hi ==> whole[0] == text@[lo as int]);
        assert(d =~= unsigned(whole));
    }
    if start == hi {
        return None;
    }
    let mut acc: u32 = 0;
    let mut i: usize = start;
    proof {
        assert(window(text@, start as int, start as int) =~= Seq::<char>::empty());
    }
    while i < hi
        invariant
            start <= i <= hi <= text.len(),
            d == window(text@, start as int, hi as int),
            whole == window(text@, lo as int, hi as int),
            d == unsigned(whole),
            digits(window(text@, start as int, i as int)),
            value(window(text@, start as int, i as int)) == acc,
            acc <= 255,
        decreases hi - i,
    {
        let c: u32 = text[i] as u32;
        let ghost seen = window(text@, start as int, i as int);
        let ghost more = window(text@, start as int, i + 1);
        proof {
            assert(more.drop_last() =~= seen);
            assert(more.last() == text@[i as int]);
            assert(d[i - start] == text@[i as int]);
        }
        if c < 48 || c > 57 {
            proof {
                assert(!is_digit(d[i - start]));
            }
            return None;
        }
        let next: u32 = acc * 10 + (c - 48);
        if next > 255 {
            proof {
                if digits(d) {
                    assert(d.take(i + 1 - start) =~= more);
                    lemma_value_grows(d, i + 1 - start);
                }
            }
            return None;
        }
        proof {
            assert forall|j: int| 0 <= j < more.len() implies is_digit(#[trigger] more[j]) by {
                if j < seen.len() {
                    assert(more[j] == seen[j]);
                }
            }
        }
        acc = next;
        i += 1;
    }
    Some(acc as u8)
}

/// The flag that a text stands for: `true` or `false`, letter for letter.
pub open spec fn truth(s: Seq<char>) -> Option<bool> {
    if s == seq!['t', 'r', 'u', 'e'] {
        Some(true)
    } else if s == seq!['f', 'a', 'l', 's', 'e'] {
        Some(false)
    } else {
        None
    }
}

/// Reads a flag from a window.
pub fn get_truth(text: &Vec<char>, lo: usize, hi: usize) -> (res: Option<bool>)
    requires
        lo <= hi <= text.len(),
    ensures
        res == truth(window(text@, lo as int, hi as int)),
{
    let ghost w = window(text@, lo as int, hi as int);
    if hi - lo == 4 {
        proof {
            assert(forall|j: int| 0 <= j < 4 ==> w[j] == text@[lo + j]);
        }
        if text[lo] == 't' && text[lo + 1] == 'r' && text[lo + 2] == 'u' && text[lo + 3] == 'e' {
            proof {
                assert(w =~= seq!['t', 'r', 'u', 'e']);
            }
            Some(true)
        } else {
            proof {
                let t = seq!['t', 'r', 'u', 'e'];
                assert(t[0] == 't' && t[1] == 'r' && t[2] == 'u' && t[3] == 'e');
                assert(seq!['f', 'a', 'l', 's', 'e'].len() == 5);
            }
            None
        }
    } else if hi - lo == 5 {
        proof {
            assert(forall|j: int| 0 <= j < 5 ==> w[j] == text@[lo + j]);
            assert(seq!['t', 'r', 'u', 'e'].len() == 4);
        }
        if text[lo] == 'f' && text[lo + 1] == 'a' && text[lo + 2] == 'l' && text[lo + 3] == 's'
            && text[lo + 4] == 'e' {
            proof {
                assert(w =~= seq!['f', 'a', 'l', 's', 'e']);
            }
            Some(false)
        } else {
            proof {
                let t = seq!['f', 'a', 'l', 's', 'e'];
                assert(t[0] == 'f' && t[1] == 'a' && t[2] == 'l' && t[3] == 's' && t[4] == 'e');
            }
            None
        }
    } else {
        proof {
            assert(seq!['t', 'r', 'u', 'e'].len() == 4);
            assert(seq!['f', 'a', 'l', 's', 'e'].len() == 5);
        }
        None
    }
}

/// The lists that a text of registers stands for: cut at each `|`, every
/// piece a number, each number a list of its own.
pub open spec fn read_ranks(s: Seq<char>) -> Option<Seq<Seq<u8>>> {
    let ps = pieces(s, '|');
    if forall|i: int| 0 <= i < ps.len() ==> (#[trigger] number(ps[i])) is Some {
        Some(Seq::new(ps.len(), |i: int| seq![number(ps[i]).unwrap()]))
    } else {
        None
    }
}

/// Reads the lists from a window.
pub fn get_ranks(text: &Vec<char>, lo: usize, hi: usize) -> (res: Option<State>)
    requires
        lo <= hi <= text.len(),
    ensures
        match res {
            Some(lists) => read_ranks(window(text@, lo as int, hi as int)) == Some(rows(lists)),
            None => read_ranks(window(text@, lo as int, hi as int)) is None,
        },
{
    let wins = split(text, lo, hi, '|');
    let ghost ps = pieces(window(text@, lo as int, hi as int), '|');
    let mut lists: State = Vec::new();
    let mut i: usize = 0;
    while i < wins.len()
        invariant
            i <= wins.len(),
            lo <= hi <= text.len(),
            ps == pieces(window(text@, lo as int, hi as int), '|'),
            cut_into(text@, lo as int, hi as int, '|', wins@),
            lists.len() == i,
            forall|j: int| 0 <= j < i ==> (#[trigger] number(ps[j])) is Some,
            forall|j: int| 0 <= j < i ==> (#[trigger] lists@[j])@ == seq![number(ps[j]).unwrap()],
        decreases wins.len() - i,
    {
        let (a, b) = wins[i];
        proof {
            assert(window(text@, wins@[i as int].0 as int, wins@[i as int].1 as int) == ps[i as int]);
        }
        match get_number(text, a, b) {
            None => {
                proof {
                    assert(number(ps[i as int]) is None);
                }
                return None;
            },
            Some(n) => {
                let mut one: Vec<u8> = Vec::new();
                one.push(n);
                proof {
                    assert(one@ =~= seq![n]);
                }
                lists.push(one);
            },
        }
        i += 1;
    }
    proof {
        assert(rows(lists) =~= Seq::new(ps.len(), |i: int| seq![number(ps[i]).unwrap()]));
    }
    Some(lists)
}

/// What a signature holds: its lists and its flags.
pub type Signature = (Seq<Seq<u8>>, Seq<bool>);

/// What the signature holds.
pub open spec fn held(info: PermInfo) -> Signature {
    (rows(info.perm), info.flags@)
}

/// What each of the signatures holds.
pub open spec fn all_held(infos: Seq<PermInfo>) -> Seq<Signature> {
    Seq::new(infos.len(), |i: int| held(infos[i]))
}

/// A text without the white space at its ends, then without the opening
/// brackets at its front and the closing brackets at its end.
pub open spec fn bare(part: Seq<char>) -> Seq<char> {
    strip_back(
        strip_front(strip_back(strip_front(part, Mark::Blank), Mark::Blank), Mark::Open),
        Mark::Close,
    )
}

/// The first word of a text: what stands behind the white space at its front,
/// up to the next white space.
pub open spec fn first_word(s: Seq<char>) -> Seq<char> {
    let t = strip_front(s, Mark::Blank);
    t.take(lead(t, Mark::Word) as int)
}

/// What follows the first word of a text.
pub open spec fn after_word(s: Seq<char>) -> Seq<char> {
    strip_front(strip_front(s, Mark::Blank), Mark::Word)
}

/// The signature that one part of a text stands for. Its first word gives the
/// lists, brackets at its ends left aside; its second word gives the one
/// flag; what follows is not read. Without two words there is no signature.
pub open spec fn read_part(part: Seq<char>) -> Option<Signature> {
    let body = bare(part);
    let first = first_word(body);
    let second = first_word(after_word(body));
    if first.len() == 0 || second.len() == 0 {
        None
    } else {
        match (
            read_ranks(strip_back(strip_front(first, Mark::Open), Mark::Close)),
            truth(second),
        ) {
            (Some(lists), Some(flag)) => Some((lists, seq![flag])),
            _ => None,
        }
    }
}

/// The signatures that a text stands for: one in each of the parts between
/// its commas, and none at all where a part holds none.
pub open spec fn read_all(s: Seq<char>) -> Option<Seq<Signature>> {
    let ps = pieces(s, ',');
    if forall|i: int| 0 <= i < ps.len() ==> (#[trigger] read_part(ps[i])) is Some {
        Some(Seq::new(ps.len(), |i: int| read_part(ps[i]).unwrap()))
    } else {
        None
    }
}

/// Finds the first word of a window.
fn get_word(text: &Vec<char>, lo: usize, hi: usize) -> (word: (usize, usize))
    requires
        lo <= hi <= text.len(),
    ensures
        lo <= word.0 <= word.1 <= hi,
        window(text@, word.0 as int, word.1 as int) == first_word(
            window(text@, lo as int, hi as int),
        ),
        window(text@, word.1 as int, hi as int) == after_word(window(text@, lo as int, hi as int)),
{
    let a = skip_front(text, lo, hi, Mark::Blank);
    let b = skip_front(text, a, hi, Mark::Word);
    proof {
        let t = window(text@, a as int, hi as int);
        assert(window(text@, a as int, b as int) =~= t.take(b - a));
    }
    (a, b)
}

/// Reads the signature of one part of a text.
pub fn get_part(text: &Vec<char>, lo: usize, hi: usize) -> (res: Option<PermInfo>)
    requires
        lo <= hi <= text.len(),
    ensures
        match res {
            Some(info) => read_part(window(text@, lo as int, hi as int)) == Some(held(info)),
            None => read_part(window(text@, lo as int, hi as int)) is None,
        },
{
    let a = skip_front(text, lo, hi, Mark::Blank);
    let b = skip_back(text, a, hi, Mark::Blank);
    let c = skip_front(text, a, b, Mark::Open);
    let d = skip_back(text, c, b, Mark::Close);
    let first = get_word(text, c, d);
    let second = get_word(text, first.1, d);
    if first.0 == first.1 || second.0 == second.1 {
        return None;
    }
    let e = skip_front(text, first.0, first.1, Mark::Open);
    let f = skip_back(text, e, first.1, Mark::Close);
    let lists = get_ranks(text, e, f);
    let flag = get_truth(text, second.0, second.1);
    match (lists, flag) {
        (Some(lists), Some(flag)) => {
            let mut flags: Vec<bool> = Vec::new();
            flags.push(flag);
            proof {
                assert(flags@ =~= seq![flag]);
            }
            Some(PermInfo { perm: lists, flags })
        },
        _ => None,
    }
}

/// Reads the signatures that a text stands for, one from each of the parts
/// between its commas. There is no result where a part holds no signature:
/// where it has no two words, where a register is no number of one byte, or
/// where the flag is neither `true` nor `false`.
pub fn parse_signatures(text: &Vec<char>) -> (res: Option<Vec<PermInfo>>)
    ensures
        match res {
            Some(infos) => read_all(text@) == Some(all_held(infos@)),
            None => read_all(text@) is None,
        },
{
    let wins = split(text, 0, text.len(), ',');
    let ghost ps = pieces(text@, ',');
    proof {
        assert(window(text@, 0, text.len() as int) =~= text@);
    }
    let mut infos: Vec<PermInfo> = Vec::new();
    let mut i: usize = 0;
    while i < wins.len()
        invariant
            i <= wins.len(),
            ps == pieces(text@, ','),
            window(text@, 0, text.len() as int) == text@,
            cut_into(text@, 0, text.len() as int, ',', wins@),
            infos.len() == i,
            forall|j: int| 0 <= j < i ==> (#[trigger] read_part(ps[j])) is Some,
            forall|j: int| 0 <= j < i ==> held(#[trigger] infos@[j]) == read_part(ps[j]).unwrap(),
        decreases wins.len() - i,
    {
        let (a, b) = wins[i];
        proof {
            assert(window(text@, wins@[i as int].0 as int, wins@[i as int].1 as int) == ps[i as int]);
        }
        match get_part(text, a, b) {
            None => {
                proof {
                    assert(read_part(ps[i as int]) is None);
                }
                return None;
            },
            Some(info) => {
                infos.push(info);
            },
        }
        i += 1;
    }
    proof {
        assert(all_held(infos@) =~= Seq::new(ps.len(), |i: int| read_part(ps[i]).unwrap()));
    }
    Some(infos)
}

/// A comma and a blank: what stands between the items of a written list.
pub open spec fn comma_blank() -> Seq<char> {
    seq![',', ' ']
}

/// A text in square brackets.
pub open spec fn framed(s: Seq<char>) -> Seq<char> {
    seq!['['] + s + seq![']']
}

/// A list of numbers as it is written.
pub open spec fn show_nums(l: Seq<u8>) -> Seq<char> {
    framed(joined(Seq::new(l.len(), |i: int| decimal(l[i] as nat)), comma_blank()))
}

/// A list of lists of numbers as it is written.
pub open spec fn show_lists(ls: Seq<Seq<u8>>) -> Seq<char> {
    framed(joined(Seq::new(ls.len(), |i: int| show_nums(ls[i])), comma_blank()))
}

/// A flag as it is written.
pub open spec fn truth_word(f: bool) -> Seq<char> {
    if f {
        seq!['t', 'r', 'u', 'e']
    } else {
        seq!['f', 'a', 'l', 's', 'e']
    }
}

/// A list of flags as it is written.
pub open spec fn show_flags(fs: Seq<bool>) -> Seq<char> {
    framed(joined(Seq::new(fs.len(), |i: int| truth_word(fs[i])), comma_blank()))
}

/// A signature as it is written: its lists, a blank, its flags.
pub open spec fn show_one(sig: Signature) -> Seq<char> {
    show_lists(sig.0) + seq![' '] + show_flags(sig.1)
}

/// Signatures as they are written: each in square brackets, a comma and a
/// blank between them.
pub open spec fn show_all(sigs: Seq<Signature>) -> Seq<char> {
    joined(Seq::new(sigs.len(), |i: int| framed(show_one(sigs[i]))), comma_blank())
}

/// One more item joins the items before it behind a separator, the first
/// without one.
pub proof fn lemma_joined_next(items: Seq<Seq<char>>, sep: Seq<char>, i: int)
    requires
        0 <= i < items.len(),
    ensures
        joined(items.take(i + 1), sep) == if i == 0 {
            items[0]
        } else {
            joined(items.take(i), sep) + sep + items[i]
        },
{
    let t = items.take(i + 1);
    assert(t.last() == items[i]);
    assert(t.drop_last() =~= items.take(i));
}

/// The character of a decimal digit.
fn digit_char(d: u8) -> (c: char)
    requires
        d < 10,
    ensures
        seq![c] == digit(d as int),
{
    proof {
        reveal_strlit("0");
        reveal_strlit("1");
        reveal_strlit("2");
        reveal_strlit("3");
        reveal_strlit("4");
        reveal_strlit("5");
        reveal_strlit("6");
        reveal_strlit("7");
        reveal_strlit("8");
        reveal_strlit("9");
    }
    let c = if d == 0 {
        '0'
    } else if d == 1 {
        '1'
    } else if d == 2 {
        '2'
    } else if d == 3 {
        '3'
    } else if d == 4 {
        '4'
    } else if d == 5 {
        '5'
    } else if d == 6 {
        '6'
    } else if d == 7 {
        '7'
    } else if d == 8 {
        '8'
    } else {
        '9'
    };
    proof {
        assert(seq![c] =~= digit(d as int));
    }
    c
}

/// Writes a number in decimal digits.
fn put_decimal(out: &mut Vec<char>, n: u8)
    ensures
        final(out)@ == old(out)@ + decimal(n as nat),
{
    if n >= 100 {
        let c = digit_char(n / 100);
        out.push(c);
    }
    if n >= 10 {
        let c = digit_char((n / 10) % 10);
        out.push(c);
    }
    let c = digit_char(n % 10);
    out.push(c);
    proof {
        let v = n as nat;
        if n >= 100 {
            assert(decimal(v / 10) == decimal(v / 10 / 10) + digit((v / 10 % 10) as int));
            assert(v / 10 / 10 == v / 100);
            assert(decimal(v / 100) == digit((v / 100) as int));
            assert(out@ =~= old(out)@ + decimal(v));
        } else if n >= 10 {
            assert(decimal(v / 10) == digit((v / 10) as int));
            assert(out@ =~= old(out)@ + decimal(v));
        } else {
            assert(out@ =~= old(out)@ + decimal(v));
        }
    }
}

/// Writes a comma and a blank before every item but the first.
fn put_between(out: &mut Vec<char>, i: usize)
    ensures
        final(out)@ == old(out)@ + if i == 0 {
            Seq::<char>::empty()
        } else {
            comma_blank()
        },
{
    if i != 0 {
        out.push(',');
        out.push(' ');
    }
    proof {
        assert(out@ =~= old(out)@ + if i == 0 {
            Seq::<char>::empty()
        } else {
            comma_blank()
        });
    }
}

/// Writes a list of numbers.
fn put_nums(out: &mut Vec<char>, l: &Vec<u8>)
    ensures
        final(out)@ == old(out)@ + show_nums(l@),
{
    let ghost items = Seq::new(l@.len(), |i: int| decimal(l@[i] as nat));
    out.push('[');
    let mut i: usize = 0;
    proof {
        assert(items.take(0) =~= Seq::<Seq<char>>::empty());
        assert(out@ =~= old(out)@ + seq!['['] + joined(items.take(0), comma_blank()));
    }
    while i < l.len()
        invariant
            i <= l.len(),
            items == Seq::new(l@.len(), |i: int| decimal(l@[i] as nat)),
            out@ == old(out)@ + seq!['['] + joined(items.take(i as int), comma_blank()),
        decreases l.len() - i,
    {
        let ghost before = out@;
        put_between(out, i);
        put_decimal(out, l[i]);
        proof {
            lemma_joined_next(items, comma_blank(), i as int);
            assert(out@ =~= old(out)@ + seq!['['] + joined(items.take(i + 1), comma_blank()));
        }
        i += 1;
    }
    out.push(']');
    proof {
        assert(items.take(i as int) =~= items);
        assert(out@ =~= old(out)@ + show_nums(l@));
    }
}

/// Writes a list of lists of numbers.
fn put_lists(out: &mut Vec<char>, ls: &State)
    ensures
        final(out)@ == old(out)@ + show_lists(rows(*ls)),
{
    let ghost items = Seq::new(ls@.len(), |i: int| show_nums(rows(*ls)[i]));
    out.push('[');
    let mut i: usize = 0;
    proof {
        assert(items.take(0) =~= Seq::<Seq<char>>::empty());
        assert(out@ =~= old(out)@ + seq!['['] + joined(items.take(0), comma_blank()));
    }
    while i < ls.len()
        invariant
            i <= ls.len(),
            items == Seq::new(ls@.len(), |i: int| show_nums(rows(*ls)[i])),
            out@ == old(out)@ + seq!['['] + joined(items.take(i as int), comma_blank()),
        decreases ls.len() - i,
    {
        put_between(out, i);
        put_nums(out, &ls[i]);
        proof {
            assert(rows(*ls)[i as int] == ls@[i as int]@);
            lemma_joined_next(items, comma_blank(), i as int);
            assert(out@ =~= old(out)@ + seq!['['] + joined(items.take(i + 1), comma_blank()));
        }
        i += 1;
    }
    out.push(']');
    proof {
        assert(items.take(i as int) =~= items);
        assert(rows(*ls).len() == ls@.len());
        assert(out@ =~= old(out)@ + show_lists(rows(*ls)));
    }
}

/// Writes a flag.
fn put_truth(out: &mut Vec<char>, f: bool)
    ensures
        final(out)@ == old(out)@ + truth_word(f),
{
    if f {
        out.push('t');
        out.push('r');
        out.push('u');
        out.push('e');
    } else {
        out.push('f');
        out.push('a');
        out.push('l');
        out.push('s');
        out.push('e');
    }
    proof {
        assert(out@ =~= old(out)@ + truth_word(f));
    }
}

/// Writes a list of flags.
fn put_flags(out: &mut Vec<char>, fs: &Vec<bool>)
    ensures
        final(out)@ == old(out)@ + show_flags(fs@),
{
    let ghost items = Seq::new(fs@.len(), |i: int| truth_word(fs@[i]));
    out.push('[');
    let mut i: usize = 0;
    proof {
        assert(items.take(0) =~= Seq::<Seq<char>>::empty());
        assert(out@ =~= old(out)@ + seq!['['] + joined(items.take(0), comma_blank()));
    }
    while i < fs.len()
        invariant
            i <= fs.len(),
            items == Seq::new(fs@.len(), |i: int| truth_word(fs@[i])),
            out@ == old(out)@ + seq!['['] + joined(items.take(i as int), comma_blank()),
        decreases fs.len() - i,
    {
        put_between(out, i);
        put_truth(out, fs[i]);
        proof {
            lemma_joined_next(items, comma_blank(), i as int);
            assert(out@ =~= old(out)@ + seq!['['] + joined(items.take(i + 1), comma_blank()));
        }
        i += 1;
    }
    out.push(']');
    proof {
        assert(items.take(i as int) =~= items);
        assert(out@ =~= old(out)@ + show_flags(fs@));
    }
}

/// Writes a signature.
fn put_signature(out: &mut Vec<char>, info: &PermInfo)
    ensures
        final(out)@ == old(out)@ + show_one(held(*info)),
{
    put_lists(out, &info.perm);
    out.push(' ');
    put_flags(out, &info.flags);
    proof {
        assert(out@ =~= old(out)@ + show_one(held(*info)));
    }
}

/// A signature as text: its lists, a blank, its flags.
pub fn show_signature(info: &PermInfo) -> (text: Vec<char>)
    ensures
        text@ == show_one(held(*info)),
{
    let mut out: Vec<char> = Vec::new();
    put_signature(&mut out, info);
    proof {
        assert(out@ =~= show_one(held(*info)));
    }
    out
}

/// Signatures as text: each in square brackets, a comma and a blank between
/// them.
pub fn show_signatures(infos: &Vec<PermInfo>) -> (text: Vec<char>)
    ensures
        text@ == show_all(all_held(infos@)),
{
    let ghost items = Seq::new(infos@.len(), |i: int| framed(show_one(held(infos@[i]))));
    let mut out: Vec<char> = Vec::new();
    let mut i: usize = 0;
    proof {
        assert(items.take(0) =~= Seq::<Seq<char>>::empty());
        assert(out@ =~= joined(items.take(0), comma_blank()));
    }
    while i < infos.len()
        invariant
            i <= infos.len(),
            items == Seq::new(infos@.len(), |i: int| framed(show_one(held(infos@[i])))),
            out@ == joined(items.take(i as int), comma_blank()),
        decreases infos.len() - i,
    {
        put_between(&mut out, i);
        out.push('[');
        put_signature(&mut out, &infos[i]);
        out.push(']');
        proof {
            lemma_joined_next(items, comma_blank(), i as int);
            assert(out@ =~= joined(items.take(i + 1), comma_blank()));
        }
        i += 1;
    }
    proof {
        assert(items.take(i as int) =~= items);
        assert(items =~= Seq::new(
            all_held(infos@).len(),
            |i: int| framed(show_one(all_held(infos@)[i])),
        ));
    }
    out
}

} // verus!
