//! Texts as sequences of characters.

use vstd::prelude::*;
use vstd::string::*;

verus! {

/// The digit that stands for a number below ten.
pub open spec fn digit(n: nat) -> Seq<char> {
    if n == 0 {
        "0"@
    } else if n == 1 {
        "1"@
    } else if n == 2 {
        "2"@
    } else if n == 3 {
        "3"@
    } else if n == 4 {
        "4"@
    } else if n == 5 {
        "5"@
    } else if n == 6 {
        "6"@
    } else if n == 7 {
        "7"@
    } else if n == 8 {
        "8"@
    } else {
        "9"@
    }
}

/// A number in decimal.
pub open spec fn decimal(n: nat) -> Seq<char>
    decreases n,
{
    if n < 10 {
        digit(n)
    } else {
        decimal(n / 10) + digit(n % 10)
    }
}

fn digit_str(n: usize) -> (text: &'static str)
    requires
        n < 10,
    ensures
        text@ == digit(n as nat),
{
    if n == 0 {
        "0"
    } else if n == 1 {
        "1"
    } else if n == 2 {
        "2"
    } else if n == 3 {
        "3"
    } else if n == 4 {
        "4"
    } else if n == 5 {
        "5"
    } else if n == 6 {
        "6"
    } else if n == 7 {
        "7"
    } else if n == 8 {
        "8"
    } else {
        "9"
    }
}

/// Writes a number in decimal.
pub fn decimal_string(n: usize) -> (text: String)
    ensures
        text@ == decimal(n as nat),
    decreases n,
{
    if n < 10 {
        digit_str(n).to_owned()
    } else {
        let mut text = decimal_string(n / 10);
        text.append(digit_str(n % 10));
        text
    }
}

/// The characters of a text.
pub fn characters(text: &str) -> (chars: Vec<char>)
    ensures
        chars@ == text@,
{
    let mut chars: Vec<char> = Vec::new();
    for c in iter: text.chars()
        invariant
            iter.seq() == text@,
            chars@ == text@.take(iter.index()),
    {
        chars.push(c);
        assert(text@.take(iter.index() + 1) =~= text@.take(iter.index()).push(c));
    }
    assert(text@.take(text@.len() as int) =~= text@);
    chars
}

/// A character in lower case, if it is an ASCII letter.
pub open spec fn lower(c: char) -> char {
    if 'A' <= c <= 'Z' {
        (c as u8 + 32) as char
    } else {
        c
    }
}

/// A text with its ASCII letters in lower case.
pub open spec fn lowered(text: Seq<char>) -> Seq<char> {
    text.map_values(|c: char| lower(c))
}

/// The characters of a text, with ASCII letters in lower case.
pub fn lower_characters(text: &str) -> (chars: Vec<char>)
    ensures
        chars@ == lowered(text@),
{
    let mut chars: Vec<char> = Vec::new();
    for c in iter: text.chars()
        invariant
            iter.seq() == text@,
            chars@ == lowered(text@.take(iter.index())),
    {
        chars.push(
            if 'A' <= c && c <= 'Z' {
                (c as u8 + 32) as char
            } else {
                c
            },
        );
        assert(lowered(text@.take(iter.index() + 1)) =~= lowered(text@.take(iter.index())).push(
            lower(c),
        ));
    }
    assert(text@.take(text@.len() as int) =~= text@);
    chars
}

/// The lines of a text, split at newlines. A carriage return before a newline
/// stays with its line.
pub open spec fn split_lines(text: Seq<char>) -> Seq<Seq<char>>
    decreases text.len(),
{
    if text.len() == 0 {
        seq![Seq::empty()]
    } else {
        let lines = split_lines(text.drop_last());
        if text.last() == '\n' {
            lines.push(Seq::empty())
        } else {
            lines.drop_last().push(lines.last().push(text.last()))
        }
    }
}

/// `text` begins with `prefix`.
pub open spec fn begins_with(text: Seq<char>, prefix: Seq<char>) -> bool {
    prefix.len() <= text.len() && text.take(prefix.len() as int) == prefix
}

/// `part` stands in `text` at position `i`.
pub open spec fn stands_at(text: Seq<char>, part: Seq<char>, i: int) -> bool {
    0 <= i && i + part.len() <= text.len() && text.subrange(i, i + part.len()) == part
}

/// `part` occurs in `text`.
pub open spec fn occurs_in(text: Seq<char>, part: Seq<char>) -> bool {
    exists|i: int| stands_at(text, part, i)
}

/// A line of `text` begins at position `i`, with `part`.
pub open spec fn opens_line(text: Seq<char>, part: Seq<char>, i: int) -> bool {
    stands_at(text, part, i) && (i == 0 || text[i - 1] == '\n')
}

/// A line of `text` begins with `part`.
pub open spec fn has_line(text: Seq<char>, part: Seq<char>) -> bool {
    exists|i: int| opens_line(text, part, i)
}

/// Whether `part` stands in `text` at position `i`.
fn stands(text: &Vec<char>, part: &Vec<char>, i: usize) -> (found: bool)
    requires
        i <= text.len(),
    ensures
        found == stands_at(text@, part@, i as int),
{
    if part.len() > text.len() - i {
        return false;
    }
    let mut k: usize = 0;
    while k < part.len()
        invariant
            k <= part.len(),
            i + part.len() <= text.len(),
            forall|j: int| 0 <= j < k ==> text[i + j] == part[j],
        decreases part.len() - k,
    {
        if text[i + k] != part[k] {
            proof {
                let window = text@.subrange(i as int, i + part@.len());
                assert(window[k as int] == text[i + k]);
            }
            return false;
        }
        k = k + 1;
    }
    assert(text@.subrange(i as int, i + part@.len()) =~= part@);
    true
}

/// Whether `text` begins with `prefix`.
pub fn begins(text: &Vec<char>, prefix: &Vec<char>) -> (found: bool)
    ensures
        found == begins_with(text@, prefix@),
{
    let found = stands(text, prefix, 0);
    proof {
        if prefix@.len() <= text@.len() {
            assert(text@.subrange(0, prefix@.len() as int) =~= text@.take(prefix@.len() as int));
        }
    }
    found
}

/// Whether a line of `text` begins with `part`.
pub fn finds_line(text: &Vec<char>, part: &Vec<char>) -> (found: bool)
    ensures
        found == has_line(text@, part@),
{
    let mut i: usize = 0;
    while i < text.len()
        invariant
            i <= text.len(),
            forall|j: int| 0 <= j < i ==> !opens_line(text@, part@, j),
        decreases text.len() - i,
    {
        if (i == 0 || text[i - 1] == '\n') && stands(text, part, i) {
            assert(opens_line(text@, part@, i as int));
            return true;
        }
        i = i + 1;
    }
    let last = (i == 0 || text[i - 1] == '\n') && stands(text, part, i);
    proof {
        if last {
            assert(opens_line(text@, part@, i as int));
        }
    }
    last
}

/// Whether `part` occurs in `text` at position `from` or later.
pub fn occurs(text: &Vec<char>, part: &Vec<char>, from: usize) -> (found: bool)
    requires
        from <= text.len(),
    ensures
        found == occurs_in(text@.skip(from as int), part@),
{
    let ghost rest = text@.skip(from as int);
    let mut i: usize = from;
    while i <= text.len()
        invariant
            from <= i <= text.len() + 1,
            rest == text@.skip(from as int),
            forall|j: int| 0 <= j < i - from ==> !stands_at(rest, part@, j),
        decreases text.len() + 1 - i,
    {
        proof {
            let j = i - from;
            if 0 <= j && j + part@.len() <= rest.len() {
                assert(rest.subrange(j, j + part@.len()) =~= text@.subrange(
                    i as int,
                    i + part@.len(),
                ));
            }
        }
        if stands(text, part, i) {
            assert(stands_at(rest, part@, i - from));
            return true;
        }
        if i == text.len() {
            assert forall|j: int| !stands_at(rest, part@, j) by {}
            return false;
        }
        i = i + 1;
    }
    false
}

/// The number that a text of decimal digits stands for.
pub open spec fn decimal_value(text: Seq<char>) -> nat
    decreases text.len(),
{
    if text.len() == 0 {
        0
    } else {
        (decimal_value(text.drop_last()) * 10 + (text.last() as int - 48)) as nat
    }
}

/// A number in decimal stands for that number, is made of digits, and begins with a zero
/// only if it is one.
pub proof fn law_decimal_reads_back(n: nat)
    ensures
        decimal_value(decimal(n)) == n,
        decimal(n).len() > 0,
        forall|i: int|
            0 <= i < decimal(n).len() ==> 48 <= (#[trigger] decimal(n)[i]) as int && decimal(
                n,
            )[i] as int <= 57,
        n > 0 ==> decimal(n)[0] as int > 48,
    decreases n,
{
    reveal_strlit("0");
    reveal_strlit("1");
    reveal_strlit("2");
    reveal_strlit("3");
    reveal_strlit("4");
    reveal_strlit("5");
    reveal_strlit("6");
    reveal_strlit("7");
    reveal_strlit("8");
    reveal_strlit("9");
    let text = decimal(n);
    if n < 10 {
        assert(text.drop_last() =~= Seq::empty());
        assert(decimal_value(text.drop_last()) == 0);
    } else {
        law_decimal_reads_back(n / 10);
        assert(text.drop_last() =~= decimal(n / 10));
    }
}

/// A capital ASCII letter becomes the small one, and every other character stays.
pub proof fn law_lowered_keeps_others(text: Seq<char>, i: int)
    requires
        0 <= i < text.len(),
    ensures
        lowered(text).len() == text.len(),
        65 <= text[i] as int && text[i] as int <= 90 ==> lowered(text)[i] as int == text[i] as int
            + 32,
        (text[i] as int) < 65 || text[i] as int > 90 ==> lowered(text)[i] == text[i],
{
}

/// Lines put together with a newline between any two.
pub open spec fn rejoined(lines: Seq<Seq<char>>) -> Seq<char>
    decreases lines.len(),
{
    if lines.len() == 0 {
        Seq::empty()
    } else if lines.len() == 1 {
        lines[0]
    } else {
        rejoined(lines.drop_last()).push('\n') + lines.last()
    }
}

/// Splitting a text into lines loses nothing: with newlines between them the lines are the
/// text again, and no line holds a newline.
pub proof fn law_lines_rejoin(text: Seq<char>)
    ensures
        split_lines(text).len() > 0,
        rejoined(split_lines(text)) == text,
        forall|i: int, j: int|
            0 <= i < split_lines(text).len() && 0 <= j < split_lines(text)[i].len()
                ==> #[trigger] split_lines(text)[i][j] != '\n',
    decreases text.len(),
{
    let lines = split_lines(text);
    if text.len() > 0 {
        let before = split_lines(text.drop_last());
        law_lines_rejoin(text.drop_last());
        assert(text =~= text.drop_last().push(text.last()));
        if text.last() == '\n' {
            assert(lines.drop_last() =~= before);
            assert(rejoined(lines) =~= text);
        } else {
            assert(lines.drop_last() =~= before.drop_last());
            let last = before.last().push(text.last());
            assert(lines.last() == last);
            if lines.len() == 1 {
                assert(rejoined(before) == before[0]);
                assert(rejoined(lines) =~= text);
            } else {
                assert(rejoined(lines) =~= rejoined(before).push(text.last()));
            }
            assert forall|i: int, j: int|
                0 <= i < lines.len() && 0 <= j < lines[i].len() implies #[trigger] lines[i][j]
                != '\n' by {
                if i < lines.len() - 1 {
                    assert(lines[i] == before[i]);
                    assert(before[i][j] != '\n');
                } else if j < before.last().len() {
                    assert(lines[i] == last);
                    assert(before[before.len() - 1][j] != '\n');
                }
            }
        }
        if text.last() == '\n' {
            assert forall|i: int, j: int|
                0 <= i < lines.len() && 0 <= j < lines[i].len() implies #[trigger] lines[i][j]
                != '\n' by {
                if i < lines.len() - 1 {
                    assert(lines[i] == before[i]);
                    assert(before[i][j] != '\n');
                }
            }
        }
    } else {
        assert(rejoined(lines) =~= text);
    }
}

/// A part that holds no newline opens a line of a text exactly if the text begins with it,
/// or it stands behind a newline.
pub proof fn law_line_opens_anywhere(before: Seq<char>, part: Seq<char>, after: Seq<char>)
    ensures
        has_line(part + after, part),
        has_line(before.push('\n') + part + after, part),
        has_line(before, part) ==> begins_with(before, part) || occurs_in(
            before,
            seq!['\n'] + part,
        ),
{
    let first = part + after;
    assert(first.subrange(0, part.len() as int) =~= part);
    assert(opens_line(first, part, 0));
    let later = before.push('\n') + part + after;
    let i = before.len() as int + 1;
    assert(later.subrange(i, i + part.len()) =~= part);
    assert(later[i - 1] == '\n');
    assert(opens_line(later, part, i));
    if has_line(before, part) {
        let k = choose|k: int| opens_line(before, part, k);
        if k == 0 {
            assert(before.take(part.len() as int) =~= before.subrange(0, part.len() as int));
        } else {
            let whole = seq!['\n'] + part;
            assert(before.subrange(k - 1, k - 1 + whole.len()) =~= whole) by {
                assert(before.subrange(k, k + part.len()) == part);
                assert forall|j: int| 0 <= j < whole.len() implies before.subrange(
                    k - 1,
                    k - 1 + whole.len(),
                )[j] == whole[j] by {
                    if j > 0 {
                        assert(before.subrange(k, k + part.len())[j - 1] == part[j - 1]);
                    }
                }
            }
            assert(stands_at(before, whole, k - 1));
        }
    }
}

/// A part occurs in a text exactly if the text is that part with something before and
/// after it.
pub proof fn law_occurs_anywhere(
    before: Seq<char>,
    part: Seq<char>,
    after: Seq<char>,
    text: Seq<char>,
)
    ensures
        occurs_in(before + part + after, part),
        occurs_in(text, part) ==> exists|i: int|
            0 <= i && i + part.len() <= text.len() && text == #[trigger] text.take(i) + part
                + text.skip(i + part.len()),
        begins_with(part + after, part),
        begins_with(text, part) ==> text == part + text.skip(part.len() as int),
{
    let whole = before + part + after;
    let at = before.len() as int;
    assert(whole.subrange(at, at + part.len()) =~= part);
    assert(stands_at(whole, part, at));
    assert((part + after).take(part.len() as int) =~= part);
    if occurs_in(text, part) {
        let i = choose|i: int| stands_at(text, part, i);
        assert(text =~= text.take(i) + text.subrange(i, i + part.len()) + text.skip(
            i + part.len(),
        ));
    }
    if begins_with(text, part) {
        assert(text =~= text.take(part.len() as int) + text.skip(part.len() as int));
    }
}

} // verus!
