use vstd::prelude::*;
use vstd::string::*;

verus! {

/// Whether `c` is one of the ten ASCII decimal digits.
pub open spec fn is_digit(c: char) -> bool {
    '0' <= c && c <= '9'
}

/// The number that the decimal digit `c` stands for.
pub open spec fn digit_value(c: char) -> nat
    recommends
        is_digit(c),
{
    (c as int - '0' as int) as nat
}

/// The decimal digit that stands for `d`.
pub open spec fn digit_char(d: nat) -> char
    recommends
        d < 10,
{
    (d + 48) as u8 as char
}

/// The number written by a run of decimal digits, most significant digit
/// first. The empty run writes 0.
pub open spec fn decimal_value(digits: Seq<char>) -> nat
    decreases digits.len(),
{
    if digits.len() == 0 {
        0
    } else {
        decimal_value(digits.drop_last()) * 10 + digit_value(digits.last())
    }
}

/// The shortest decimal writing of `n`: no sign, no leading zero but for 0
/// itself.
pub open spec fn decimal_text(n: nat) -> Seq<char>
    decreases n,
{
    if n < 10 {
        seq![digit_char(n)]
    } else {
        decimal_text(n / 10).push(digit_char(n % 10))
    }
}

/// Whether every character of `text` is a decimal digit.
pub open spec fn all_digits(text: Seq<char>) -> bool {
    forall|i: int| 0 <= i < text.len() ==> is_digit(#[trigger] text[i])
}

/// The characters of `text`, in order.
pub(crate) fn chars_of(text: &str) -> (chars: Vec<char>)
    ensures
        chars@ == text@,
{
    broadcast use vstd::string::group_string_axioms;

    let mut chars: Vec<char> = Vec::new();
    for c in it: text.chars()
        invariant
            it.seq() == text@,
            chars@ == text@.take(it.index()),
    {
        chars.push(c);
    }
    assert(text@.take(text@.len() as int) == text@);
    chars
}

/// The one-character text of the digit `d`.
fn digit_str(d: u8) -> (s: &'static str)
    requires
        d < 10,
    ensures
        s@ == seq![digit_char(d as nat)],
{
    proof {
        reveal_strlit("0");
        reveal_strlit("1");
        reveal_strlit("2");
        reveal_strlit("3");
        reveal_strlit("4");
        reveal_strlit("5");
        reveal_strlit("6");
        reveal_strlit("7");
        reveal_strlit("8");
        reveal_strlit("9");
    }
    let s = match d {
        0 => "0",
        1 => "1",
        2 => "2",
        3 => "3",
        4 => "4",
        5 => "5",
        6 => "6",
        7 => "7",
        8 => "8",
        _ => "9",
    };
    assert(s@ =~= seq![digit_char(d as nat)]);
    s
}

/// Appends the decimal writing of `n` to `out`.
pub(crate) fn push_decimal(out: &mut String, n: u128)
    ensures
        final(out)@ == old(out)@ + decimal_text(n as nat),
    decreases n,
{
    if n >= 10 {
        push_decimal(out, n / 10);
        out.append(digit_str((n % 10) as u8));
        assert(out@ =~= old(out)@ + decimal_text(n as nat));
    } else {
        out.append(digit_str(n as u8));
    }
}

/// Whether `marker` stands in `text` at position `at`.
pub open spec fn occurs_at(text: Seq<char>, marker: Seq<char>, at: int) -> bool {
    &&& 0 <= at
    &&& at + marker.len() <= text.len()
    &&& text.subrange(at, at + marker.len()) == marker
}

/// `text` with every occurrence of `marker` replaced by `content`.
/// Occurrences are found from the left and do not overlap; what was put in
/// is not searched again. With an empty marker the text stays as it is.
pub open spec fn replaced(text: Seq<char>, marker: Seq<char>, content: Seq<char>) -> Seq<char>
    decreases text.len(),
{
    if marker.len() == 0 || text.len() < marker.len() {
        text
    } else if occurs_at(text, marker, 0) {
        content + replaced(text.skip(marker.len() as int), marker, content)
    } else {
        text.take(1) + replaced(text.skip(1), marker, content)
    }
}

/// Whether `marker` stands in `text` at position `at`.
fn found_at(text: &Vec<char>, marker: &Vec<char>, at: usize) -> (found: bool)
    requires
        at + marker.len() <= text.len(),
    ensures
        found == occurs_at(text@, marker@, at as int),
{
    let mut k: usize = 0;
    while k < marker.len()
        invariant
            k <= marker.len(),
            at + marker.len() <= text.len(),
            forall|j: int| 0 <= j < k ==> text@[at + j] == marker@[j],
        decreases marker.len() - k,
    {
        if text[at + k] != marker[k] {
            assert(text@.subrange(at as int, at + marker.len())[k as int] != marker@[k as int]);
            return false;
        }
        k += 1;
    }
    assert(text@.subrange(at as int, at + marker.len()) =~= marker@);
    true
}

/// One step of a replacement: at a position where the marker stands the
/// content goes in and the marker is passed over; elsewhere one character
/// is kept.
proof fn lemma_replaced_step(text: Seq<char>, marker: Seq<char>, content: Seq<char>, at: int)
    requires
        marker.len() > 0,
        0 <= at,
        at + marker.len() <= text.len(),
    ensures
        occurs_at(text, marker, at) ==> replaced(text.skip(at), marker, content) == content
            + replaced(text.skip(at + marker.len()), marker, content),
        !occurs_at(text, marker, at) ==> replaced(text.skip(at), marker, content)
            == text.subrange(at, at + 1) + replaced(text.skip(at + 1), marker, content),
{
    let rest = text.skip(at);
    assert(rest.subrange(0, marker.len() as int) =~= text.subrange(at, at + marker.len()));
    assert(rest.skip(marker.len() as int) =~= text.skip(at + marker.len()));
    assert(rest.skip(1) =~= text.skip(at + 1));
    assert(rest.take(1) =~= text.subrange(at, at + 1));
}

/// A marker that stands nowhere in a text leaves the text as it is.
pub proof fn lemma_replaced_without_marker(
    text: Seq<char>,
    marker: Seq<char>,
    content: Seq<char>,
)
    requires
        forall|at: int| !occurs_at(text, marker, at),
    ensures
        replaced(text, marker, content) == text,
    decreases text.len(),
{
    if marker.len() > 0 && text.len() >= marker.len() {
        let rest = text.skip(1);
        assert forall|at: int| !occurs_at(rest, marker, at) by {
            if occurs_at(rest, marker, at) {
                assert(text.subrange(at + 1, at + 1 + marker.len()) =~= rest.subrange(
                    at,
                    at + marker.len(),
                ));
                assert(occurs_at(text, marker, at + 1));
            }
        }
        lemma_replaced_without_marker(rest, marker, content);
        assert(!occurs_at(text, marker, 0));
        assert(text.take(1) + rest =~= text);
    }
}

/// `text` with every occurrence of `marker` replaced by `content`, as
/// [`replaced`] defines it. A marker that does not occur leaves the text
/// unchanged, and so does an empty marker.
pub fn substitute(text: &str, marker: &str, content: &str) -> (out: String)
    ensures
        out@ == replaced(text@, marker@, content@),
{
    let chars = chars_of(text);
    let mark = chars_of(marker);
    if mark.len() == 0 || chars.len() < mark.len() {
        return String::from_str(text);
    }
    let mut out = String::new();
    let mut kept: usize = 0;
    let mut at: usize = 0;
    assert(out@ + text@.subrange(0, 0) + replaced(text@.skip(0), marker@, content@) =~= replaced(
        text@,
        marker@,
        content@,
    )) by {
        assert(text@.skip(0) =~= text@);
    }
    while at <= chars.len() - mark.len()
        invariant
            chars@ == text@,
            mark@ == marker@,
            0 < mark.len() <= chars.len(),
            kept <= at <= chars.len(),
            out@ + text@.subrange(kept as int, at as int) + replaced(
                text@.skip(at as int),
                marker@,
                content@,
            ) == replaced(text@, marker@, content@),
        decreases chars.len() - at,
    {
        proof {
            lemma_replaced_step(text@, marker@, content@, at as int);
        }
        let ghost before = out@ + text@.subrange(kept as int, at as int);
        if found_at(&chars, &mark, at) {
            out.append(text.substring_char(kept, at));
            out.append(content);
            at = at + mark.len();
            kept = at;
            assert(out@ + text@.subrange(kept as int, at as int) + replaced(
                text@.skip(at as int),
                marker@,
                content@,
            ) =~= before + (content@ + replaced(text@.skip(at as int), marker@, content@)));
        } else {
            at = at + 1;
            assert(out@ + text@.subrange(kept as int, at as int) + replaced(
                text@.skip(at as int),
                marker@,
                content@,
            ) =~= before + (text@.subrange(at - 1, at as int) + replaced(
                text@.skip(at as int),
                marker@,
                content@,
            )));
        }
    }
    out.append(text.substring_char(kept, chars.len()));
    assert(out@ =~= replaced(text@, marker@, content@)) by {
        assert(text@.subrange(kept as int, at as int) + text@.skip(at as int) =~= text@.subrange(
            kept as int,
            text@.len() as int,
        ));
    }
    out
}

} // verus!
