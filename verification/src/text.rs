//! Numbers written out in decimal digits.

use vstd::prelude::*;
use vstd::string::StringExecFns;

verus! {

/// The character of a decimal digit.
pub open spec fn digit(d: int) -> char {
    if d == 0 {
        '0'
    } else if d == 1 {
        '1'
    } else if d == 2 {
        '2'
    } else if d == 3 {
        '3'
    } else if d == 4 {
        '4'
    } else if d == 5 {
        '5'
    } else if d == 6 {
        '6'
    } else if d == 7 {
        '7'
    } else if d == 8 {
        '8'
    } else {
        '9'
    }
}

/// The digits of `n`, the most significant first, with no leading zero.
pub open spec fn decimal(n: nat) -> Seq<char>
    decreases n,
{
    if n < 10 {
        seq![digit(n as int)]
    } else {
        decimal(n / 10).push(digit((n % 10) as int))
    }
}

/// The digits of `n`, with zeros in front where they are fewer than `width`.
pub open spec fn padded(n: nat, width: nat) -> Seq<char> {
    let digits = decimal(n);
    if digits.len() >= width {
        digits
    } else {
        Seq::new((width - digits.len()) as nat, |i: int| '0') + digits
    }
}

fn digit_text(d: u64) -> (text: &'static str)
    requires
        d < 10,
    ensures
        text@ == seq![digit(d as int)],
{
    proof {
        reveal_strlit("0");
        reveal_strlit("1");
        reveal_strlit("2");
        reveal_strlit("3");
        reveal_strlit("4");
        reveal_strlit("5");
        reveal_strlit("6");
        reveal_strlit("7");
        reveal_strlit("8");
        reveal_strlit("9");
    }
    let text = if d == 0 {
        "0"
    } else if d == 1 {
        "1"
    } else if d == 2 {
        "2"
    } else if d == 3 {
        "3"
    } else if d == 4 {
        "4"
    } else if d == 5 {
        "5"
    } else if d == 6 {
        "6"
    } else if d == 7 {
        "7"
    } else if d == 8 {
        "8"
    } else {
        "9"
    };
    assert(text@ =~= seq![digit(d as int)]);
    text
}

/// Appends the digits of `n` to `out`.
pub fn push_decimal(out: &mut String, n: u64)
    ensures
        final(out)@ == old(out)@ + decimal(n as nat),
    decreases n,
{
    if n >= 10 {
        push_decimal(out, n / 10);
    }
    out.append(digit_text(n % 10));
    assert(out@ =~= old(out)@ + decimal(n as nat));
}

/// The number of digits of `n`.
pub fn digit_count(n: u64) -> (count: usize)
    ensures
        count == decimal(n as nat).len(),
        1 <= count <= 20,
    decreases n,
{
    if n < 10 {
        1
    } else {
        let shorter = digit_count(n / 10);
        proof {
            lemma_decimal_len(n as nat);
        }
        shorter + 1
    }
}

/// A number below ten to the `k` has at most `k` digits.
pub proof fn lemma_decimal_len(n: nat)
    ensures
        decimal(n).len() >= 1,
        n < 10 ==> decimal(n).len() == 1,
        n >= 10 ==> decimal(n).len() == decimal(n / 10).len() + 1,
        n <= u64::MAX ==> decimal(n).len() <= 20,
    decreases n,
{
    if n >= 10 {
        lemma_decimal_len(n / 10);
    }
    if n <= u64::MAX {
        reveal_with_fuel(decimal, 21);
    }
}

/// Appends the digits of `n` to `out`, with zeros in front where they are
/// fewer than `width`.
pub fn push_padded(out: &mut String, n: u64, width: usize)
    ensures
        final(out)@ == old(out)@ + padded(n as nat, width as nat),
{
    let count = digit_count(n);
    let mut written: usize = count;
    proof {
        reveal_strlit("0");
    }
    while written < width
        invariant
            count <= written,
            count == decimal(n as nat).len(),
            written <= width || written == count,
            "0"@ == seq!['0'],
            out@ == old(out)@ + Seq::new((written - count) as nat, |i: int| '0'),
        decreases width - written,
    {
        out.append("0");
        written = written + 1;
        assert(out@ =~= old(out)@ + Seq::new((written - count) as nat, |i: int| '0'));
    }
    push_decimal(out, n);
    assert(out@ =~= old(out)@ + padded(n as nat, width as nat));
}

/// The characters of `text`, one by one.
pub fn chars_of(text: &str) -> (chars: Vec<char>)
    ensures
        chars@ == text@,
{
    let mut chars: Vec<char> = Vec::new();
    for c in it: text.chars()
        invariant
            it.seq() == text@,
            chars@ == it.seq().take(it.index() as int),
    {
        chars.push(c);
        assert(chars@ =~= it.seq().take(it.index() + 1));
    }
    assert(chars@ =~= text@);
    chars
}

/// Whether `text` begins with `start`.
pub fn starts_with(text: &Vec<char>, start: &Vec<char>) -> (starts: bool)
    ensures
        starts == start@.is_prefix_of(text@),
{
    if start.len() > text.len() {
        return false;
    }
    let mut i: usize = 0;
    while i < start.len()
        invariant
            i <= start.len() <= text.len(),
            forall|j: int| 0 <= j < i ==> start@[j] == text@[j],
        decreases start.len() - i,
    {
        if start[i] != text[i] {
            assert(text@.subrange(0, start.len() as int)[i as int] != start@[i as int]);
            return false;
        }
        i = i + 1;
    }
    assert(start@ =~= text@.subrange(0, start.len() as int));
    true
}

/// Whether `text` ends with `end`.
pub fn ends_with(text: &Vec<char>, end: &Vec<char>) -> (ends: bool)
    ensures
        ends == end@.is_suffix_of(text@),
{
    if end.len() > text.len() {
        return false;
    }
    let skip: usize = text.len() - end.len();
    let mut i: usize = 0;
    while i < end.len()
        invariant
            i <= end.len() <= text.len(),
            skip == text.len() - end.len(),
            forall|j: int| 0 <= j < i ==> end@[j] == text@[skip + j],
        decreases end.len() - i,
    {
        if end[i] != text[skip + i] {
            assert(text@.subrange(skip as int, text.len() as int)[i as int] != end@[i as int]);
            return false;
        }
        i = i + 1;
    }
    assert(end@ =~= text@.subrange(skip as int, text.len() as int));
    true
}

/// The number of characters of `text` that stand before its first `mark`:
/// all of them where it holds none.
pub open spec fn span_before(text: Seq<char>, mark: char) -> nat
    decreases text.len(),
{
    if text.len() == 0 || text.first() == mark {
        0
    } else {
        1 + span_before(text.drop_first(), mark)
    }
}

/// What tells the span before a mark: no character of it is the mark, and
/// the mark follows it or the text ends there.
pub proof fn lemma_span_before(text: Seq<char>, mark: char, span: int)
    requires
        0 <= span <= text.len(),
        forall|i: int| 0 <= i < span ==> text[i] != mark,
        span < text.len() ==> text[span] == mark,
    ensures
        span_before(text, mark) == span,
    decreases span,
{
    if span > 0 {
        let rest = text.drop_first();
        assert forall|i: int| 0 <= i < span - 1 implies rest[i] != mark by {
            assert(rest[i] == text[i + 1]);
        }
        lemma_span_before(rest, mark, span - 1);
    }
}

/// The number of characters from `from` on that stand before the first
/// `mark` behind them.
pub fn span_from(text: &Vec<char>, from: usize, mark: char) -> (span: usize)
    requires
        from <= text.len(),
    ensures
        span == span_before(text@.skip(from as int), mark),
        from + span <= text.len(),
{
    let mut end: usize = from;
    while end < text.len() && text[end] != mark
        invariant
            from <= end <= text.len(),
            forall|i: int| from <= i < end ==> text@[i] != mark,
        decreases text.len() - end,
    {
        end = end + 1;
    }
    proof {
        lemma_span_before(text@.skip(from as int), mark, end - from);
    }
    end - from
}

} // verus!
