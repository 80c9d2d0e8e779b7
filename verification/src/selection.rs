//! Reading a selection of pages such as `1-3, 5`.

use vstd::prelude::*;

verus! {

/// Whether `c` is white space.
pub open spec fn is_space(c: char) -> bool {
    let n = c as u32;
    (9 <= n && n <= 13) || n == 32 || n == 0x85 || n == 0xA0 || n == 0x1680 || (0x2000 <= n && n
        <= 0x200A) || n == 0x2028 || n == 0x2029 || n == 0x202F || n == 0x205F || n == 0x3000
}

/// Whether `c` is one of the digits 0 to 9.
pub open spec fn is_digit(c: char) -> bool {
    48 <= c as u32 && c as u32 <= 57
}

/// The first position at or after `from` that holds `c`; the length of `s`
/// where there is none.
pub open spec fn first_at(s: Seq<char>, c: char, from: int) -> int
    decreases s.len() - from,
{
    if from < 0 || from >= s.len() {
        s.len() as int
    } else if s[from] == c {
        from
    } else {
        first_at(s, c, from + 1)
    }
}

/// The first position at or after `from` that holds no white space.
pub open spec fn leading(s: Seq<char>, from: int) -> int
    decreases s.len() - from,
{
    if from < 0 || from >= s.len() {
        s.len() as int
    } else if !is_space(s[from]) {
        from
    } else {
        leading(s, from + 1)
    }
}

/// The position after the last one under `to`, and not under `low`, that
/// holds no white space.
pub open spec fn trailing(s: Seq<char>, low: int, to: int) -> int
    decreases to,
{
    if to <= low || to > s.len() || to <= 0 {
        low
    } else if !is_space(s[to - 1]) {
        to
    } else {
        trailing(s, low, to - 1)
    }
}

/// `s` without the white space at its start and at its end.
pub open spec fn trimmed(s: Seq<char>) -> Seq<char> {
    s.subrange(leading(s, 0), trailing(s, leading(s, 0), s.len() as int))
}

/// The number that the digits of `s` write in base ten.
pub open spec fn digits_value(s: Seq<char>) -> nat
    decreases s.len(),
{
    if s.len() == 0 {
        0
    } else {
        (digits_value(s.drop_last()) * 10 + (s.last() as u32 - 48)) as nat
    }
}

pub open spec fn all_digits(s: Seq<char>) -> bool {
    forall|i: int| 0 <= i < s.len() ==> is_digit(#[trigger] s[i])
}

/// The page number that `s` writes: digits, after a plus sign or without
/// one, that stay within 32 bits.
pub open spec fn number(s: Seq<char>) -> Option<u32> {
    let digits = if s.len() > 0 && s[0] == '+' {
        s.subrange(1, s.len() as int)
    } else {
        s
    };
    if digits.len() == 0 || !all_digits(digits) || digits_value(digits) > u32::MAX {
        None
    } else {
        Some(digits_value(digits) as u32)
    }
}

/// The numbers from `first` to `last`, both counted.
pub open spec fn span(first: u32, last: u32) -> Seq<u32> {
    if first <= last {
        Seq::new((last - first + 1) as nat, |k: int| (first + k) as u32)
    } else {
        Seq::empty()
    }
}

/// The pages that one part of a list names: a number stands for itself, two
/// numbers with a hyphen between them for the pages from the one to the
/// other; anything else names no page.
pub open spec fn part_pages(part: Seq<char>) -> Seq<u32> {
    let hyphen = first_at(part, '-', 0);
    if hyphen < part.len() {
        match (number(part.subrange(0, hyphen)), number(part.subrange(hyphen + 1, part.len() as int))) {
            (Some(first), Some(last)) => span(first, last),
            _ => Seq::empty(),
        }
    } else {
        match number(part) {
            Some(n) => seq![n],
            None => Seq::empty(),
        }
    }
}

/// The pages that the parts of `s` name, the parts taken between commas and
/// without the white space around them.
pub open spec fn listed(s: Seq<char>) -> Seq<u32>
    decreases s.len(),
{
    let comma = first_at(s, ',', 0);
    if comma < 0 || comma >= s.len() {
        part_pages(trimmed(s))
    } else {
        part_pages(trimmed(s.subrange(0, comma))) + listed(s.subrange(comma + 1, s.len() as int))
    }
}

/// The pages that a text such as `1-3, 5` names; `None` where it names none.
pub open spec fn selection(text: Seq<char>) -> Option<Seq<u32>> {
    if listed(trimmed(text)).len() == 0 {
        None
    } else {
        Some(listed(trimmed(text)))
    }
}

/// The value of digits grows with every digit added.
pub proof fn lemma_value_grows(s: Seq<char>, n: int)
    requires
        0 <= n <= s.len(),
        all_digits(s),
    ensures
        digits_value(s.subrange(0, n)) <= digits_value(s),
    decreases s.len() - n,
{
    if n < s.len() {
        lemma_value_grows(s, n + 1);
        let longer = s.subrange(0, n + 1);
        assert(longer.drop_last() =~= s.subrange(0, n));
        assert(is_digit(s[n]));
        assert(longer.last() == s[n]);
    } else {
        assert(s.subrange(0, n) =~= s);
    }
}

fn copy_range(s: &Vec<char>, from: usize, to: usize) -> (r: Vec<char>)
    requires
        from <= to <= s@.len(),
    ensures
        r@ == s@.subrange(from as int, to as int),
{
    let mut r: Vec<char> = Vec::new();
    let mut i: usize = from;
    while i < to
        invariant
            from <= i <= to <= s@.len(),
            r@ == s@.subrange(from as int, i as int),
        decreases to - i,
    {
        r.push(s[i]);
        assert(r@ =~= s@.subrange(from as int, i + 1));
        i += 1;
    }
    r
}

fn space(c: char) -> (r: bool)
    ensures
        r == is_space(c),
{
    let n = c as u32;
    (9 <= n && n <= 13) || n == 32 || n == 0x85 || n == 0xA0 || n == 0x1680 || (0x2000 <= n && n
        <= 0x200A) || n == 0x2028 || n == 0x2029 || n == 0x202F || n == 0x205F || n == 0x3000
}

fn find(s: &Vec<char>, c: char) -> (i: usize)
    ensures
        i == first_at(s@, c, 0),
        i <= s@.len(),
{
    let mut i: usize = 0;
    while i < s.len()
        invariant
            i <= s.len(),
            first_at(s@, c, 0) == first_at(s@, c, i as int),
        decreases s.len() - i,
    {
        if s[i] == c {
            return i;
        }
        i += 1;
    }
    i
}

/// `s` without the white space at its start and at its end.
pub fn trim(s: &Vec<char>) -> (r: Vec<char>)
    ensures
        r@ == trimmed(s@),
{
    let mut from: usize = 0;
    while from < s.len() && space(s[from])
        invariant
            from <= s.len(),
            leading(s@, 0) == leading(s@, from as int),
        decreases s.len() - from,
    {
        from += 1;
    }
    let mut to: usize = s.len();
    while to > from && space(s[to - 1])
        invariant
            from <= to <= s.len(),
            trailing(s@, from as int, s@.len() as int) == trailing(s@, from as int, to as int),
        decreases to,
    {
        to -= 1;
    }
    copy_range(s, from, to)
}

/// The page number that `s` writes, where it writes one.
pub fn parse_number(s: &Vec<char>) -> (r: Option<u32>)
    ensures
        r == number(s@),
{
    let start: usize = if s.len() > 0 && s[0] == '+' {
        1
    } else {
        0
    };
    let ghost digits = s@.subrange(start as int, s@.len() as int);
    if start == s.len() {
        return None;
    }
    let mut value: u64 = 0;
    let mut i: usize = start;
    assert(digits.subrange(0, 0) =~= Seq::<char>::empty());
    assert(number(s@) == if !all_digits(digits) || digits_value(digits) > u32::MAX {
        None
    } else {
        Some(digits_value(digits) as u32)
    }) by {
        if start == 0 {
            assert(digits =~= s@);
        }
    }
    while i < s.len()
        invariant
            start <= i <= s.len(),
            digits == s@.subrange(start as int, s@.len() as int),
            number(s@) == if !all_digits(digits) || digits_value(digits) > u32::MAX {
                None
            } else {
                Some(digits_value(digits) as u32)
            },
            all_digits(digits.subrange(0, i - start)),
            value == digits_value(digits.subrange(0, i - start)),
            value <= u32::MAX,
        decreases s.len() - i,
    {
        let n = s[i] as u32;
        let ghost shorter = digits.subrange(0, i - start);
        let ghost longer = digits.subrange(0, i - start + 1);
        assert(longer.drop_last() =~= shorter);
        assert(longer.last() == s@[i as int]);
        if !(48 <= n && n <= 57) {
            assert(!is_digit(digits[i - start]));
            return None;
        }
        assert forall|k: int| 0 <= k < longer.len() implies is_digit(#[trigger] longer[k]) by {
            if k < shorter.len() {
                assert(longer[k] == shorter[k]);
            }
        }
        value = value * 10 + (n - 48) as u64;
        if value > u32::MAX as u64 {
            proof {
                if all_digits(digits) {
                    lemma_value_grows(digits, i - start + 1);
                }
            }
            return None;
        }
        i += 1;
    }
    assert(digits.subrange(0, digits.len() as int) =~= digits);
    Some(value as u32)
}

fn push_span(first: u32, last: u32, out: &mut Vec<u32>)
    ensures
        final(out)@ == old(out)@ + span(first, last),
{
    if first > last {
        assert(out@ =~= old(out)@ + span(first, last));
        return;
    }
    let mut n: u32 = first;
    loop
        invariant_except_break
            first <= n <= last,
            out@ == old(out)@ + span(first, last).subrange(0, n - first),
        ensures
            out@ == old(out)@ + span(first, last),
        decreases last - n,
    {
        out.push(n);
        assert(out@ =~= old(out)@ + span(first, last).subrange(0, n - first + 1));
        if n == last {
            assert(span(first, last).subrange(0, n - first + 1) =~= span(first, last));
            break;
        }
        n += 1;
    }
}

fn push_part(part: &Vec<char>, out: &mut Vec<u32>)
    ensures
        final(out)@ == old(out)@ + part_pages(part@),
{
    let hyphen = find(part, '-');
    if hyphen < part.len() {
        let first = parse_number(&copy_range(part, 0, hyphen));
        let last = parse_number(&copy_range(part, hyphen + 1, part.len()));
        match (first, last) {
            (Some(first), Some(last)) => {
                push_span(first, last, out);
            },
            _ => {
                assert(out@ =~= old(out)@ + part_pages(part@));
            },
        }
    } else {
        match parse_number(part) {
            Some(n) => {
                out.push(n);
                assert(out@ =~= old(out)@ + part_pages(part@));
            },
            None => {
                assert(out@ =~= old(out)@ + part_pages(part@));
            },
        }
    }
}

/// The pages that a text such as `1-3, 5` names: the parts between commas,
/// each a page number or two page numbers with a hyphen between them, white
/// space around a part set aside. A part that is neither names no page.
/// `None` where the text names no page.
pub fn parse_selection(text: &Vec<char>) -> (r: Option<Vec<u32>>)
    ensures
        match r {
            Some(pages) => selection(text@) == Some(pages@),
            None => selection(text@).is_none(),
        },
{
    let whole = trim(text);
    let mut pages: Vec<u32> = Vec::new();
    let mut rest = whole;
    loop
        invariant_except_break
            pages@ + listed(rest@) == listed(trimmed(text@)),
        ensures
            pages@ == listed(trimmed(text@)),
        decreases rest@.len(),
    {
        let comma = find(&rest, ',');
        let ghost before = pages@;
        if comma >= rest.len() {
            push_part(&trim(&rest), &mut pages);
            assert(pages@ =~= before + listed(rest@));
            break;
        }
        push_part(&trim(&copy_range(&rest, 0, comma)), &mut pages);
        let tail = copy_range(&rest, comma + 1, rest.len());
        assert(pages@ + listed(tail@) =~= before + listed(rest@));
        rest = tail;
    }
    if pages.len() == 0 {
        None
    } else {
        Some(pages)
    }
}

} // verus!
