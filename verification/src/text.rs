//! Small helpers over character sequences: comparison, search and splitting.

use vstd::prelude::*;
use vstd::string::StringExecFns;

verus! {

/// `String::push` of the standard library appends the given character: the
/// string afterwards holds what it held, and the character behind it.
pub assume_specification[ String::push ](s: &mut String, ch: char)
    ensures
        final(s)@ == old(s)@.push(ch),
;

/// The characters of a string slice, in order.
pub fn chars_of(s: &str) -> (v: Vec<char>)
    ensures
        v@ == s@,
{
    let mut v: Vec<char> = Vec::new();
    for c in it: s.chars()
        invariant
            it.seq() == s@,
            v@ == s@.take(it.index() as int),
    {
        v.push(c);
    }
    v
}

/// Whether `needle` stands in `s` at position `at`.
pub open spec fn occurs_at(needle: Seq<char>, s: Seq<char>, at: int) -> bool {
    0 <= at && at + needle.len() <= s.len() && s.subrange(at, at + needle.len()) == needle
}

/// Whether `s` ends with `suffix`.
pub open spec fn ends_with(s: Seq<char>, suffix: Seq<char>) -> bool {
    suffix.len() <= s.len() && occurs_at(suffix, s, s.len() - suffix.len())
}

/// Whether `needle` stands somewhere in `s`.
pub open spec fn contains_text(s: Seq<char>, needle: Seq<char>) -> bool {
    exists|at: int| occurs_at(needle, s, at)
}

/// The first position at or after `from` at which `s` holds `c`, or the
/// length of `s` if there is none.
pub open spec fn find(s: Seq<char>, c: char, from: int) -> int
    decreases s.len() - from,
{
    if from < 0 || from >= s.len() {
        s.len() as int
    } else if s[from] == c {
        from
    } else {
        find(s, c, from + 1)
    }
}

/// The pieces of `s` between occurrences of `sep`: one more than there are
/// occurrences, empty pieces included.
pub open spec fn split_fields(s: Seq<char>, sep: char) -> Seq<Seq<char>>
    decreases s.len(),
{
    let i = find(s, sep, 0);
    if i < 0 || i >= s.len() {
        seq![s]
    } else {
        seq![s.take(i)] + split_fields(s.skip(i + 1), sep)
    }
}

/// Splitting gives at least one piece.
pub proof fn lemma_split_nonempty(s: Seq<char>, sep: char)
    ensures
        split_fields(s, sep).len() >= 1,
{
}

/// Searching the rest of a sequence finds what searching the whole from the
/// same place finds.
pub proof fn lemma_find_skip(s: Seq<char>, c: char, start: int, from: int)
    requires
        0 <= start <= s.len(),
        0 <= from <= s.len() - start,
    ensures
        find(s.skip(start), c, from) + start == find(s, c, start + from),
    decreases s.len() - start - from,
{
    if from < s.len() - start && s[start + from] != c {
        lemma_find_skip(s, c, start, from + 1);
    }
}

/// Whether `c` is one of the ten decimal digits.
pub open spec fn is_digit(c: char) -> bool {
    '0' <= c && c <= '9'
}

/// The number that a decimal digit stands for.
pub open spec fn digit_value(c: char) -> nat {
    (c as int - '0' as int) as nat
}

/// The number that a sequence of decimal digits writes.
pub open spec fn decimal(s: Seq<char>) -> nat
    decreases s.len(),
{
    if s.len() == 0 {
        0
    } else {
        decimal(s.drop_last()) * 10 + digit_value(s.last())
    }
}

/// How many decimal digits stand at the front of `s`.
pub open spec fn digits_len(s: Seq<char>) -> nat
    decreases s.len(),
{
    if s.len() > 0 && is_digit(s[0]) {
        1 + digits_len(s.drop_first())
    } else {
        0
    }
}

/// Digits up to a place that holds none, or up to the end, are all the
/// digits at the front.
pub proof fn lemma_digits_len(s: Seq<char>, k: int)
    requires
        0 <= k <= s.len(),
        forall|j: int| 0 <= j < k ==> is_digit(s[j]),
        k < s.len() ==> !is_digit(s[k]),
    ensures
        digits_len(s) == k,
    decreases k,
{
    if k > 0 {
        lemma_digits_len(s.drop_first(), k - 1);
    }
}

/// One more digit makes the number ten times as large and adds the digit.
pub proof fn lemma_decimal_grows(s: Seq<char>, k: int)
    requires
        0 <= k < s.len(),
        is_digit(s[k]),
    ensures
        decimal(s.take(k + 1)) == decimal(s.take(k)) * 10 + digit_value(s[k]),
        decimal(s.take(k + 1)) >= decimal(s.take(k)),
{
    assert(s.take(k + 1).drop_last() == s.take(k));
}

/// Whether `s` holds decimal digits only.
pub open spec fn all_digits(s: Seq<char>) -> bool {
    forall|i: int| 0 <= i < s.len() ==> is_digit(#[trigger] s[i])
}

/// The number that `s` writes, if `s` is one or more decimal digits.
pub open spec fn number_text(s: Seq<char>) -> Option<nat> {
    if s.len() > 0 && all_digits(s) {
        Some(decimal(s))
    } else {
        None
    }
}

/// Reads a decimal number that fits 64 bits.
pub fn parse_decimal(s: &Vec<char>) -> (r: Option<u64>)
    ensures
        r matches Some(n) ==> number_text(s@) == Some(n as nat),
        r is None ==> (number_text(s@) matches Some(n) ==> n > u64::MAX),
{
    if s.len() == 0 {
        return None;
    }
    let mut n: u64 = 0;
    let mut i: usize = 0;
    while i < s.len()
        invariant
            i <= s.len(),
            forall|j: int| 0 <= j < i ==> is_digit(s@[j]),
            n == decimal(s@.take(i as int)),
        decreases s.len() - i,
    {
        let c = s[i];
        if !('0' <= c && c <= '9') {
            return None;
        }
        proof {
            lemma_decimal_grows(s@, i as int);
            lemma_decimal_monotone(s@, i as int + 1);
        }
        let digit: u64 = c as u64 - '0' as u64;
        match n.checked_mul(10) {
            Some(tens) => match tens.checked_add(digit) {
                Some(sum) => {
                    n = sum;
                },
                None => {
                    return None;
                },
            },
            None => {
                return None;
            },
        }
        i += 1;
    }
    assert(s@.take(i as int) =~= s@);
    Some(n)
}

/// A number is at least what any of its leading digits write.
pub proof fn lemma_decimal_monotone(s: Seq<char>, k: int)
    requires
        0 <= k <= s.len(),
    ensures
        decimal(s.take(k)) <= decimal(s),
    decreases s.len() - k,
{
    if k < s.len() {
        assert(s.take(k + 1).drop_last() =~= s.take(k));
        lemma_decimal_monotone(s, k + 1);
    } else {
        assert(s.take(k) =~= s);
    }
}

/// Whether two texts hold the same characters.
pub fn same_text(a: &Vec<char>, b: &Vec<char>) -> (r: bool)
    ensures
        r == (a@ == b@),
{
    if a.len() != b.len() {
        return false;
    }
    let mut i: usize = 0;
    while i < a.len()
        invariant
            a.len() == b.len(),
            i <= a.len(),
            forall|j: int| 0 <= j < i ==> a@[j] == b@[j],
        decreases a.len() - i,
    {
        if a[i] != b[i] {
            return false;
        }
        i += 1;
    }
    assert(a@ =~= b@);
    true
}

/// Whether two string slices hold the same characters.
pub fn same_str(a: &str, b: &str) -> (r: bool)
    ensures
        r == (a@ == b@),
{
    let x = chars_of(a);
    let y = chars_of(b);
    same_text(&x, &y)
}

/// Whether `needle` stands in `s` at position `at`.
pub fn text_occurs_at(needle: &Vec<char>, s: &Vec<char>, at: usize) -> (r: bool)
    requires
        at + needle.len() <= s.len(),
    ensures
        r == occurs_at(needle@, s@, at as int),
{
    let ghost part = s@.subrange(at as int, at + needle.len());
    let mut i: usize = 0;
    while i < needle.len()
        invariant
            at + needle.len() <= s.len(),
            i <= needle.len(),
            part == s@.subrange(at as int, at + needle.len()),
            forall|j: int| 0 <= j < i ==> part[j] == needle@[j],
        decreases needle.len() - i,
    {
        if s[at + i] != needle[i] {
            assert(part[i as int] != needle@[i as int]);
            return false;
        }
        i += 1;
    }
    assert(part =~= needle@);
    true
}

/// Whether `s` ends with `suffix`.
pub fn text_ends_with(s: &Vec<char>, suffix: &Vec<char>) -> (r: bool)
    ensures
        r == ends_with(s@, suffix@),
{
    if suffix.len() > s.len() {
        return false;
    }
    text_occurs_at(suffix, s, s.len() - suffix.len())
}

/// Whether `needle` stands somewhere in `s`.
pub fn text_contains(s: &Vec<char>, needle: &Vec<char>) -> (r: bool)
    ensures
        r == contains_text(s@, needle@),
{
    if needle.len() > s.len() {
        return false;
    }
    let last: usize = s.len() - needle.len();
    let mut at: usize = 0;
    while at < last
        invariant
            last == s.len() - needle.len(),
            at <= last,
            forall|j: int| 0 <= j < at ==> !occurs_at(needle@, s@, j),
        decreases last - at,
    {
        if text_occurs_at(needle, s, at) {
            return true;
        }
        at += 1;
    }
    text_occurs_at(needle, s, last)
}

/// The first position at or after `from` at which `s` holds `c`, or the
/// length of `s` if there is none.
pub fn text_find(s: &Vec<char>, c: char, from: usize) -> (at: usize)
    requires
        from <= s.len(),
    ensures
        at == find(s@, c, from as int),
        from <= at <= s.len(),
{
    let mut at: usize = from;
    while at < s.len() && s[at] != c
        invariant
            from <= at <= s.len(),
            find(s@, c, from as int) == find(s@, c, at as int),
        decreases s.len() - at,
    {
        at += 1;
    }
    at
}

/// The pieces of `s` between occurrences of `sep`.
pub fn split(s: &str, sep: char) -> (fields: Vec<String>)
    ensures
        fields.deep_view() == split_fields(s@, sep),
{
    let chars = chars_of(s);
    let mut fields: Vec<String> = Vec::new();
    let mut start: usize = 0;
    assert(s@.skip(0) =~= s@);
    assert(fields.deep_view() =~= Seq::<Seq<char>>::empty());
    assert(Seq::<Seq<char>>::empty() + split_fields(s@, sep) =~= split_fields(s@, sep));
    loop
        invariant
            chars@ == s@,
            start <= chars.len(),
            split_fields(s@, sep) == fields.deep_view() + split_fields(s@.skip(start as int), sep),
        decreases chars.len() - start,
    {
        let at = text_find(&chars, sep, start);
        let ghost rest = s@.skip(start as int);
        proof {
            lemma_find_skip(s@, sep, start as int, 0);
            assert(rest.take(at - start) =~= s@.subrange(start as int, at as int));
        }
        let piece = String::from_str(s.substring_char(start, at));
        let ghost before = fields.deep_view();
        fields.push(piece);
        assert(fields.deep_view() =~= before.push(piece@)) by {
            assert(fields.deep_view().len() == before.len() + 1);
            assert forall|j: int| 0 <= j < fields.deep_view().len() implies fields.deep_view()[j]
                == before.push(piece@)[j] by {
            }
        }
        if at >= chars.len() {
            assert(rest.take(at - start) =~= rest);
            assert(before + seq![rest] =~= before.push(rest));
            return fields;
        }
        assert(before + (seq![rest.take(at - start)] + split_fields(rest.skip(at - start + 1), sep))
            =~= before.push(piece@) + split_fields(s@.skip(at + 1), sep)) by {
            assert(rest.skip(at - start + 1) =~= s@.skip(at + 1));
        }
        start = at + 1;
    }
}

} // verus!
