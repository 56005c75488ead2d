//! The text of a file of control points: lines of decimal numbers separated
//! by blanks.

use vstd::prelude::*;

verus! {

/// A byte that separates the numbers of a line.
pub open spec fn is_blank(b: u8) -> bool {
    b == 32 || b == 9 || b == 13 || b == 11 || b == 12
}

/// A decimal digit.
pub open spec fn is_digit(b: u8) -> bool {
    48 <= b <= 57
}

/// The number of bytes in front of the first byte `b`; the length if there
/// is none.
pub open spec fn index_of(s: Seq<u8>, b: u8) -> int
    decreases s.len(),
{
    if s.len() == 0 || s[0] == b {
        0
    } else {
        1 + index_of(s.drop_first(), b)
    }
}

/// The number of blanks that `s` begins with.
pub open spec fn leading_blanks(s: Seq<u8>) -> int
    decreases s.len(),
{
    if s.len() == 0 || !is_blank(s[0]) {
        0
    } else {
        1 + leading_blanks(s.drop_first())
    }
}

/// The length of the word that `s` begins with: the bytes in front of the
/// first blank.
pub open spec fn word_length(s: Seq<u8>) -> int
    decreases s.len(),
{
    if s.len() == 0 || is_blank(s[0]) {
        0
    } else {
        1 + word_length(s.drop_first())
    }
}

/// The lines of a text. A line ends in front of a line feed; what follows
/// the last line feed is a line only if it is not empty.
pub open spec fn split_lines(text: Seq<u8>) -> Seq<Seq<u8>>
    decreases text.len(),
{
    if text.len() == 0 {
        Seq::empty()
    } else {
        let k = index_of(text, 10);
        if 0 <= k < text.len() {
            seq![text.subrange(0, k)] + split_lines(text.subrange(k + 1, text.len() as int))
        } else {
            seq![text]
        }
    }
}

/// The words of a line: the longest runs of bytes that are not blank.
pub open spec fn split_words(line: Seq<u8>) -> Seq<Seq<u8>>
    decreases line.len(),
{
    let skip = leading_blanks(line);
    if 0 <= skip < line.len() {
        let rest = line.subrange(skip, line.len() as int);
        let n = word_length(rest);
        if 0 < n <= rest.len() {
            seq![rest.subrange(0, n)] + split_words(rest.subrange(n, rest.len() as int))
        } else {
            Seq::empty()
        }
    } else {
        Seq::empty()
    }
}

/// Every byte is a decimal digit.
pub open spec fn all_digits(s: Seq<u8>) -> bool {
    forall|k: int| 0 <= k < s.len() ==> is_digit(#[trigger] s[k])
}

/// The largest number that is told apart from larger ones: anything above
/// `COORD_MAX` is no coordinate.
pub const NUMBER_CAP: i64 = 10_001_000_000;

/// The largest exponent that is told apart from larger ones. It is set by
/// 64 bits, in which the exponent is added to the number of digits.
pub const EXPONENT_CAP: i64 = 1_000_000;

/// The smaller of two numbers.
pub open spec fn at_most(a: int, cap: int) -> int {
    if a <= cap {
        a
    } else {
        cap
    }
}

/// The byte in front of an exponent: `e` or `E`.
pub open spec fn is_exponent_mark(b: u8) -> bool {
    b == 101 || b == 69
}

/// The number of bytes in front of the first exponent mark.
pub open spec fn mantissa_length(s: Seq<u8>) -> int
    decreases s.len(),
{
    if s.len() == 0 || is_exponent_mark(s[0]) {
        0
    } else {
        1 + mantissa_length(s.drop_first())
    }
}

/// The word without its sign.
pub open spec fn unsigned_part(word: Seq<u8>) -> Seq<u8> {
    if word.len() > 0 && (word[0] == 43 || word[0] == 45) {
        word.drop_first()
    } else {
        word
    }
}

/// The part of a word without sign in front of the exponent mark.
pub open spec fn mantissa(s: Seq<u8>) -> Seq<u8> {
    s.subrange(0, mantissa_length(s))
}

/// The word has an exponent mark.
pub open spec fn has_exponent(s: Seq<u8>) -> bool {
    mantissa_length(s) < s.len()
}

/// The part of a word without sign behind the exponent mark.
pub open spec fn exponent_text(s: Seq<u8>) -> Seq<u8> {
    if has_exponent(s) {
        s.subrange(mantissa_length(s) + 1, s.len() as int)
    } else {
        Seq::empty()
    }
}

/// The digits of a mantissa in front of the decimal point.
pub open spec fn whole_digits(m: Seq<u8>) -> Seq<u8> {
    m.subrange(0, index_of(m, 46))
}

/// The digits of a mantissa behind the decimal point.
pub open spec fn fraction_digits(m: Seq<u8>) -> Seq<u8> {
    let d = index_of(m, 46);
    if d < m.len() {
        m.subrange(d + 1, m.len() as int)
    } else {
        Seq::empty()
    }
}

/// The number that the digits stand for, but no more than `cap`.
pub open spec fn capped_value(d: Seq<u8>, cap: int) -> int
    decreases d.len(),
{
    if d.len() == 0 {
        0
    } else {
        at_most(capped_value(d.drop_last(), cap) * 10 + (d.last() - 48), cap)
    }
}

/// Ten to the power `k`.
pub open spec fn power_of_ten(k: nat) -> int
    decreases k,
{
    if k == 0 {
        1
    } else {
        10 * power_of_ten((k - 1) as nat)
    }
}

/// What a one at place `k` counts in millionths of a millionth part: ten to
/// the power `k`, and nothing at the places below.
pub open spec fn place_value(k: int) -> int {
    if k < 0 {
        0
    } else {
        power_of_ten(k as nat)
    }
}

/// The sum of the digits, each times the value of its place; the first digit
/// stands at place `top`, every further digit one place lower.
pub open spec fn digits_sum(d: Seq<u8>, top: int) -> int
    decreases d.len(),
{
    if d.len() == 0 {
        0
    } else {
        digits_sum(d.drop_last(), top) + (d.last() - 48) * place_value(top - (d.len() - 1))
    }
}

/// The text behind an exponent mark is an exponent: a sign or none, and at
/// least one digit.
pub open spec fn is_exponent(x: Seq<u8>) -> bool {
    unsigned_part(x).len() >= 1 && all_digits(unsigned_part(x))
}

/// The exponent that the text behind an exponent mark stands for. An
/// exponent beyond `EXPONENT_CAP` counts as that.
pub open spec fn exponent_of(x: Seq<u8>) -> int {
    let v = capped_value(unsigned_part(x), EXPONENT_CAP as int);
    if x.len() > 0 && x[0] == 45 {
        -v
    } else {
        v
    }
}

/// The exponent of a word without sign: zero if it has none.
pub open spec fn exponent_value(s: Seq<u8>) -> int {
    if has_exponent(s) {
        exponent_of(exponent_text(s))
    } else {
        0
    }
}

/// The text is a mantissa: digits, and a decimal point with digits behind it
/// or none, with at least one digit in all.
pub open spec fn is_mantissa(m: Seq<u8>) -> bool {
    &&& all_digits(whole_digits(m))
    &&& all_digits(fraction_digits(m))
    &&& whole_digits(m).len() + fraction_digits(m).len() >= 1
}

/// The mantissa times ten to the power `e`, in millionths, what is less than
/// a millionth dropped.
pub open spec fn mantissa_value(m: Seq<u8>, e: int) -> int {
    let w = whole_digits(m);
    digits_sum(w, w.len() - 1 + e + 6) + digits_sum(fraction_digits(m), e + 5)
}

/// The word is a number: a sign or none, a mantissa, and an exponent or
/// none, which is an `e` or `E`, a sign or none, and at least one digit.
pub open spec fn is_number(word: Seq<u8>) -> bool {
    let s = unsigned_part(word);
    is_mantissa(mantissa(s)) && (has_exponent(s) ==> is_exponent(exponent_text(s)))
}

/// The fixed-point number that the word stands for: its mantissa times ten
/// to its exponent, in millionths, what is less than a millionth dropped. A
/// number of more than ten thousand and one is taken down to that.
pub open spec fn number_value(word: Seq<u8>) -> int {
    let s = unsigned_part(word);
    let magnitude = at_most(mantissa_value(mantissa(s), exponent_value(s)), NUMBER_CAP as int);
    if word.len() > 0 && word[0] == 45 {
        -magnitude
    } else {
        magnitude
    }
}

/// The numbers of the first `count` words.
pub open spec fn word_values(words: Seq<Seq<u8>>, count: int) -> Seq<i64> {
    Seq::new(count as nat, |k: int| number_value(words[k]) as i64)
}

/// Every word is a number.
pub open spec fn all_numbers(words: Seq<Seq<u8>>) -> bool {
    forall|k: int| 0 <= k < words.len() ==> is_number(#[trigger] words[k])
}

/// The numbers of a line, if all its words are numbers; no numbers at all if
/// one of them is not.
pub open spec fn line_numbers(line: Seq<u8>) -> Seq<i64> {
    let words = split_words(line);
    if all_numbers(words) {
        word_values(words, words.len() as int)
    } else {
        Seq::empty()
    }
}

/// The numbers of every line of a text.
pub open spec fn text_numbers(text: Seq<u8>) -> Seq<Seq<i64>> {
    split_lines(text).map_values(|line: Seq<u8>| line_numbers(line))
}

/// An index in front of which `b` does not occur, and at which it does or
/// the sequence ends, is that of the first `b`.
pub proof fn lemma_index_of_found(s: Seq<u8>, b: u8, at: int)
    requires
        0 <= at <= s.len(),
        forall|k: int| 0 <= k < at ==> #[trigger] s[k] != b,
        at < s.len() ==> s[at] == b,
    ensures
        index_of(s, b) == at,
    decreases s.len(),
{
    if s.len() == 0 || s[0] == b {
        if at > 0 {
            assert(s[0] != b);
        }
    } else {
        let rest = s.drop_first();
        assert forall|k: int| 0 <= k < at - 1 implies #[trigger] rest[k] != b by {
            assert(rest[k] == s[k + 1]);
        }
        lemma_index_of_found(rest, b, at - 1);
    }
}

/// The blanks at the start of `s` are `at` many, if the first `at` bytes are
/// blank and the next one is not.
pub proof fn lemma_leading_blanks_found(s: Seq<u8>, at: int)
    requires
        0 <= at <= s.len(),
        forall|k: int| 0 <= k < at ==> is_blank(#[trigger] s[k]),
        at < s.len() ==> !is_blank(s[at]),
    ensures
        leading_blanks(s) == at,
    decreases s.len(),
{
    if s.len() == 0 || !is_blank(s[0]) {
        if at > 0 {
            assert(is_blank(s[0]));
        }
    } else {
        let rest = s.drop_first();
        assert forall|k: int| 0 <= k < at - 1 implies is_blank(#[trigger] rest[k]) by {
            assert(rest[k] == s[k + 1]);
        }
        lemma_leading_blanks_found(rest, at - 1);
    }
}

/// The word at the start of `s` has `at` bytes, if the first `at` bytes are
/// not blank and the next one is.
pub proof fn lemma_word_length_found(s: Seq<u8>, at: int)
    requires
        0 <= at <= s.len(),
        forall|k: int| 0 <= k < at ==> !is_blank(#[trigger] s[k]),
        at < s.len() ==> is_blank(s[at]),
    ensures
        word_length(s) == at,
    decreases s.len(),
{
    if s.len() == 0 || is_blank(s[0]) {
        if at > 0 {
            assert(!is_blank(s[0]));
        }
    } else {
        let rest = s.drop_first();
        assert forall|k: int| 0 <= k < at - 1 implies !is_blank(#[trigger] rest[k]) by {
            assert(rest[k] == s[k + 1]);
        }
        lemma_word_length_found(rest, at - 1);
    }
}

/// The mantissa has `at` bytes, if none of the first `at` bytes is an
/// exponent mark and the next one is.
pub proof fn lemma_mantissa_length_found(s: Seq<u8>, at: int)
    requires
        0 <= at <= s.len(),
        forall|k: int| 0 <= k < at ==> !is_exponent_mark(#[trigger] s[k]),
        at < s.len() ==> is_exponent_mark(s[at]),
    ensures
        mantissa_length(s) == at,
    decreases s.len(),
{
    if s.len() == 0 || is_exponent_mark(s[0]) {
        if at > 0 {
            assert(!is_exponent_mark(s[0]));
        }
    } else {
        let rest = s.drop_first();
        assert forall|k: int| 0 <= k < at - 1 implies !is_exponent_mark(#[trigger] rest[k]) by {
            assert(rest[k] == s[k + 1]);
        }
        lemma_mantissa_length_found(rest, at - 1);
    }
}

/// Powers of ten grow: from the eleventh on they are beyond every number
/// that is told apart.
pub proof fn lemma_power_of_ten(k: nat)
    ensures
        power_of_ten(k) >= 1,
        k >= 11 ==> power_of_ten(k) >= 100_000_000_000,
        k == 0 ==> power_of_ten(k) == 1,
        k == 1 ==> power_of_ten(k) == 10,
        k == 2 ==> power_of_ten(k) == 100,
        k == 3 ==> power_of_ten(k) == 1_000,
        k == 4 ==> power_of_ten(k) == 10_000,
        k == 5 ==> power_of_ten(k) == 100_000,
        k == 6 ==> power_of_ten(k) == 1_000_000,
        k == 7 ==> power_of_ten(k) == 10_000_000,
        k == 8 ==> power_of_ten(k) == 100_000_000,
        k == 9 ==> power_of_ten(k) == 1_000_000_000,
        k == 10 ==> power_of_ten(k) == 10_000_000_000,
    decreases k,
{
    if k > 0 {
        lemma_power_of_ten((k - 1) as nat);
    }
}

/// The sum of digits is not negative.
pub proof fn lemma_digits_sum_nonnegative(d: Seq<u8>, top: int)
    requires
        all_digits(d),
    ensures
        digits_sum(d, top) >= 0,
    decreases d.len(),
{
    if d.len() > 0 {
        let rest = d.drop_last();
        assert forall|k: int| 0 <= k < rest.len() implies is_digit(#[trigger] rest[k]) by {
            assert(rest[k] == d[k]);
        }
        lemma_digits_sum_nonnegative(rest, top);
        let place = top - (d.len() - 1);
        assert(is_digit(d[d.len() - 1]));
        if place >= 0 {
            lemma_power_of_ten(place as nat);
        }
        assert((d.last() - 48) * place_value(place) >= 0) by (nonlinear_arith)
            requires
                d.last() - 48 >= 0,
                place_value(place) >= 0,
        ;
    }
}

/// Whether the byte separates the numbers of a line.
pub fn blank(b: u8) -> (r: bool)
    ensures
        r == is_blank(b),
{
    b == 32 || b == 9 || b == 13 || b == 11 || b == 12
}

/// Whether `text[start..end]` is made of decimal digits.
pub fn digits_only(text: &[u8], start: usize, end: usize) -> (r: bool)
    requires
        start <= end <= text@.len(),
    ensures
        r == all_digits(text@.subrange(start as int, end as int)),
{
    let ghost d = text@.subrange(start as int, end as int);
    let mut i: usize = start;
    while i < end
        invariant
            start <= i <= end <= text@.len(),
            d == text@.subrange(start as int, end as int),
            forall|k: int| 0 <= k < i - start ==> is_digit(#[trigger] d[k]),
        decreases end - i,
    {
        let b: u8 = text[i];
        if !(b >= 48 && b <= 57) {
            assert(d[i - start] == b);
            return false;
        }
        i = i + 1;
    }
    true
}

/// The number that the digits `text[start..end]` stand for, but no more
/// than `cap`.
pub fn capped_number(text: &[u8], start: usize, end: usize, cap: i64) -> (r: i64)
    requires
        start <= end <= text@.len(),
        all_digits(text@.subrange(start as int, end as int)),
        0 <= cap <= 1_000_000_000_000,
    ensures
        r == capped_value(text@.subrange(start as int, end as int), cap as int),
        0 <= r <= cap,
{
    let ghost d = text@.subrange(start as int, end as int);
    let mut acc: i64 = 0;
    let mut i: usize = start;
    proof {
        assert(d.subrange(0, 0) =~= Seq::<u8>::empty());
    }
    while i < end
        invariant
            start <= i <= end <= text@.len(),
            d == text@.subrange(start as int, end as int),
            all_digits(d),
            0 <= cap <= 1_000_000_000_000,
            0 <= acc <= cap,
            acc == capped_value(d.subrange(0, i - start), cap as int),
        decreases end - i,
    {
        let b: u8 = text[i];
        proof {
            let p = d.subrange(0, i - start + 1);
            assert(p.drop_last() =~= d.subrange(0, i - start));
            assert(p.last() == b);
            assert(is_digit(d[i - start]));
        }
        let next: i64 = acc * 10 + ((b - 48) as i64);
        acc = if next <= cap {
            next
        } else {
            cap
        };
        i = i + 1;
    }
    proof {
        assert(d.subrange(0, end - start) =~= d);
    }
    acc
}

/// What a one at place `k` counts, but no more than a hundred thousand
/// million.
pub fn capped_place(k: i128) -> (r: i64)
    ensures
        r == at_most(place_value(k as int), 100_000_000_000),
        0 <= r <= 100_000_000_000,
{
    proof {
        if k >= 0 {
            lemma_power_of_ten(k as nat);
        }
    }
    if k < 0 {
        0
    } else if k == 0 {
        1
    } else if k == 1 {
        10
    } else if k == 2 {
        100
    } else if k == 3 {
        1_000
    } else if k == 4 {
        10_000
    } else if k == 5 {
        100_000
    } else if k == 6 {
        1_000_000
    } else if k == 7 {
        10_000_000
    } else if k == 8 {
        100_000_000
    } else if k == 9 {
        1_000_000_000
    } else if k == 10 {
        10_000_000_000
    } else {
        100_000_000_000
    }
}

/// The sum of the digits `text[start..end]`, each times the value of its
/// place, but no more than `NUMBER_CAP`; the first digit stands at place
/// `top`.
pub fn digits_total(text: &[u8], start: usize, end: usize, top: i128) -> (r: i64)
    requires
        start <= end <= text@.len(),
        all_digits(text@.subrange(start as int, end as int)),
        -0x1_0000_0000_0000_0000_0000 <= top <= 0x1_0000_0000_0000_0000_0000,
    ensures
        r == at_most(digits_sum(text@.subrange(start as int, end as int), top as int), NUMBER_CAP as int),
        0 <= r <= NUMBER_CAP,
{
    let ghost d = text@.subrange(start as int, end as int);
    let mut acc: i64 = 0;
    let mut i: usize = start;
    proof {
        assert(d.subrange(0, 0) =~= Seq::<u8>::empty());
    }
    while i < end
        invariant
            start <= i <= end <= text@.len(),
            d == text@.subrange(start as int, end as int),
            all_digits(d),
            -0x1_0000_0000_0000_0000_0000 <= top <= 0x1_0000_0000_0000_0000_0000,
            0 <= acc <= NUMBER_CAP,
            acc == at_most(digits_sum(d.subrange(0, i - start), top as int), NUMBER_CAP as int),
        decreases end - i,
    {
        let b: u8 = text[i];
        proof {
            assert(d[i - start] == b);
            assert(is_digit(d[i - start]));
        }
        let digit: i64 = (b - 48) as i64;
        let place: i128 = top - ((i - start) as i128);
        let value: i64 = capped_place(place);
        proof {
            let p = d.subrange(0, i - start + 1);
            let q = d.subrange(0, i - start);
            assert(p.drop_last() =~= q);
            assert(p.last() == b);
            assert(is_digit(d[i - start]));
            assert forall|k: int| 0 <= k < q.len() implies is_digit(#[trigger] q[k]) by {
                assert(q[k] == d[k]);
            }
            lemma_digits_sum_nonnegative(q, top as int);
            let exact = place_value(place as int);
            assert(0 <= digit <= 9);
            assert(digit * value >= 0 && digit * value <= 900_000_000_000) by (nonlinear_arith)
                requires
                    0 <= digit <= 9,
                    0 <= value <= 100_000_000_000,
            ;
            if exact > 100_000_000_000 {
                if digit >= 1 {
                    assert(digit * exact >= 100_000_000_000) by (nonlinear_arith)
                        requires
                            digit >= 1,
                            exact > 100_000_000_000,
                    ;
                    assert(digit * value >= 100_000_000_000) by (nonlinear_arith)
                        requires
                            digit >= 1,
                            value == 100_000_000_000,
                    ;
                } else {
                    assert(digit * exact == 0 && digit * value == 0) by (nonlinear_arith)
                        requires
                            digit == 0,
                    ;
                }
            }
        }
        let sum: i64 = acc + digit * value;
        acc = if sum <= NUMBER_CAP {
            sum
        } else {
            NUMBER_CAP
        };
        i = i + 1;
    }
    proof {
        assert(d.subrange(0, end - start) =~= d);
    }
    acc
}

/// The exponent that `text[start..end]` stands for, if it is one.
pub fn parse_exponent(text: &[u8], start: usize, end: usize) -> (r: Option<i64>)
    requires
        start <= end <= text@.len(),
    ensures
        r.is_some() == is_exponent(text@.subrange(start as int, end as int)),
        r matches Some(e) ==> e == exponent_of(text@.subrange(start as int, end as int)) && -EXPONENT_CAP <= e
            <= EXPONENT_CAP,
{
    let ghost x = text@.subrange(start as int, end as int);
    let negative: bool = start < end && text[start] == 45;
    let digits: usize = if start < end && (text[start] == 43 || text[start] == 45) {
        start + 1
    } else {
        start
    };
    proof {
        if start < end {
            assert(x[0] == text@[start as int]);
        }
        assert(unsigned_part(x) =~= text@.subrange(digits as int, end as int));
    }
    if digits == end || !digits_only(text, digits, end) {
        return None;
    }
    let size: i64 = capped_number(text, digits, end, EXPONENT_CAP);
    if negative {
        Some(-size)
    } else {
        Some(size)
    }
}

/// The number that the mantissa `text[start..end]` times ten to the power
/// `exponent` stands for, in millionths and no more than `NUMBER_CAP`, if it
/// is a mantissa.
pub fn parse_mantissa(text: &[u8], start: usize, end: usize, exponent: i64) -> (r: Option<i64>)
    requires
        start <= end <= text@.len(),
        -EXPONENT_CAP <= exponent <= EXPONENT_CAP,
    ensures
        r.is_some() == is_mantissa(text@.subrange(start as int, end as int)),
        r matches Some(v) ==> v == at_most(
            mantissa_value(text@.subrange(start as int, end as int), exponent as int),
            NUMBER_CAP as int,
        ) && 0 <= v <= NUMBER_CAP,
{
    let ghost m = text@.subrange(start as int, end as int);
    let mut dot: usize = start;
    while dot < end && text[dot] != 46
        invariant
            start <= dot <= end <= text@.len(),
            m == text@.subrange(start as int, end as int),
            forall|k: int| 0 <= k < dot - start ==> #[trigger] m[k] != 46,
        decreases end - dot,
    {
        dot = dot + 1;
    }
    let behind: usize = if dot < end {
        dot + 1
    } else {
        end
    };
    let ghost w = whole_digits(m);
    let ghost f = fraction_digits(m);
    proof {
        if dot < end {
            assert(m[dot - start] == text@[dot as int]);
        }
        lemma_index_of_found(m, 46, dot - start);
        assert(w =~= text@.subrange(start as int, dot as int));
        assert(f =~= text@.subrange(behind as int, end as int));
    }
    if !digits_only(text, start, dot) || !digits_only(text, behind, end) {
        return None;
    }
    if dot - start == 0 && end - behind == 0 {
        return None;
    }
    let whole_top: i128 = ((dot - start) as i128) - 1 + (exponent as i128) + 6;
    let whole: i64 = digits_total(text, start, dot, whole_top);
    let fraction: i64 = digits_total(text, behind, end, (exponent as i128) + 5);
    proof {
        lemma_digits_sum_nonnegative(w, whole_top as int);
        lemma_digits_sum_nonnegative(f, exponent + 5);
    }
    let total: i64 = whole + fraction;
    if total <= NUMBER_CAP {
        Some(total)
    } else {
        Some(NUMBER_CAP)
    }
}

/// The fixed-point number that the word `text[start..end]` stands for, if it
/// is a number.
pub fn parse_number(text: &[u8], start: usize, end: usize) -> (r: Option<i64>)
    requires
        start <= end <= text@.len(),
    ensures
        r.is_some() == is_number(text@.subrange(start as int, end as int)),
        r matches Some(v) ==> v == number_value(text@.subrange(start as int, end as int)),
{
    let ghost word = text@.subrange(start as int, end as int);
    let negative: bool = start < end && text[start] == 45;
    let from: usize = if start < end && (text[start] == 43 || text[start] == 45) {
        start + 1
    } else {
        start
    };
    let ghost s = unsigned_part(word);
    proof {
        if start < end {
            assert(word[0] == text@[start as int]);
        }
        assert(s =~= text@.subrange(from as int, end as int));
    }
    let mut mark: usize = from;
    while mark < end && text[mark] != 101 && text[mark] != 69
        invariant
            from <= mark <= end <= text@.len(),
            s == text@.subrange(from as int, end as int),
            forall|k: int| 0 <= k < mark - from ==> !is_exponent_mark(#[trigger] s[k]),
        decreases end - mark,
    {
        mark = mark + 1;
    }
    proof {
        if mark < end {
            assert(s[mark - from] == text@[mark as int]);
        }
        lemma_mantissa_length_found(s, mark - from);
        assert(mantissa(s) =~= text@.subrange(from as int, mark as int));
        if mark < end {
            assert(exponent_text(s) =~= text@.subrange(mark + 1, end as int));
        }
    }
    let exponent: i64 = if mark < end {
        match parse_exponent(text, mark + 1, end) {
            Some(e) => e,
            None => {
                return None;
            },
        }
    } else {
        0
    };
    match parse_mantissa(text, from, mark, exponent) {
        Some(magnitude) => {
            if negative {
                Some(-magnitude)
            } else {
                Some(magnitude)
            }
        },
        None => None,
    }
}

/// The numbers of the line `text[start..end]`; none if a word of the line is
/// no number.
pub fn parse_line(text: &[u8], start: usize, end: usize) -> (r: Vec<i64>)
    requires
        start <= end <= text@.len(),
    ensures
        r@ == line_numbers(text@.subrange(start as int, end as int)),
{
    let ghost line = text@.subrange(start as int, end as int);
    let ghost mut done: Seq<Seq<u8>> = Seq::empty();
    let mut values: Vec<i64> = Vec::new();
    let mut all_ok: bool = true;
    let mut pos: usize = start;
    proof {
        assert(line.subrange(0, line.len() as int) =~= line);
        assert(done + split_words(line) =~= split_words(line));
    }
    while pos < end
        invariant
            start <= pos <= end <= text@.len(),
            line == text@.subrange(start as int, end as int),
            split_words(line) == done + split_words(line.subrange(pos - start, line.len() as int)),
            all_ok == all_numbers(done),
            all_ok ==> values@ == word_values(done, done.len() as int),
        decreases end - pos,
    {
        let ghost tail = line.subrange(pos - start, line.len() as int);
        let first: usize = pos;
        while pos < end && blank(text[pos])
            invariant
                first <= pos <= end <= text@.len(),
                start <= first,
                line == text@.subrange(start as int, end as int),
                tail == line.subrange(first - start, line.len() as int),
                forall|k: int| 0 <= k < pos - first ==> is_blank(#[trigger] tail[k]),
            decreases end - pos,
        {
            pos = pos + 1;
        }
        proof {
            if pos < end {
                assert(tail[pos - first] == text@[pos as int]);
            }
            lemma_leading_blanks_found(tail, pos - first);
        }
        if pos < end {
            let word_start: usize = pos;
            let ghost rest = tail.subrange(word_start - first, tail.len() as int);
            proof {
                assert(rest =~= line.subrange(word_start - start, line.len() as int));
            }
            while pos < end && !blank(text[pos])
                invariant
                    word_start <= pos <= end <= text@.len(),
                    start <= word_start,
                    line == text@.subrange(start as int, end as int),
                    rest == line.subrange(word_start - start, line.len() as int),
                    forall|k: int| 0 <= k < pos - word_start ==> !is_blank(#[trigger] rest[k]),
                decreases end - pos,
            {
                pos = pos + 1;
            }
            proof {
                if pos < end {
                    assert(rest[pos - word_start] == text@[pos as int]);
                }
                assert(rest[0] == text@[word_start as int]);
                lemma_word_length_found(rest, pos - word_start);
                assert(rest.subrange(0, pos - word_start) =~= text@.subrange(word_start as int, pos as int));
                assert(rest.subrange(pos - word_start, rest.len() as int) =~= line.subrange(pos - start, line.len() as int));
            }
            let ghost word = text@.subrange(word_start as int, pos as int);
            let ghost before = done;
            proof {
                done = done.push(word);
                assert(split_words(tail) == seq![word] + split_words(line.subrange(pos - start, line.len() as int)));
                assert(before + (seq![word] + split_words(line.subrange(pos - start, line.len() as int))) =~= done
                    + split_words(line.subrange(pos - start, line.len() as int)));
                assert(all_numbers(done) == (all_numbers(before) && is_number(word))) by {
                    if all_numbers(done) {
                        assert(is_number(done[before.len() as int]));
                        assert forall|k: int| 0 <= k < before.len() implies is_number(#[trigger] before[k]) by {
                            assert(done[k] == before[k]);
                        }
                    }
                    if all_numbers(before) && is_number(word) {
                        assert forall|k: int| 0 <= k < done.len() implies is_number(#[trigger] done[k]) by {
                            if k < before.len() {
                                assert(done[k] == before[k]);
                            }
                        }
                    }
                }
            }
            match parse_number(text, word_start, pos) {
                Some(v) => {
                    if all_ok {
                        values.push(v);
                        proof {
                            assert(values@ =~= word_values(done, done.len() as int));
                        }
                    }
                },
                None => {
                    all_ok = false;
                },
            }
        } else {
            proof {
                assert(split_words(tail) =~= Seq::empty());
                assert(line.subrange(pos - start, line.len() as int) =~= Seq::<u8>::empty());
            }
        }
    }
    proof {
        assert(line.subrange(pos - start, line.len() as int) =~= Seq::<u8>::empty());
        assert(done + Seq::<Seq<u8>>::empty() =~= done);
    }
    if all_ok {
        values
    } else {
        Vec::new()
    }
}

/// The numbers of the lines as mathematical sequences.
pub open spec fn rows_of(lines: Seq<Vec<i64>>) -> Seq<Seq<i64>> {
    Seq::new(lines.len(), |i: int| lines[i]@)
}

/// The numbers of every line of a text.
pub fn parse_text(text: &[u8]) -> (r: Vec<Vec<i64>>)
    ensures
        rows_of(r@) == text_numbers(text@),
{
    let n: usize = text.len();
    let ghost mut done: Seq<Seq<u8>> = Seq::empty();
    let mut rows: Vec<Vec<i64>> = Vec::new();
    let mut pos: usize = 0;
    proof {
        assert(text@.subrange(0, n as int) =~= text@);
    }
    while pos < n
        invariant
            pos <= n,
            n == text@.len(),
            split_lines(text@) == done + split_lines(text@.subrange(pos as int, n as int)),
            rows@.len() == done.len(),
            forall|k: int| 0 <= k < done.len() ==> (#[trigger] rows@[k])@ == line_numbers(done[k]),
        decreases n - pos,
    {
        let ghost tail = text@.subrange(pos as int, n as int);
        let line_start: usize = pos;
        while pos < n && text[pos] != 10
            invariant
                line_start <= pos <= n,
                n == text@.len(),
                tail == text@.subrange(line_start as int, n as int),
                forall|k: int| 0 <= k < pos - line_start ==> #[trigger] tail[k] != 10,
            decreases n - pos,
        {
            pos = pos + 1;
        }
        proof {
            if pos < n {
                assert(tail[pos - line_start] == text@[pos as int]);
            }
            lemma_index_of_found(tail, 10, pos - line_start);
        }
        let line_end: usize = pos;
        let row: Vec<i64> = parse_line(text, line_start, line_end);
        let ghost line = text@.subrange(line_start as int, line_end as int);
        let ghost before = done;
        if pos < n {
            pos = pos + 1;
        }
        proof {
            done = done.push(line);
            if line_end < n {
                assert(tail.subrange(0, line_end - line_start) =~= line);
                assert(tail.subrange(line_end - line_start + 1, tail.len() as int) =~= text@.subrange(pos as int, n as int));
                assert(before + (seq![line] + split_lines(text@.subrange(pos as int, n as int))) =~= done + split_lines(
                    text@.subrange(pos as int, n as int),
                ));
            } else {
                assert(tail =~= line);
                assert(text@.subrange(pos as int, n as int) =~= Seq::<u8>::empty());
                assert(before + seq![line] =~= done + Seq::<Seq<u8>>::empty());
            }
        }
        rows.push(row);
    }
    proof {
        assert(text@.subrange(pos as int, n as int) =~= Seq::<u8>::empty());
        assert(done + Seq::<Seq<u8>>::empty() =~= done);
        assert(rows_of(rows@) =~= text_numbers(text@));
    }
    rows
}

} // verus!
