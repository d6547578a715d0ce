//! Strings as sequences of characters: their order, and what is looked up in
//! them.

use crate::ordmap::Key;
use vstd::prelude::*;
use vstd::string::*;
use vstd::utf8::{decode_utf8, valid_utf8};

verus! {

/// The lexicographic order of two texts, by the code points of their characters.
pub open spec fn text_before(a: Seq<char>, b: Seq<char>) -> bool
    decreases a.len(),
{
    if b.len() == 0 {
        false
    } else if a.len() == 0 {
        true
    } else if a[0] != b[0] {
        a[0] < b[0]
    } else {
        text_before(a.skip(1), b.skip(1))
    }
}

pub proof fn lemma_text_irreflexive(a: Seq<char>)
    ensures
        !text_before(a, a),
    decreases a.len(),
{
    if a.len() > 0 {
        lemma_text_irreflexive(a.skip(1));
    }
}

pub proof fn lemma_text_transitive(a: Seq<char>, b: Seq<char>, c: Seq<char>)
    requires
        text_before(a, b),
        text_before(b, c),
    ensures
        text_before(a, c),
    decreases a.len(),
{
    if a.len() > 0 && a[0] == b[0] && b[0] == c[0] {
        lemma_text_transitive(a.skip(1), b.skip(1), c.skip(1));
    }
}

pub proof fn lemma_text_total(a: Seq<char>, b: Seq<char>)
    ensures
        text_before(a, b) || a == b || text_before(b, a),
    decreases a.len(),
{
    if a.len() == 0 {
        if b.len() == 0 {
            assert(a =~= b);
        }
    } else if b.len() > 0 && a[0] == b[0] {
        lemma_text_total(a.skip(1), b.skip(1));
        if a.skip(1) == b.skip(1) {
            assert(a =~= seq![a[0]] + a.skip(1));
            assert(b =~= seq![b[0]] + b.skip(1));
        }
    }
}

/// Whether `a` comes before `b`: `<` on `str`, documented to order strings
/// lexicographically by their code points.
#[verifier::external_body]
fn str_before(a: &str, b: &str) -> (before: bool)
    ensures
        before == text_before(a@, b@),
{
    a < b
}

/// The text that `bytes` encode: `str::from_utf8`, documented to succeed on
/// valid UTF-8 and on nothing else.
#[verifier::external_body]
pub(crate) fn text_of_utf8(bytes: &[u8]) -> (text: Option<String>)
    ensures
        match text {
            Some(text) => valid_utf8(bytes@) && text@ == decode_utf8(bytes@),
            None => !valid_utf8(bytes@),
        },
{
    core::str::from_utf8(bytes).ok().map(String::from)
}

impl Key for String {
    open spec fn before(a: Seq<char>, b: Seq<char>) -> bool {
        text_before(a, b)
    }

    proof fn before_irreflexive(a: Seq<char>) {
        lemma_text_irreflexive(a);
    }

    proof fn before_transitive(a: Seq<char>, b: Seq<char>, c: Seq<char>) {
        lemma_text_transitive(a, b, c);
    }

    proof fn before_total(a: Seq<char>, b: Seq<char>) {
        lemma_text_total(a, b);
    }

    fn less(&self, other: &Self) -> (less: bool) {
        let before = str_before(self.as_str(), other.as_str());
        assert(Self::before(self@, other@) == text_before(self@, other@));
        before
    }

    fn same(&self, other: &Self) -> (same: bool) {
        *self == *other
    }

    fn duplicate(&self) -> (copy: Self) {
        self.clone()
    }
}

impl Key for std::sync::Arc<String> {
    open spec fn before(a: Seq<char>, b: Seq<char>) -> bool {
        text_before(a, b)
    }

    proof fn before_irreflexive(a: Seq<char>) {
        lemma_text_irreflexive(a);
    }

    proof fn before_transitive(a: Seq<char>, b: Seq<char>, c: Seq<char>) {
        lemma_text_transitive(a, b, c);
    }

    proof fn before_total(a: Seq<char>, b: Seq<char>) {
        lemma_text_total(a, b);
    }

    fn less(&self, other: &Self) -> (less: bool) {
        str_before(self.as_str(), other.as_str())
    }

    fn same(&self, other: &Self) -> (same: bool) {
        **self == **other
    }

    fn duplicate(&self) -> (copy: Self) {
        self.clone()
    }
}

impl Key for u64 {
    open spec fn before(a: u64, b: u64) -> bool {
        a < b
    }

    proof fn before_irreflexive(a: u64) {
    }

    proof fn before_transitive(a: u64, b: u64, c: u64) {
    }

    proof fn before_total(a: u64, b: u64) {
    }

    fn less(&self, other: &Self) -> (less: bool) {
        *self < *other
    }

    fn same(&self, other: &Self) -> (same: bool) {
        *self == *other
    }

    fn duplicate(&self) -> (copy: Self) {
        *self
    }
}

impl Key for u128 {
    open spec fn before(a: u128, b: u128) -> bool {
        a < b
    }

    proof fn before_irreflexive(a: u128) {
    }

    proof fn before_transitive(a: u128, b: u128, c: u128) {
    }

    proof fn before_total(a: u128, b: u128) {
    }

    fn less(&self, other: &Self) -> (less: bool) {
        *self < *other
    }

    fn same(&self, other: &Self) -> (same: bool) {
        *self == *other
    }

    fn duplicate(&self) -> (copy: Self) {
        *self
    }
}

impl Key for i32 {
    open spec fn before(a: i32, b: i32) -> bool {
        a < b
    }

    proof fn before_irreflexive(a: i32) {
    }

    proof fn before_transitive(a: i32, b: i32, c: i32) {
    }

    proof fn before_total(a: i32, b: i32) {
    }

    fn less(&self, other: &Self) -> (less: bool) {
        *self < *other
    }

    fn same(&self, other: &Self) -> (same: bool) {
        *self == *other
    }

    fn duplicate(&self) -> (copy: Self) {
        *self
    }
}

impl Key for i64 {
    open spec fn before(a: i64, b: i64) -> bool {
        a < b
    }

    proof fn before_irreflexive(a: i64) {
    }

    proof fn before_transitive(a: i64, b: i64, c: i64) {
    }

    proof fn before_total(a: i64, b: i64) {
    }

    fn less(&self, other: &Self) -> (less: bool) {
        *self < *other
    }

    fn same(&self, other: &Self) -> (same: bool) {
        *self == *other
    }

    fn duplicate(&self) -> (copy: Self) {
        *self
    }
}

/// Whether `part` occurs in `whole` at position `at`.
pub open spec fn occurs_at(whole: Seq<char>, part: Seq<char>, at: int) -> bool {
    0 <= at && at + part.len() <= whole.len() && whole.subrange(at, at + part.len()) == part
}

/// Whether `part` occurs somewhere in `whole`.
pub open spec fn contains_text(whole: Seq<char>, part: Seq<char>) -> bool {
    exists|at: int| occurs_at(whole, part, at)
}

/// Whether `whole` ends in `part`.
pub open spec fn ends_with_text(whole: Seq<char>, part: Seq<char>) -> bool {
    occurs_at(whole, part, whole.len() - part.len())
}

/// The characters of `text`.
pub fn chars_of(text: &str) -> (chars: Vec<char>)
    ensures
        chars@ == text@,
{
    let mut chars: Vec<char> = Vec::new();
    for c in it: text.chars()
        invariant
            chars@ == it.seq().take(it.index() as int),
            it.seq() == text@,
    {
        chars.push(c);
    }
    chars
}

fn occurs_here(whole: &Vec<char>, part: &Vec<char>, at: usize) -> (here: bool)
    requires
        at + part@.len() <= whole@.len(),
    ensures
        here == occurs_at(whole@, part@, at as int),
{
    let mut i: usize = 0;
    while i < part.len()
        invariant
            i <= part@.len(),
            at + part@.len() <= whole@.len(),
            forall|j: int| 0 <= j < i ==> whole@[at + j] == part@[j],
        decreases part@.len() - i,
    {
        let _len: usize = whole.len();
        if whole[at + i] != part[i] {
            assert(whole@.subrange(at as int, at + part@.len())[i as int] != part@[i as int]);
            return false;
        }
        i = i + 1;
    }
    assert(whole@.subrange(at as int, at + part@.len()) =~= part@);
    true
}

/// Whether `part` occurs in `whole`.
pub fn contains_str(whole: &str, part: &str) -> (found: bool)
    ensures
        found == contains_text(whole@, part@),
{
    let long = chars_of(whole);
    let short = chars_of(part);
    if short.len() > long.len() {
        return false;
    }
    let last: usize = long.len() - short.len();
    let mut at: usize = 0;
    loop
        invariant
            long@ == whole@,
            short@ == part@,
            at <= last,
            last + short@.len() == long@.len(),
            forall|j: int| 0 <= j < at ==> !occurs_at(long@, short@, j),
        decreases last - at,
    {
        if occurs_here(&long, &short, at) {
            return true;
        }
        if at == last {
            return false;
        }
        at = at + 1;
    }
}

/// Whether `whole` ends in `part`.
pub fn ends_with_str(whole: &str, part: &str) -> (ends: bool)
    ensures
        ends == ends_with_text(whole@, part@),
{
    let whole = chars_of(whole);
    let part = chars_of(part);
    part.len() <= whole.len() && occurs_here(&whole, &part, whole.len() - part.len())
}

/// What is left of `whole` without the end `part`, if it ends in it.
pub fn strip_suffix(whole: &str, part: &str) -> (stripped: Option<String>)
    ensures
        match stripped {
            Some(stripped) => ends_with_text(whole@, part@) && stripped@ == whole@.subrange(
                0,
                whole@.len() - part@.len(),
            ),
            None => !ends_with_text(whole@, part@),
        },
{
    let long: usize = whole.unicode_len();
    let short: usize = part.unicode_len();
    if ends_with_str(whole, part) {
        Some(whole.substring_char(0, long - short).to_owned())
    } else {
        None
    }
}

/// Append a character: `String::push`, documented to append it to the end.
#[verifier::external_body]
pub(crate) fn push_char(text: &mut String, c: char)
    ensures
        final(text)@ == old(text)@.push(c),
{
    text.push(c)
}

/// The character of a digit below sixteen.
pub open spec fn digit(value: nat) -> char {
    if value < 10 {
        (48 + value) as char
    } else {
        (87 + value) as char
    }
}

/// The decimal digits of a number.
pub open spec fn decimal(value: nat) -> Seq<char>
    decreases value,
{
    if value < 10 {
        seq![digit(value)]
    } else {
        decimal(value / 10).push(digit(value % 10))
    }
}

/// The decimal digits of an integer, behind its sign if it is negative.
pub open spec fn signed_decimal(value: int) -> Seq<char> {
    if value < 0 {
        seq!['-'] + decimal((-value) as nat)
    } else {
        decimal(value as nat)
    }
}

/// `text` behind as many zeros as make it `width` characters long.
pub open spec fn zero_padded(text: Seq<char>, width: nat) -> Seq<char> {
    if text.len() < width {
        Seq::new((width - text.len()) as nat, |i: int| '0') + text
    } else {
        text
    }
}

/// The least number of more than `width` digits.
pub open spec fn ten_to(width: nat) -> nat
    decreases width,
{
    if width == 0 {
        1
    } else {
        10 * ten_to((width - 1) as nat)
    }
}

spec fn digits(value: nat, width: nat) -> Seq<char>
    decreases width,
{
    if width == 0 {
        Seq::empty()
    } else {
        digits(value / 10, (width - 1) as nat).push(digit(value % 10))
    }
}

proof fn lemma_digits(value: nat, width: nat)
    requires
        0 < width,
        value < ten_to(width),
    ensures
        zero_padded(decimal(value), width) == digits(value, width),
    decreases width,
{
    reveal_with_fuel(digits, 2);
    if width == 1 {
        assert(ten_to(1) == 10) by {
            reveal_with_fuel(ten_to, 2);
        }
        assert(digits(value, 1) =~= seq![digit(value)]);
    } else {
        lemma_digits(value / 10, (width - 1) as nat);
        let less = decimal(value / 10);
        if value < 10 {
            assert(zero_padded(decimal(value), width) =~= zero_padded(less, (width - 1) as nat).push(
                digit(value % 10),
            ));
        } else {
            assert(decimal(value) == less.push(digit(value % 10)));
            assert(zero_padded(decimal(value), width) =~= zero_padded(less, (width - 1) as nat).push(
                digit(value % 10),
            ));
        }
    }
}

proof fn lemma_digits_len(value: nat, width: nat)
    ensures
        digits(value, width).len() == width,
    decreases width,
{
    if width > 0 {
        lemma_digits_len(value / 10, (width - 1) as nat);
    }
}

/// What follows two texts of one length does not change which comes first.
pub proof fn lemma_before_tail(a: Seq<char>, b: Seq<char>, s: Seq<char>, t: Seq<char>)
    requires
        a.len() == b.len(),
        text_before(a, b),
    ensures
        text_before(a + s, b + t),
    decreases a.len(),
{
    assert((a + s)[0] == a[0]);
    assert((b + t)[0] == b[0]);
    if a[0] == b[0] {
        lemma_before_tail(a.skip(1), b.skip(1), s, t);
        assert((a + s).skip(1) =~= a.skip(1) + s);
        assert((b + t).skip(1) =~= b.skip(1) + t);
    }
}

/// What two texts have in front of them in common does not change which comes first.
pub proof fn lemma_before_head(head: Seq<char>, a: Seq<char>, b: Seq<char>)
    requires
        text_before(a, b),
    ensures
        text_before(head + a, head + b),
    decreases head.len(),
{
    if head.len() == 0 {
        assert(head + a =~= a);
        assert(head + b =~= b);
    } else {
        assert((head + a)[0] == head[0]);
        assert((head + b)[0] == head[0]);
        assert((head + a).skip(1) =~= head.skip(1) + a);
        assert((head + b).skip(1) =~= head.skip(1) + b);
        lemma_before_head(head.skip(1), a, b);
    }
}

proof fn lemma_digits_order(a: nat, b: nat, width: nat)
    requires
        a < b < ten_to(width),
    ensures
        text_before(digits(a, width), digits(b, width)),
    decreases width,
{
    let less = (width - 1) as nat;
    assert(width > 0) by {
        if width == 0 {
            assert(ten_to(0) == 1);
        }
    }
    let (x, y) = (digits(a / 10, less), digits(b / 10, less));
    let (p, q) = (seq![digit(a % 10)], seq![digit(b % 10)]);
    assert(digits(a, width) =~= x + p);
    assert(digits(b, width) =~= y + q);
    if a / 10 < b / 10 {
        lemma_digits_order(a / 10, b / 10, less);
        lemma_digits_len(a / 10, less);
        lemma_digits_len(b / 10, less);
        lemma_before_tail(x, y, p, q);
    } else {
        assert(a % 10 < b % 10);
        assert(text_before(p, q));
        lemma_before_head(x, p, q);
    }
}

/// Numbers that are padded to one width sort as the numbers do.
pub proof fn padded_numbers_sort_as_numbers(a: nat, b: nat, width: nat)
    requires
        a < b < ten_to(width),
    ensures
        text_before(zero_padded(decimal(a), width), zero_padded(decimal(b), width)),
        zero_padded(decimal(a), width).len() == width,
        zero_padded(decimal(b), width).len() == width,
{
    assert(width > 0) by {
        if width == 0 {
            assert(ten_to(0) == 1);
        }
    }
    lemma_digits(a, width);
    lemma_digits(b, width);
    lemma_digits_len(a, width);
    lemma_digits_len(b, width);
    lemma_digits_order(a, b, width);
}

/// Every character of a number's digits is one of them.
pub proof fn lemma_decimal_chars(value: nat)
    ensures
        decimal(value).len() > 0,
        forall|i: int| 0 <= i < decimal(value).len() ==> '0' <= #[trigger] decimal(value)[i] <= '9',
    decreases value,
{
    if value >= 10 {
        lemma_decimal_chars(value / 10);
    }
}

/// Two hexadecimal digits of each byte.
pub open spec fn hex(bytes: Seq<u8>) -> Seq<char>
    decreases bytes.len(),
{
    if bytes.len() == 0 {
        Seq::empty()
    } else {
        hex(bytes.drop_last()).push(digit(bytes.last() as nat / 16)).push(
            digit(bytes.last() as nat % 16),
        )
    }
}

/// The character of a digit below sixteen.
pub fn digit_char(value: u8) -> (c: char)
    requires
        value < 16,
    ensures
        c == digit(value as nat),
{
    if value < 10 {
        (48 + value) as char
    } else {
        (87 + value) as char
    }
}

/// Append the decimal digits of `value`.
pub fn push_decimal(text: &mut String, value: u64)
    ensures
        final(text)@ == old(text)@ + decimal(value as nat),
    decreases value,
{
    if value >= 10 {
        push_decimal(text, value / 10);
    }
    push_char(text, digit_char((value % 10) as u8));
    assert(text@ =~= old(text)@ + decimal(value as nat));
}

/// Append the decimal digits of `value`, behind its sign if it is negative.
pub fn push_signed(text: &mut String, value: i64)
    ensures
        final(text)@ == old(text)@ + signed_decimal(value as int),
{
    if value < 0 {
        push_char(text, '-');
        push_decimal(text, (-(value as i128)) as u64);
        assert(text@ =~= old(text)@ + signed_decimal(value as int));
    } else {
        push_decimal(text, value as u64);
    }
}

/// `text` behind as many zeros as make it `width` characters long.
pub fn zero_pad(text: String, width: usize) -> (padded: String)
    ensures
        padded@ == zero_padded(text@, width as nat),
{
    let len: usize = text.as_str().unicode_len();
    if len >= width {
        return text;
    }
    let mut padded = String::new();
    let mut zeros: usize = 0;
    while zeros < width - len
        invariant
            zeros <= width - len,
            len < width,
            padded@ == Seq::new(zeros as nat, |i: int| '0'),
        decreases width - len - zeros,
    {
        push_char(&mut padded, '0');
        zeros = zeros + 1;
        assert(padded@ =~= Seq::new(zeros as nat, |i: int| '0'));
    }
    padded.append(text.as_str());
    padded
}

/// The decimal digits of `value`, behind zeros up to `width` characters.
pub fn padded_decimal(value: u64, width: usize) -> (text: String)
    ensures
        text@ == zero_padded(decimal(value as nat), width as nat),
{
    let mut digits = String::new();
    push_decimal(&mut digits, value);
    assert(digits@ =~= decimal(value as nat));
    zero_pad(digits, width)
}

/// The decimal digits of `value`, its sign first, behind zeros up to `width`
/// characters.
pub fn padded_signed(value: i64, width: usize) -> (text: String)
    ensures
        text@ == zero_padded(signed_decimal(value as int), width as nat),
{
    let mut digits = String::new();
    push_signed(&mut digits, value);
    assert(digits@ =~= signed_decimal(value as int));
    zero_pad(digits, width)
}

/// Two hexadecimal digits of each of the bytes `[from, to)`.
pub fn hex_of(bytes: &[u8], from: usize, to: usize) -> (text: String)
    requires
        from <= to <= bytes@.len(),
    ensures
        text@ == hex(bytes@.subrange(from as int, to as int)),
{
    let mut text = String::new();
    let mut at: usize = from;
    assert(bytes@.subrange(from as int, from as int) =~= Seq::empty());
    assert(text@ =~= hex(bytes@.subrange(from as int, from as int)));
    while at < to
        invariant
            from <= at <= to <= bytes@.len(),
            text@ == hex(bytes@.subrange(from as int, at as int)),
        decreases to - at,
    {
        push_char(&mut text, digit_char(bytes[at] / 16));
        push_char(&mut text, digit_char(bytes[at] % 16));
        at = at + 1;
        proof {
            let done = bytes@.subrange(from as int, at as int);
            assert(done.drop_last() =~= bytes@.subrange(from as int, at - 1));
        }
    }
    text
}

/// The number that a run of decimal digits stands for.
pub open spec fn number_of(text: Seq<char>) -> nat
    decreases text.len(),
{
    if text.len() == 0 {
        0
    } else {
        number_of(text.drop_last()) * 10 + (text.last() as u32 - '0' as u32) as nat
    }
}

/// A number in decimal is read back as the number, is made of digits alone, and begins
/// with a zero only if it is zero.
pub proof fn decimals_are_read_back(value: nat)
    ensures
        number_of(decimal(value)) == value,
        forall|i: int|
            0 <= i < decimal(value).len() ==> '0' <= #[trigger] decimal(value)[i] <= '9',
        decimal(value).len() > 0,
        value > 0 ==> decimal(value)[0] != '0',
    decreases value,
{
    reveal_with_fuel(number_of, 2);
    if value < 10 {
        assert(decimal(value).drop_last() =~= Seq::empty());
    } else {
        decimals_are_read_back(value / 10);
        assert(decimal(value).drop_last() =~= decimal(value / 10));
        assert forall|i: int| 0 <= i < decimal(value).len() implies '0' <= #[trigger] decimal(
            value,
        )[i] <= '9' by {
            if i < decimal(value / 10).len() {
                assert(decimal(value)[i] == decimal(value / 10)[i]);
            }
        }
        assert(decimal(value)[0] == decimal(value / 10)[0]);
    }
}

/// A negative number is its amount behind a minus, and any other is its amount.
pub proof fn a_sign_comes_first(value: int)
    ensures
        value >= 0 ==> number_of(signed_decimal(value)) == value && signed_decimal(value)[0]
            != '-',
        value < 0 ==> signed_decimal(value)[0] == '-' && number_of(signed_decimal(value).skip(1))
            == -value,
{
    if value < 0 {
        decimals_are_read_back((-value) as nat);
        assert(signed_decimal(value).skip(1) =~= decimal((-value) as nat));
    } else {
        decimals_are_read_back(value as nat);
    }
}

/// A padded text ends in the text, behind zeros alone, and is at least as long as asked.
pub proof fn padding_goes_before(text: Seq<char>, width: nat)
    ensures
        zero_padded(text, width).len() >= width,
        zero_padded(text, width).len() == text.len() || zero_padded(text, width).len() == width,
        zero_padded(text, width).skip(zero_padded(text, width).len() - text.len()) == text,
        forall|i: int|
            0 <= i < zero_padded(text, width).len() - text.len() ==> #[trigger] zero_padded(
                text,
                width,
            )[i] == '0',
{
    let padded = zero_padded(text, width);
    assert(padded.skip(padded.len() - text.len()) =~= text);
}

/// A byte in hexadecimal is two digits, the high one first, and the digits of bytes are
/// those of each behind those before it.
pub proof fn every_byte_is_two_digits(bytes: Seq<u8>, i: int)
    requires
        0 <= i < bytes.len(),
    ensures
        hex(bytes).len() == 2 * bytes.len(),
        hex(bytes)[2 * i] == digit(bytes[i] as nat / 16),
        hex(bytes)[2 * i + 1] == digit(bytes[i] as nat % 16),
        forall|a: nat, b: nat| a < b < 16 ==> #[trigger] digit(a) < #[trigger] digit(b),
    decreases bytes.len(),
{
    let init = bytes.drop_last();
    lemma_hex_len(init);
    if i < init.len() {
        every_byte_is_two_digits(init, i);
        assert(init[i] == bytes[i]);
    }
}

proof fn lemma_hex_len(bytes: Seq<u8>)
    ensures
        hex(bytes).len() == 2 * bytes.len(),
    decreases bytes.len(),
{
    if bytes.len() > 0 {
        lemma_hex_len(bytes.drop_last());
    }
}

} // verus!
