//! Building and reading text, one character at a time.

use vstd::prelude::*;

verus! {

/// The character of a decimal digit.
pub open spec fn digit_char(d: int) -> char {
    ((d + 48) as u8) as char
}

/// A natural number in decimal notation, without leading zeros.
pub open spec fn decimal_nat(n: nat) -> Seq<char>
    decreases n,
{
    if n < 10 {
        seq![digit_char(n as int)]
    } else {
        decimal_nat(n / 10).push(digit_char((n % 10) as int))
    }
}

/// An integer in decimal notation, with a leading minus sign when negative.
pub open spec fn decimal(n: int) -> Seq<char> {
    if n < 0 {
        seq!['-'] + decimal_nat((-n) as nat)
    } else {
        decimal_nat(n as nat)
    }
}

/// `String::push` appends one character at the end.
pub assume_specification[ String::push ](s: &mut String, c: char)
    ensures
        final(s)@ == old(s)@.push(c),
;

/// Appends a natural number in decimal notation.
pub fn push_decimal_nat(out: &mut String, n: u128)
    ensures
        final(out)@ == old(out)@ + decimal_nat(n as nat),
    decreases n,
{
    if n >= 10 {
        push_decimal_nat(out, n / 10);
    }
    let d: u8 = (n % 10) as u8;
    out.push((d + 48) as char);
    proof {
        if n >= 10 {
            assert(out@ == old(out)@ + decimal_nat((n / 10) as nat).push(digit_char((n % 10) as int)));
        } else {
            assert(out@ == old(out)@ + decimal_nat(n as nat));
        }
    }
}

/// Appends an integer in decimal notation.
pub fn push_decimal(out: &mut String, n: i128)
    requires
        n > i128::MIN,
    ensures
        final(out)@ == old(out)@ + decimal(n as int),
{
    if n < 0 {
        out.push('-');
        push_decimal_nat(out, (-n) as u128);
        assert(out@ == old(out)@ + decimal(n as int));
    } else {
        push_decimal_nat(out, n as u128);
    }
}

/// Appends a piece of text.
pub fn push_text(out: &mut String, piece: &str)
    ensures
        final(out)@ == old(out)@ + piece@,
{
    let ghost start = out@;
    for c in it: piece.chars()
        invariant
            it.seq() == piece@,
            out@ == start + piece@.take(it.index()),
    {
        out.push(c);
        assert(piece@.take(it.index() + 1) == piece@.take(it.index()).push(c));
    }
    assert(piece@.take(piece@.len() as int) == piece@);
}

/// The characters of a piece of text.
pub fn chars_of(text: &str) -> (r: Vec<char>)
    ensures
        r@ == text@,
{
    let mut out: Vec<char> = Vec::new();
    for c in it: text.chars()
        invariant
            it.seq() == text@,
            out@ == text@.take(it.index()),
    {
        out.push(c);
        assert(text@.take(it.index() + 1) == text@.take(it.index()).push(c));
    }
    assert(text@.take(text@.len() as int) == text@);
    out
}

/// The text made of these characters.
pub fn text_of(chars: &Vec<char>) -> (r: String)
    ensures
        r@ == chars@,
{
    let mut out = String::new();
    let mut i: usize = 0;
    while i < chars.len()
        invariant
            i <= chars@.len(),
            out@ == chars@.take(i as int),
        decreases chars@.len() - i,
    {
        out.push(chars[i]);
        assert(chars@.take(i + 1) == chars@.take(i as int).push(chars@[i as int]));
        i += 1;
    }
    assert(chars@.take(chars@.len() as int) == chars@);
    out
}

/// A white-space character, as Unicode has it.
pub open spec fn is_space(c: char) -> bool {
    ||| '\u{9}' <= c <= '\u{d}'
    ||| c == ' '
    ||| c == '\u{85}'
    ||| c == '\u{a0}'
    ||| c == '\u{1680}'
    ||| '\u{2000}' <= c <= '\u{200a}'
    ||| c == '\u{2028}'
    ||| c == '\u{2029}'
    ||| c == '\u{202f}'
    ||| c == '\u{205f}'
    ||| c == '\u{3000}'
}

/// Whether a character is white space.
pub fn is_white_space(c: char) -> (r: bool)
    ensures
        r == is_space(c),
{
    ('\u{9}' <= c && c <= '\u{d}') || c == ' ' || c == '\u{85}' || c == '\u{a0}' || c == '\u{1680}'
        || ('\u{2000}' <= c && c <= '\u{200a}') || c == '\u{2028}' || c == '\u{2029}' || c
        == '\u{202f}' || c == '\u{205f}' || c == '\u{3000}'
}

/// The text without white space at its two ends.
pub open spec fn trimmed(s: Seq<char>) -> Seq<char>
    decreases s.len(),
{
    if s.len() == 0 {
        s
    } else if is_space(s.first()) {
        trimmed(s.drop_first())
    } else if is_space(s.last()) {
        trimmed(s.drop_last())
    } else {
        s
    }
}

/// Removes white space from the two ends.
pub fn trim(s: &Vec<char>) -> (r: Vec<char>)
    ensures
        r@ == trimmed(s@),
{
    let mut from: usize = 0;
    let mut to: usize = s.len();
    assert(s@.subrange(0, s@.len() as int) == s@);
    while from < to && is_white_space(s[from])
        invariant
            from <= to,
            to == s@.len(),
            trimmed(s@.subrange(from as int, to as int)) == trimmed(s@),
        decreases to - from,
    {
        assert(s@.subrange(from as int, to as int).drop_first() == s@.subrange(
            from + 1,
            to as int,
        ));
        from += 1;
    }
    while from < to && is_white_space(s[to - 1])
        invariant
            from <= to <= s@.len(),
            from < to ==> !is_space(s@[from as int]),
            trimmed(s@.subrange(from as int, to as int)) == trimmed(s@),
        decreases to - from,
    {
        assert(s@.subrange(from as int, to as int).drop_last() == s@.subrange(
            from as int,
            to - 1,
        ));
        to -= 1;
    }
    let mut out: Vec<char> = Vec::new();
    let mut i: usize = from;
    while i < to
        invariant
            from <= i <= to <= s@.len(),
            out@ == s@.subrange(from as int, i as int),
        decreases to - i,
    {
        out.push(s[i]);
        assert(s@.subrange(from as int, i + 1) == s@.subrange(from as int, i as int).push(
            s@[i as int],
        ));
        i += 1;
    }
    out
}

/// The pieces of a text between separators. There is always at least one.
pub open spec fn pieces(s: Seq<char>, sep: char) -> Seq<Seq<char>>
    decreases s.len(),
{
    if s.len() == 0 {
        seq![Seq::empty()]
    } else {
        let before = pieces(s.drop_last(), sep);
        if s.last() == sep {
            before.push(Seq::empty())
        } else {
            before.update(before.len() - 1, before.last().push(s.last()))
        }
    }
}

/// The characters of each entry.
pub open spec fn texts(v: Seq<Vec<char>>) -> Seq<Seq<char>> {
    Seq::new(v.len(), |i: int| v[i]@)
}

/// Splits a text at every separator.
pub fn split(s: &Vec<char>, sep: char) -> (r: Vec<Vec<char>>)
    ensures
        texts(r@) == pieces(s@, sep),
        r@.len() >= 1,
{
    let mut out: Vec<Vec<char>> = Vec::new();
    let mut cur: Vec<char> = Vec::new();
    let mut i: usize = 0;
    assert(texts(out@).push(cur@) == pieces(s@.take(0), sep));
    while i < s.len()
        invariant
            i <= s@.len(),
            texts(out@).push(cur@) == pieces(s@.take(i as int), sep),
        decreases s@.len() - i,
    {
        let c: char = s[i];
        let ghost before = texts(out@).push(cur@);
        assert(s@.take(i + 1).drop_last() == s@.take(i as int));
        if c == sep {
            out.push(cur);
            cur = Vec::new();
            assert(texts(out@) == before);
            assert(texts(out@).push(cur@) == before.push(Seq::empty()));
        } else {
            cur.push(c);
            assert(texts(out@).push(cur@) == before.update(
                before.len() - 1,
                before.last().push(c),
            ));
        }
        i += 1;
    }
    assert(s@.take(s@.len() as int) == s@);
    let ghost before = texts(out@).push(cur@);
    out.push(cur);
    assert(texts(out@) == before);
    out
}

/// Why a text is not an integer of some type.
#[derive(Debug, Clone, Copy, PartialEq, Eq, Structural)]
pub enum IntError {
    /// There is no character.
    Empty,
    /// A character is not a digit, or there is only a sign.
    InvalidDigit,
    /// The number is too large.
    TooLarge,
    /// The number is too small.
    TooSmall,
}

/// A decimal digit.
pub open spec fn is_digit(c: char) -> bool {
    '0' <= c <= '9'
}

/// The value of a run of digits, read from the left: the first character
/// that is not a digit, or that takes the value above `most`, decides the
/// error.
pub open spec fn magnitude(digits: Seq<char>, most: int, over: IntError) -> Result<int, IntError>
    decreases digits.len(),
{
    if digits.len() == 0 {
        Ok(0)
    } else {
        match magnitude(digits.drop_last(), most, over) {
            Err(e) => Err(e),
            Ok(v) => {
                let next = v * 10 + (digits.last() as int - '0' as int);
                if !is_digit(digits.last()) {
                    Err(IntError::InvalidDigit)
                } else if next > most {
                    Err(over)
                } else {
                    Ok(next)
                }
            },
        }
    }
}

/// The non-negative integer that a text stands for: digits, perhaps after a
/// plus sign.
pub open spec fn natural(s: Seq<char>, most: int) -> Result<int, IntError> {
    if s.len() == 0 {
        Err(IntError::Empty)
    } else if s.len() == 1 && (s[0] == '+' || s[0] == '-') {
        Err(IntError::InvalidDigit)
    } else if s[0] == '+' {
        magnitude(s.drop_first(), most, IntError::TooLarge)
    } else {
        magnitude(s, most, IntError::TooLarge)
    }
}

/// The signed 64-bit integer that a text stands for: digits, perhaps after a
/// sign.
pub open spec fn integer(s: Seq<char>) -> Result<int, IntError> {
    if s.len() > 1 && s[0] == '-' {
        match magnitude(s.drop_first(), -(i64::MIN as int), IntError::TooSmall) {
            Ok(v) => Ok(-v),
            Err(e) => Err(e),
        }
    } else {
        natural(s, i64::MAX as int)
    }
}

/// Reads digits from position `from` on.
fn read_magnitude(s: &Vec<char>, from: usize, most: u128, over: IntError) -> (r: Result<
    u128,
    IntError,
>)
    requires
        from <= s@.len(),
        most <= u64::MAX,
    ensures
        (match r {
            Ok(v) => Ok(v as int),
            Err(e) => Err(e),
        }) == magnitude(s@.skip(from as int), most as int, over),
        r is Ok ==> r->Ok_0 <= most,
{
    let ghost digits = s@.skip(from as int);
    let mut value: u128 = 0;
    let mut i: usize = from;
    while i < s.len()
        invariant
            from <= i <= s@.len(),
            digits == s@.skip(from as int),
            most <= u64::MAX,
            value <= most,
            magnitude(digits.take(i - from), most as int, over) == Ok::<int, IntError>(
                value as int,
            ),
        decreases s@.len() - i,
    {
        let c: char = s[i];
        let ghost upto = digits.take(i + 1 - from);
        assert(upto.drop_last() == digits.take(i - from));
        assert(upto.last() == c);
        if !('0' <= c && c <= '9') {
            proof {
                lemma_error_is_final(digits, i + 1 - from, most as int, over);
            }
            return Err(IntError::InvalidDigit);
        }
        let next: u128 = value * 10 + (c as u32 - 48) as u128;
        if next > most {
            proof {
                lemma_error_is_final(digits, i + 1 - from, most as int, over);
            }
            return Err(over);
        }
        value = next;
        i += 1;
    }
    assert(digits.take(digits.len() as int) == digits);
    Ok(value)
}

/// An error in a prefix is the error of the whole.
proof fn lemma_error_is_final(digits: Seq<char>, k: int, most: int, over: IntError)
    requires
        0 <= k <= digits.len(),
        magnitude(digits.take(k), most, over) is Err,
    ensures
        magnitude(digits, most, over) == magnitude(digits.take(k), most, over),
    decreases digits.len(),
{
    if k == digits.len() {
        assert(digits.take(k) == digits);
    } else {
        assert(digits.drop_last().take(k) == digits.take(k));
        lemma_error_is_final(digits.drop_last(), k, most, over);
    }
}

/// Reads a non-negative integer.
fn read_natural(s: &Vec<char>, most: u128) -> (r: Result<u128, IntError>)
    requires
        most <= u64::MAX,
    ensures
        (match r {
            Ok(v) => Ok(v as int),
            Err(e) => Err(e),
        }) == natural(s@, most as int),
        r is Ok ==> r->Ok_0 <= most,
{
    if s.len() == 0 {
        return Err(IntError::Empty);
    }
    if s.len() == 1 && (s[0] == '+' || s[0] == '-') {
        return Err(IntError::InvalidDigit);
    }
    assert(s@.skip(0) == s@);
    assert(s@.skip(1) == s@.drop_first());
    if s[0] == '+' {
        read_magnitude(s, 1, most, IntError::TooLarge)
    } else {
        read_magnitude(s, 0, most, IntError::TooLarge)
    }
}

/// Reads a `usize`.
pub fn read_usize(s: &Vec<char>) -> (r: Result<usize, IntError>)
    ensures
        (match r {
            Ok(v) => Ok(v as int),
            Err(e) => Err(e),
        }) == natural(s@, usize::MAX as int),
{
    match read_natural(s, usize::MAX as u128) {
        Ok(v) => Ok(v as usize),
        Err(e) => Err(e),
    }
}

/// Reads a `u64`.
pub fn read_u64(s: &Vec<char>) -> (r: Result<u64, IntError>)
    ensures
        (match r {
            Ok(v) => Ok(v as int),
            Err(e) => Err(e),
        }) == natural(s@, u64::MAX as int),
{
    match read_natural(s, u64::MAX as u128) {
        Ok(v) => Ok(v as u64),
        Err(e) => Err(e),
    }
}

/// Reads an `i64`.
pub fn read_i64(s: &Vec<char>) -> (r: Result<i64, IntError>)
    ensures
        (match r {
            Ok(v) => Ok(v as int),
            Err(e) => Err(e),
        }) == integer(s@),
{
    if s.len() > 1 && s[0] == '-' {
        assert(s@.skip(1) == s@.drop_first());
        match read_magnitude(s, 1, 0x8000_0000_0000_0000, IntError::TooSmall) {
            Ok(v) => Ok((-(v as i128)) as i64),
            Err(e) => Err(e),
        }
    } else {
        match read_natural(s, i64::MAX as u128) {
            Ok(v) => Ok(v as i64),
            Err(e) => Err(e),
        }
    }
}

/// The words for an [`IntError`].
pub open spec fn int_error_words(e: IntError) -> Seq<char> {
    match e {
        IntError::Empty => "cannot parse integer from empty string"@,
        IntError::InvalidDigit => "invalid digit found in string"@,
        IntError::TooLarge => "number too large to fit in target type"@,
        IntError::TooSmall => "number too small to fit in target type"@,
    }
}

impl IntError {
    /// The error in words.
    pub fn words(&self) -> (r: &'static str)
        ensures
            r@ == int_error_words(*self),
    {
        match self {
            IntError::Empty => "cannot parse integer from empty string",
            IntError::InvalidDigit => "invalid digit found in string",
            IntError::TooLarge => "number too large to fit in target type",
            IntError::TooSmall => "number too small to fit in target type",
        }
    }
}

/// The quoted and escaped form of a piece of text, as the standard library
/// prints it for debugging.
pub uninterp spec fn quoted(text: Seq<char>) -> Seq<char>;

/// The `Debug` form of a `str`. Nothing is claimed of it but that it is
/// determined by the text.
#[verifier::external_body]
pub(crate) fn quote(text: &str) -> (r: String)
    ensures
        r@ == quoted(text@),
{
    format!("{:?}", text)
}

/// A number in decimal notation: one digit for a number below ten, and one
/// digit more than a tenth of it otherwise. A negative number has a minus
/// sign in front.
pub proof fn numbers_are_written_in_decimal(n: nat, d: nat)
    requires
        d < 10,
    ensures
        decimal_nat(d).len() == 1,
        decimal_nat(d)[0] as int == 48 + d,
        n > 0 ==> decimal_nat(10 * n + d) == decimal_nat(n) + decimal_nat(d),
        decimal(n as int) == decimal_nat(n),
        n > 0 ==> decimal(-(n as int)) == seq!['-'] + decimal_nat(n),
{
    assert((10 * n + d) / 10 == n && (10 * n + d) % 10 == d);
    if n > 0 {
        assert(decimal_nat(10 * n + d) =~= decimal_nat(n) + decimal_nat(d));
    }
}

/// What is written in decimal notation is made of digits, without a leading
/// zero but in zero itself.
pub proof fn written_numbers_are_digits(n: nat)
    ensures
        decimal_nat(n).len() > 0,
        forall|i: int| 0 <= i < decimal_nat(n).len() ==> '0' <= #[trigger] decimal_nat(n)[i] <= '9',
        n > 0 ==> decimal_nat(n)[0] != '0',
    decreases n,
{
    if n >= 10 {
        written_numbers_are_digits(n / 10);
        assert(decimal_nat(n)[0] == decimal_nat(n / 10)[0]);
    }
}

/// The digits of a number are read as the number, unless it is too large.
proof fn lemma_digits_are_read(n: nat, most: int, over: IntError)
    requires
        most >= 0,
    ensures
        magnitude(decimal_nat(n), most, over) == (if n <= most {
            Ok::<int, IntError>(n as int)
        } else {
            Err(over)
        }),
    decreases n,
{
    let s = decimal_nat(n);
    assert(magnitude(Seq::<char>::empty(), most, over) == Ok::<int, IntError>(0));
    if n >= 10 {
        lemma_digits_are_read(n / 10, most, over);
        assert(s.drop_last() =~= decimal_nat(n / 10));
        assert(s.last() == digit_char((n % 10) as int));
    } else {
        assert(s.drop_last() =~= Seq::<char>::empty());
        assert(s.last() == digit_char(n as int));
    }
}

/// What is written is read back: a non-negative number with or without a plus
/// sign in front, and every number of 64 bits. A number that is too large or
/// too small is told apart from text that is no number.
pub proof fn written_numbers_are_read_back(n: nat, v: int, most: int)
    requires
        most >= 0,
    ensures
        n <= most ==> natural(decimal_nat(n), most) == Ok::<int, IntError>(n as int),
        n <= most ==> natural(seq!['+'] + decimal_nat(n), most) == Ok::<int, IntError>(n as int),
        n > most ==> natural(decimal_nat(n), most) == Err::<int, IntError>(IntError::TooLarge),
        n > 0 ==> natural(seq!['-'] + decimal_nat(n), most) == Err::<int, IntError>(
            IntError::InvalidDigit,
        ),
        i64::MIN <= v <= i64::MAX ==> integer(decimal(v)) == Ok::<int, IntError>(v),
        v > i64::MAX ==> integer(decimal(v)) == Err::<int, IntError>(IntError::TooLarge),
        v < i64::MIN ==> integer(decimal(v)) == Err::<int, IntError>(IntError::TooSmall),
{
    written_numbers_are_digits(n);
    lemma_digits_are_read(n, most, IntError::TooLarge);
    assert((seq!['+'] + decimal_nat(n)).drop_first() =~= decimal_nat(n));
    let minus = seq!['-'] + decimal_nat(n);
    assert(minus.take(1).drop_last() =~= Seq::<char>::empty());
    assert(minus.take(1).last() == '-');
    assert(magnitude(minus.take(1).drop_last(), most, IntError::TooLarge) == Ok::<int, IntError>(0));
    assert(!is_digit('-'));
    assert(magnitude(minus.take(1), most, IntError::TooLarge) == Err::<int, IntError>(
        IntError::InvalidDigit,
    ));
    lemma_error_is_final(minus, 1, most, IntError::TooLarge);
    if v >= 0 {
        written_numbers_are_digits(v as nat);
        lemma_digits_are_read(v as nat, i64::MAX as int, IntError::TooLarge);
        assert(decimal(v)[0] != '-');
    } else {
        let size = (-v) as nat;
        written_numbers_are_digits(size);
        lemma_digits_are_read(size, -(i64::MIN as int), IntError::TooSmall);
        assert(decimal(v).drop_first() =~= decimal_nat(size));
    }
}

/// A run of digits as a number: none is zero, leading zeros change nothing,
/// and anything but a digit makes it no number at all.
pub proof fn what_is_read_is_made_of_digits(s: Seq<char>, most: int, over: IntError)
    requires
        most >= 0,
    ensures
        magnitude(seq!['0'] + s, most, over) == magnitude(s, most, over),
        magnitude(s, most, over) is Ok ==> 0 <= magnitude(s, most, over)->Ok_0 <= most && forall|
            i: int,
        |
            0 <= i < s.len() ==> '0' <= #[trigger] s[i] <= '9',
        magnitude(s, most, over) is Err ==> magnitude(s, most, over)->Err_0 == over || (
        magnitude(s, most, over)->Err_0 is InvalidDigit && exists|i: int|
            0 <= i < s.len() && !('0' <= #[trigger] s[i] <= '9')),
    decreases s.len(),
{
    let more = seq!['0'] + s;
    if s.len() == 0 {
        assert(more.drop_last() =~= Seq::<char>::empty());
        assert(more.last() == '0');
        assert(magnitude(Seq::<char>::empty(), most, over) == Ok::<int, IntError>(0));
        assert(s =~= Seq::<char>::empty());
    } else {
        let rest = s.drop_last();
        what_is_read_is_made_of_digits(rest, most, over);
        assert(more.drop_last() =~= seq!['0'] + rest);
        assert(more.last() == s.last());
        match magnitude(rest, most, over) {
            Ok(_) => {
                assert forall|i: int| 0 <= i < s.len() && magnitude(s, most, over) is Ok implies '0'
                    <= #[trigger] s[i] <= '9' by {
                    if i < s.len() - 1 {
                        assert(s[i] == rest[i]);
                    }
                }
                if !is_digit(s.last()) {
                    assert(!('0' <= s[s.len() - 1] <= '9'));
                }
            },
            Err(e) => {
                if e is InvalidDigit && e != over {
                    let i = choose|i: int| 0 <= i < rest.len() && !('0' <= #[trigger] rest[i] <= '9');
                    assert(s[i] == rest[i]);
                }
            },
        }
    }
}

/// A text without the separator is its own and only piece, and a separator
/// between two texts keeps their pieces apart, in order.
pub proof fn separators_part_the_pieces(a: Seq<char>, b: Seq<char>, sep: char)
    ensures
        !a.contains(sep) ==> pieces(a, sep) == seq![a],
        pieces(a.push(sep) + b, sep) == pieces(a, sep) + pieces(b, sep),
        pieces(a, sep).len() > 0,
    decreases a.len() + b.len(),
{
    if a.len() > 0 {
        separators_part_the_pieces(a.drop_last(), Seq::empty(), sep);
        if !a.contains(sep) {
            let less = a.drop_last();
            assert(!less.contains(sep)) by {
                if less.contains(sep) {
                    let i = choose|i: int| 0 <= i < less.len() && less[i] == sep;
                    assert(a[i] == sep);
                }
            }
            assert(a.last() != sep) by {
                assert(a[a.len() - 1] == a.last());
            }
            assert(less.push(a.last()) =~= a);
            assert(pieces(a, sep) =~= seq![a]);
        }
    } else {
        assert(a =~= Seq::<char>::empty());
    }
    let whole = a.push(sep) + b;
    if b.len() == 0 {
        assert(whole.drop_last() =~= a);
        assert(b =~= Seq::<char>::empty());
        assert(pieces(whole, sep) =~= pieces(a, sep) + pieces(b, sep));
    } else {
        separators_part_the_pieces(a, b.drop_last(), sep);
        lemma_there_is_a_piece(b.drop_last(), sep);
        assert(whole.drop_last() =~= a.push(sep) + b.drop_last());
        assert(whole.last() == b.last());
        assert(pieces(whole, sep) =~= pieces(a, sep) + pieces(b, sep));
    }
}

/// Every text has a piece.
proof fn lemma_there_is_a_piece(s: Seq<char>, sep: char)
    ensures
        pieces(s, sep).len() > 0,
    decreases s.len(),
{
    if s.len() > 0 {
        lemma_there_is_a_piece(s.drop_last(), sep);
    }
}

/// Trimming takes the white space off the two ends, and nothing else.
pub proof fn trimming_takes_white_space_off_the_ends(
    before: Seq<char>,
    core: Seq<char>,
    behind: Seq<char>,
)
    requires
        forall|i: int| 0 <= i < before.len() ==> is_space(#[trigger] before[i]),
        forall|i: int| 0 <= i < behind.len() ==> is_space(#[trigger] behind[i]),
        core.len() > 0 ==> !is_space(core.first()) && !is_space(core.last()),
    ensures
        trimmed(before + core + behind) == core,
    decreases before.len() + behind.len(),
{
    let s = before + core + behind;
    if before.len() > 0 {
        assert(s.first() == before[0]);
        assert(s.drop_first() =~= before.drop_first() + core + behind);
        trimming_takes_white_space_off_the_ends(before.drop_first(), core, behind);
    } else if behind.len() > 0 {
        if core.len() == 0 {
            assert(s.first() == behind[0]);
            assert(s.drop_first() =~= before + core + behind.drop_first());
            trimming_takes_white_space_off_the_ends(before, core, behind.drop_first());
        } else {
            assert(s.first() == core.first());
            assert(s.last() == behind.last());
            assert(behind[behind.len() - 1] == behind.last());
            assert(s.drop_last() =~= before + core + behind.drop_last());
            trimming_takes_white_space_off_the_ends(before, core, behind.drop_last());
        }
    } else {
        assert(s =~= core);
    }
}

/// The white-space characters, by their numbers.
pub proof fn white_space_by_number(c: char)
    ensures
        is_space(c) <==> {
            let n = c as u32;
            9 <= n <= 13 || n == 32 || n == 133 || n == 160 || n == 5760 || 8192 <= n <= 8202 || n
                == 8232 || n == 8233 || n == 8239 || n == 8287 || n == 12288
        },
{
}

/// Reading goes from the left, and the first thing that is wrong decides what
/// is said of the whole: a character that is no digit, or a number that has
/// become too large. What stands behind it does not matter.
pub proof fn the_first_thing_wrong_decides(
    s: Seq<char>,
    c: char,
    rest: Seq<char>,
    most: int,
    over: IntError,
)
    requires
        magnitude(s, most, over) is Ok,
    ensures
        !('0' <= c <= '9') ==> magnitude(s.push(c) + rest, most, over) == Err::<int, IntError>(
            IntError::InvalidDigit,
        ),
        '0' <= c <= '9' && 10 * magnitude(s, most, over)->Ok_0 + (c as int - 48) > most
            ==> magnitude(s.push(c) + rest, most, over) == Err::<int, IntError>(over),
        '0' <= c <= '9' && 10 * magnitude(s, most, over)->Ok_0 + (c as int - 48) <= most
            ==> magnitude(s.push(c), most, over) == Ok::<int, IntError>(
            10 * magnitude(s, most, over)->Ok_0 + (c as int - 48),
        ),
{
    let whole = s.push(c) + rest;
    let k = s.len() + 1;
    assert(whole.take(k as int) =~= s.push(c));
    assert(s.push(c).drop_last() =~= s);
    assert(s.push(c).last() == c);
    if magnitude(s.push(c), most, over) is Err {
        lemma_error_is_final(whole, k as int, most, over);
    }
}

/// No text at all is told apart from a sign without digits.
pub proof fn a_sign_alone_is_no_number(most: int)
    ensures
        natural(Seq::empty(), most) == Err::<int, IntError>(IntError::Empty),
        integer(Seq::empty()) == Err::<int, IntError>(IntError::Empty),
        natural(seq!['+'], most) == Err::<int, IntError>(IntError::InvalidDigit),
        natural(seq!['-'], most) == Err::<int, IntError>(IntError::InvalidDigit),
        integer(seq!['+']) == Err::<int, IntError>(IntError::InvalidDigit),
        integer(seq!['-']) == Err::<int, IntError>(IntError::InvalidDigit),
{
}

/// A sign counts only in front: a plus sign changes nothing, a minus sign
/// makes a number of 64 bits negative, and is no part of any other.
pub proof fn a_sign_counts_only_in_front(s: Seq<char>, most: int)
    requires
        s.len() > 0,
        most >= 0,
    ensures
        natural(seq!['+'] + s, most) == magnitude(s, most, IntError::TooLarge),
        natural(seq!['-'] + s, most) == Err::<int, IntError>(IntError::InvalidDigit),
        s[0] != '+' && s[0] != '-' ==> natural(s, most) == magnitude(s, most, IntError::TooLarge),
        s[0] != '-' ==> integer(s) == natural(s, 0x7FFF_FFFF_FFFF_FFFF),
        integer(seq!['-'] + s) == (match magnitude(
            s,
            0x8000_0000_0000_0000,
            IntError::TooSmall,
        ) {
            Ok(v) => Ok::<int, IntError>(-v),
            Err(e) => Err(e),
        }),
{
    assert((seq!['+'] + s).drop_first() =~= s);
    assert((seq!['-'] + s).drop_first() =~= s);
    assert(magnitude(Seq::<char>::empty(), most, IntError::TooLarge) is Ok);
    the_first_thing_wrong_decides(Seq::empty(), '-', s, most, IntError::TooLarge);
    assert(Seq::<char>::empty().push('-') + s =~= seq!['-'] + s);
}

/// The words for text that is no integer.
pub proof fn words_for_integers()
    ensures
        int_error_words(IntError::Empty) == "cannot parse integer from empty string"@,
        int_error_words(IntError::InvalidDigit) == "invalid digit found in string"@,
        int_error_words(IntError::TooLarge) == "number too large to fit in target type"@,
        int_error_words(IntError::TooSmall) == "number too small to fit in target type"@,
{
}

} // verus!
