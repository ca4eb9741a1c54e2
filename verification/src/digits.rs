//! Decimal numerals over character sequences: rendering a number as digits,
//! parsing a digit string, zero padding, and the round-trip between them.
use vstd::prelude::*;

verus! {

/// Whether `c` is a decimal digit.
pub open spec fn is_digit_char(c: char) -> bool {
    48 <= c as u32 && c as u32 <= 57
}

/// The value of a digit character.
pub open spec fn digit_val(c: char) -> int {
    c as u32 - 48
}

/// The digit character for a value below ten.
pub open spec fn digit_char(d: int) -> char {
    if d == 0 {
        '0'
    } else if d == 1 {
        '1'
    } else if d == 2 {
        '2'
    } else if d == 3 {
        '3'
    } else if d == 4 {
        '4'
    } else if d == 5 {
        '5'
    } else if d == 6 {
        '6'
    } else if d == 7 {
        '7'
    } else if d == 8 {
        '8'
    } else {
        '9'
    }
}

/// Whether every character of `s` is a decimal digit.
pub open spec fn all_digits(s: Seq<char>) -> bool {
    forall|k: int| 0 <= k < s.len() ==> is_digit_char(s[k])
}

/// The decimal numeral of `n`, without leading zeros.
pub open spec fn dec_spec(n: int) -> Seq<char>
    decreases n,
{
    if n < 10 {
        seq![digit_char(n)]
    } else {
        dec_spec(n / 10).push(digit_char(n % 10))
    }
}

/// The value of a digit string, leading zeros permitted.
pub open spec fn dec_val(s: Seq<char>) -> int
    decreases s.len(),
{
    if s.len() == 0 {
        0
    } else {
        dec_val(s.drop_last()) * 10 + digit_val(s.last())
    }
}

/// A numeral has at least one character and only digits.
pub proof fn lemma_dec_spec_digits(n: int)
    requires
        0 <= n,
    ensures
        dec_spec(n).len() >= 1,
        all_digits(dec_spec(n)),
    decreases n,
{
    if n < 10 {
        assert(is_digit_char(digit_char(n)));
    } else {
        lemma_dec_spec_digits(n / 10);
        assert(is_digit_char(digit_char(n % 10)));
    }
}

/// Parsing a rendered numeral gives the number back.
pub proof fn lemma_dec_roundtrip(n: int)
    requires
        0 <= n,
    ensures
        dec_val(dec_spec(n)) == n,
    decreases n,
{
    if n < 10 {
        let ds = dec_spec(n);
        assert(ds == seq![digit_char(n)]);
        assert(ds.last() == digit_char(n));
        assert(ds.drop_last() =~= Seq::<char>::empty());
        assert(dec_val(ds.drop_last()) == 0);
        assert(digit_val(digit_char(n)) == n);
        assert(dec_val(ds) == dec_val(ds.drop_last()) * 10 + digit_val(ds.last()));
    } else {
        lemma_dec_roundtrip(n / 10);
        let ds = dec_spec(n);
        assert(ds == dec_spec(n / 10).push(digit_char(n % 10)));
        assert(ds.drop_last() =~= dec_spec(n / 10));
        assert(ds.last() == digit_char(n % 10));
        assert(digit_val(digit_char(n % 10)) == n % 10);
        assert(dec_val(ds) == dec_val(ds.drop_last()) * 10 + digit_val(ds.last()));
    }
}

/// A longer digit prefix never lowers the value.
pub proof fn lemma_dec_val_take_monotone(s: Seq<char>, j: int)
    requires
        all_digits(s),
        0 <= j <= s.len(),
    ensures
        dec_val(s.take(j)) <= dec_val(s),
        dec_val(s) >= 0,
    decreases s.len(),
{
    if s.len() == 0 {
        assert(s.take(j) =~= s);
    } else {
        lemma_dec_val_take_monotone(s.drop_last(), if j < s.len() { j } else { j - 1 });
        if j < s.len() {
            assert(s.take(j) =~= s.drop_last().take(j));
        } else {
            assert(s.take(j) =~= s);
        }
        assert(digit_val(s.last()) >= 0);
    }
}

/// The digit character for `d`, executable.
pub fn digit_to_char(d: u32) -> (c: char)
    requires
        d < 10,
    ensures
        c == digit_char(d as int),
{
    if d == 0 {
        '0'
    } else if d == 1 {
        '1'
    } else if d == 2 {
        '2'
    } else if d == 3 {
        '3'
    } else if d == 4 {
        '4'
    } else if d == 5 {
        '5'
    } else if d == 6 {
        '6'
    } else if d == 7 {
        '7'
    } else if d == 8 {
        '8'
    } else {
        '9'
    }
}

/// Renders `n` as a decimal numeral, satisfying [`dec_spec`].
pub fn render_u32(n: u32) -> (out: Vec<char>)
    ensures
        out@ == dec_spec(n as int),
    decreases n,
{
    if n < 10 {
        let mut out: Vec<char> = Vec::new();
        out.push(digit_to_char(n));
        proof {
            assert(out@ =~= seq![digit_char(n as int)]);
        }
        out
    } else {
        let mut out = render_u32(n / 10);
        out.push(digit_to_char(n % 10));
        out
    }
}

/// The digit value of `c`, or none.
pub fn char_digit(c: char) -> (r: Option<u32>)
    ensures
        r is Some <==> is_digit_char(c),
        r is Some ==> r->0 == digit_val(c) && r->0 < 10,
{
    let u = c as u32;
    if 48 <= u && u <= 57 {
        Option::Some(u - 48)
    } else {
        Option::None
    }
}

/// Whether a digit string parses to a value within `i32` range: it must be
/// nonempty, all digits, and denote at most `2147483647`.
pub open spec fn parses_to_i32(s: Seq<char>) -> bool {
    s.len() > 0 && all_digits(s) && dec_val(s) <= 0x7fffffff
}

/// Parses a nonempty digit string with value at most `i32::MAX`; returns
/// `None` exactly on empty input, a non-digit character, or overflow.
pub fn parse_digits(s: &Vec<char>) -> (r: Option<i32>)
    ensures
        r is Some <==> parses_to_i32(s@),
        r is Some ==> r->0 == dec_val(s@) && r->0 >= 0,
{
    if s.len() == 0 {
        return Option::None;
    }
    let mut acc: u32 = 0;
    let mut i: usize = 0;
    while i < s.len()
        invariant
            0 <= i <= s.len(),
            s@.len() > 0,
            forall|k: int| 0 <= k < i ==> is_digit_char(s@[k]),
            acc == dec_val(s@.take(i as int)),
            acc <= 0x7fffffff,
        decreases s.len() - i,
    {
        let d = match char_digit(s[i]) {
            Option::Some(d) => d,
            Option::None => {
                return Option::None;
            },
        };
        let wide: u64 = (acc as u64) * 10 + (d as u64);
        proof {
            assert(s@.take(i + 1 as int).drop_last() =~= s@.take(i as int));
            assert(s@.take(i + 1 as int).last() == s@[i as int]);
        }
        if wide > 0x7fffffff {
            proof {
                assert(dec_val(s@.take(i + 1 as int)) == wide);
                assert(all_digits(s@) ==> dec_val(s@.take(i + 1 as int)) <= dec_val(s@)) by {
                    if all_digits(s@) {
                        lemma_dec_val_take_monotone(s@, i + 1);
                    }
                }
            }
            return Option::None;
        }
        acc = wide as u32;
        i += 1;
    }
    proof {
        assert(s@.take(s@.len() as int) =~= s@);
    }
    Option::Some(acc as i32)
}

/// `s` padded on the left with zeros to width `w` (unchanged when already
/// that wide); padding does not change the value.
pub open spec fn zero_pad_spec(s: Seq<char>, w: int) -> Seq<char>
    decreases w - s.len(),
{
    if s.len() >= w {
        s
    } else {
        zero_pad_spec(seq!['0'] + s, w)
    }
}

/// Zero padding keeps the denoted value and yields exactly width `w` when
/// the input is no wider.
pub proof fn lemma_zero_pad_val(s: Seq<char>, w: int)
    requires
        0 <= w,
    ensures
        dec_val(zero_pad_spec(s, w)) == dec_val(s),
        zero_pad_spec(s, w).len() >= w,
        s.len() <= w ==> zero_pad_spec(s, w).len() == w,
        all_digits(s) ==> all_digits(zero_pad_spec(s, w)),
    decreases w - s.len(),
{
    if s.len() < w {
        lemma_zero_pad_prefix_val(s);
        lemma_zero_pad_val(seq!['0'] + s, w);
    }
}

proof fn lemma_zero_pad_prefix_val(s: Seq<char>)
    ensures
        dec_val(seq!['0'] + s) == dec_val(s),
        all_digits(s) ==> all_digits(seq!['0'] + s),
    decreases s.len(),
{
    if s.len() == 0 {
        assert(seq!['0'] + s =~= seq!['0']);
        let s0 = seq!['0'];
        assert(s0.drop_last() =~= Seq::<char>::empty());
        assert(s0.last() == '0');
        assert(dec_val(s0) == dec_val(s0.drop_last()) * 10 + digit_val(s0.last()));
    } else {
        lemma_zero_pad_prefix_val(s.drop_last());
        assert((seq!['0'] + s).drop_last() =~= seq!['0'] + s.drop_last());
        assert((seq!['0'] + s).last() == s.last());
    }
    assert(is_digit_char('0'));
}

/// Renders `n` zero-padded on the left to at least width `w`.
pub fn render_padded(n: u32, w: usize) -> (out: Vec<char>)
    ensures
        out@ == zero_pad_spec(dec_spec(n as int), w as int),
{
    let mut digits = render_u32(n);
    while digits.len() < w
        invariant
            zero_pad_spec(digits@, w as int) == zero_pad_spec(dec_spec(n as int), w as int),
        decreases w - digits.len(),
    {
        let ghost prev = digits@;
        digits.insert(0, '0');
        proof {
            assert(digits@ =~= seq!['0'] + prev);
        }
    }
    digits
}

} // verus!
