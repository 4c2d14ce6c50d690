//! Character and decimal-text utilities shared by the parsers and renderers.
use vstd::prelude::*;
use vstd::string::StrSliceExecFns;

verus! {

/// An ASCII decimal digit.
pub open spec fn is_digit(c: char) -> bool {
    48 <= c as int && c as int <= 57
}

/// The numeric value of a decimal digit character.
pub open spec fn digit_val(c: char) -> int {
    c as int - 48
}

/// The whitespace class used by the planner line grammar.
pub open spec fn is_space(c: char) -> bool {
    c == ' ' || c == '\t' || c == '\n' || c == '\r' || c == '\u{b}' || c == '\u{c}'
}

/// The digit character for a value between 0 and 9.
pub open spec fn digit_char(d: int) -> char
    recommends
        0 <= d < 10,
{
    ((d + 48) as u8) as char
}

/// The decimal digits of `n`, most significant first; empty for 0.
pub open spec fn dec_digits(n: nat) -> Seq<char>
    decreases n,
{
    if n == 0 {
        Seq::empty()
    } else {
        dec_digits(n / 10).push(digit_char((n % 10) as int))
    }
}

/// The canonical decimal rendering of `n`: no leading zeros, "0" for zero.
pub open spec fn dec_str(n: nat) -> Seq<char> {
    if n == 0 {
        seq!['0']
    } else {
        dec_digits(n)
    }
}

/// Every character of `s` is a decimal digit.
pub open spec fn all_digits(s: Seq<char>) -> bool {
    forall|i: int| 0 <= i < s.len() ==> is_digit(#[trigger] s[i])
}

/// The numeric value of a digit string, most significant digit first.
pub open spec fn digits_val(s: Seq<char>) -> int
    decreases s.len(),
{
    if s.len() == 0 {
        0
    } else {
        digits_val(s.drop_last()) * 10 + digit_val(s.last())
    }
}

pub proof fn lemma_digits_val_nonneg(s: Seq<char>)
    requires
        all_digits(s),
    ensures
        digits_val(s) >= 0,
    decreases s.len(),
{
    if s.len() > 0 {
        lemma_digits_val_nonneg(s.drop_last());
    }
}

/// Extending a digit string on the right cannot decrease its value.
pub proof fn lemma_digits_val_extend(s: Seq<char>, i: int)
    requires
        all_digits(s),
        0 <= i <= s.len(),
    ensures
        digits_val(s) >= digits_val(s.take(i)),
    decreases s.len() - i,
{
    if i < s.len() {
        lemma_digits_val_nonneg(s.take(i));
        assert(s.take(i + 1).drop_last() =~= s.take(i));
        lemma_digits_val_extend(s, i + 1);
    } else {
        assert(s.take(i) =~= s);
    }
}

pub proof fn lemma_dec_digits_are_digits(n: nat)
    ensures
        all_digits(dec_digits(n)),
        n > 0 ==> dec_digits(n).len() > 0,
    decreases n,
{
    if n > 0 {
        lemma_dec_digits_are_digits(n / 10);
    }
}

/// `dec_digits` really renders `n`: reading it back gives `n`.
pub proof fn lemma_dec_digits_val(n: nat)
    ensures
        digits_val(dec_digits(n)) == n,
    decreases n,
{
    if n > 0 {
        lemma_dec_digits_val(n / 10);
        assert(dec_digits(n).drop_last() =~= dec_digits(n / 10));
    }
}

/// The first index at or after `from` holding `c`, or the length if none does.
pub open spec fn find_char(s: Seq<char>, c: char, from: int) -> int
    decreases s.len() - from,
{
    if from < 0 || from >= s.len() {
        s.len() as int
    } else if s[from] == c {
        from
    } else {
        find_char(s, c, from + 1)
    }
}

pub proof fn lemma_find_char(s: Seq<char>, c: char, from: int)
    requires
        0 <= from <= s.len(),
    ensures
        from <= find_char(s, c, from) <= s.len(),
        find_char(s, c, from) < s.len() ==> s[find_char(s, c, from)] == c,
        forall|j: int| from <= j < find_char(s, c, from) ==> s[j] != c,
    decreases s.len() - from,
{
    if from < s.len() && s[from] != c {
        lemma_find_char(s, c, from + 1);
    }
}

/// The first index at or after `from` holding a non-whitespace character.
pub open spec fn skip_spaces(s: Seq<char>, from: int) -> int
    decreases s.len() - from,
{
    if from < 0 || from >= s.len() {
        s.len() as int
    } else if is_space(s[from]) {
        skip_spaces(s, from + 1)
    } else {
        from
    }
}

pub proof fn lemma_skip_spaces(s: Seq<char>, from: int)
    requires
        0 <= from <= s.len(),
    ensures
        from <= skip_spaces(s, from) <= s.len(),
        skip_spaces(s, from) < s.len() ==> !is_space(s[skip_spaces(s, from)]),
    decreases s.len() - from,
{
    if from < s.len() && is_space(s[from]) {
        lemma_skip_spaces(s, from + 1);
    }
}

/// The first index at or after `from` holding a non-digit character.
pub open spec fn skip_digits(s: Seq<char>, from: int) -> int
    decreases s.len() - from,
{
    if from < 0 || from >= s.len() {
        s.len() as int
    } else if is_digit(s[from]) {
        skip_digits(s, from + 1)
    } else {
        from
    }
}

pub proof fn lemma_skip_digits(s: Seq<char>, from: int)
    requires
        0 <= from <= s.len(),
    ensures
        from <= skip_digits(s, from) <= s.len(),
        skip_digits(s, from) < s.len() ==> !is_digit(s[skip_digits(s, from)]),
        all_digits(s.subrange(from, skip_digits(s, from))),
    decreases s.len() - from,
{
    if from < s.len() && is_digit(s[from]) {
        lemma_skip_digits(s, from + 1);
        assert forall|i: int| 0 <= i < skip_digits(s, from) - from implies is_digit(
            #[trigger] s.subrange(from, skip_digits(s, from))[i],
        ) by {
            assert(s.subrange(from, skip_digits(s, from))[i] == s[from + i]);
            if i > 0 {
                assert(is_digit(s.subrange(from + 1, skip_digits(s, from + 1))[i - 1]));
            }
        }
    }
}

pub fn exec_is_digit(c: char) -> (r: bool)
    ensures
        r == is_digit(c),
{
    let v: u32 = c as u32;
    48 <= v && v <= 57
}

pub fn exec_is_space(c: char) -> (r: bool)
    ensures
        r == is_space(c),
{
    c == ' ' || c == '\t' || c == '\n' || c == '\r' || c == '\u{b}' || c == '\u{c}'
}

pub fn exec_digit_char(d: u8) -> (r: char)
    requires
        d < 10,
    ensures
        r == digit_char(d as int),
{
    (d + 48) as char
}

/// Appends the decimal digits of `n` to `out` (nothing for 0).
pub fn push_dec_digits(out: &mut Vec<char>, n: u128)
    ensures
        final(out)@ == old(out)@ + dec_digits(n as nat),
    decreases n,
{
    if n == 0 {
        assert(out@ =~= out@ + dec_digits(0));
        return ;
    }
    push_dec_digits(out, n / 10);
    out.push(exec_digit_char((n % 10) as u8));
    assert(out@ =~= old(out)@ + dec_digits(n as nat));
}

/// Appends the canonical decimal rendering of `n` to `out`.
pub fn push_dec(out: &mut Vec<char>, n: u128)
    ensures
        final(out)@ == old(out)@ + dec_str(n as nat),
{
    if n == 0 {
        out.push('0');
        assert(out@ =~= old(out)@ + dec_str(0));
    } else {
        push_dec_digits(out, n);
    }
}

/// The value of an optionally signed decimal integer, if the text is one
/// whose value fits in an `i64`.
pub open spec fn parse_int_text(s: Seq<char>) -> Option<int> {
    let neg = s.len() > 0 && s[0] == '-';
    let ds = if s.len() > 0 && (s[0] == '-' || s[0] == '+') {
        s.drop_first()
    } else {
        s
    };
    if ds.len() > 0 && all_digits(ds) {
        let v = if neg {
            -digits_val(ds)
        } else {
            digits_val(ds)
        };
        if i64::MIN <= v <= i64::MAX {
            Some(v)
        } else {
            None
        }
    } else {
        None
    }
}

/// Parses `v[from..to]` as an optionally signed decimal integer.
pub fn parse_int_range(v: &Vec<char>, from: usize, to: usize) -> (r: Option<i64>)
    requires
        from <= to <= v@.len(),
    ensures
        match r {
            Some(x) => parse_int_text(v@.subrange(from as int, to as int)) == Some(x as int),
            None => parse_int_text(v@.subrange(from as int, to as int)) is None,
        },
{
    let ghost s = v@.subrange(from as int, to as int);
    if from == to {
        return None;
    }
    let c0 = v[from];
    let signed: bool = c0 == '-' || c0 == '+';
    let neg: bool = c0 == '-';
    let dstart: usize = if signed {
        from + 1
    } else {
        from
    };
    let ghost ds = if signed {
        s.drop_first()
    } else {
        s
    };
    assert(s[0] == v@[from as int]);
    assert(signed == (s.len() > 0 && (s[0] == '-' || s[0] == '+')));
    assert(neg == (s.len() > 0 && s[0] == '-'));
    assert(ds =~= v@.subrange(dstart as int, to as int));
    if dstart == to {
        return None;
    }
    assert(ds.len() > 0);
    let mut acc: u128 = 0;
    let mut i: usize = dstart;
    let bound: u128 = 9223372036854775808u128;
    while i < to
        invariant
            dstart <= i <= to <= v@.len(),
            ds == v@.subrange(dstart as int, to as int),
            all_digits(ds.take(i - dstart)),
            acc == digits_val(ds.take(i - dstart)),
            acc <= bound,
            bound == 9223372036854775808u128,
        decreases to - i,
    {
        let c = v[i];
        if !exec_is_digit(c) {
            assert(!is_digit(ds[i - dstart]));
            return None;
        }
        let d: u128 = (c as u32 - 48) as u128;
        assert(ds.take(i + 1 - dstart).drop_last() =~= ds.take(i - dstart));
        acc = acc * 10 + d;
        i = i + 1;
        if acc > bound {
            proof {
                if all_digits(ds) {
                    lemma_digits_val_extend(ds, i - dstart);
                }
            }
            assert(all_digits(ds) ==> digits_val(ds) > i64::MAX);
            return None;
        }
    }
    assert(ds.take(to - dstart) =~= ds);
    if neg {
        if acc == bound {
            return Some(i64::MIN);
        }
        Some(-((acc as i64)))
    } else {
        if acc == bound {
            return None;
        }
        Some(acc as i64)
    }
}

/// A power of ten.
pub open spec fn pow10(k: nat) -> int
    decreases k,
{
    if k == 0 {
        1
    } else {
        10 * pow10((k - 1) as nat)
    }
}

/// A digit string of length `k` holds a value below `pow10(k)`.
pub proof fn lemma_digits_val_upper(s: Seq<char>)
    requires
        all_digits(s),
    ensures
        digits_val(s) < pow10(s.len()),
    decreases s.len(),
{
    if s.len() > 0 {
        lemma_digits_val_upper(s.drop_last());
    }
}

/// `find_char` lands exactly on a known occurrence.
pub proof fn lemma_find_char_at(s: Seq<char>, c: char, from: int, k: int)
    requires
        0 <= from <= k < s.len(),
        s[k] == c,
        forall|j: int| from <= j < k ==> s[j] != c,
    ensures
        find_char(s, c, from) == k,
    decreases k - from,
{
    if from < k {
        lemma_find_char_at(s, c, from + 1, k);
    }
}

/// Scans `v` for `c`, starting at `from`.
pub fn exec_find_char(v: &Vec<char>, c: char, from: usize) -> (r: usize)
    requires
        from <= v@.len(),
    ensures
        r == find_char(v@, c, from as int),
{
    let mut i: usize = from;
    while i < v.len()
        invariant
            from <= i <= v@.len(),
            find_char(v@, c, from as int) == find_char(v@, c, i as int),
        decreases v@.len() - i,
    {
        if v[i] == c {
            return i;
        }
        i = i + 1;
    }
    i
}

/// Scans `v` past whitespace, starting at `from`.
pub fn exec_skip_spaces(v: &Vec<char>, from: usize) -> (r: usize)
    requires
        from <= v@.len(),
    ensures
        r == skip_spaces(v@, from as int),
{
    let mut i: usize = from;
    while i < v.len()
        invariant
            from <= i <= v@.len(),
            skip_spaces(v@, from as int) == skip_spaces(v@, i as int),
        decreases v@.len() - i,
    {
        if !exec_is_space(v[i]) {
            return i;
        }
        i = i + 1;
    }
    i
}

/// Scans `v` past decimal digits, starting at `from`.
pub fn exec_skip_digits(v: &Vec<char>, from: usize) -> (r: usize)
    requires
        from <= v@.len(),
    ensures
        r == skip_digits(v@, from as int),
{
    let mut i: usize = from;
    while i < v.len()
        invariant
            from <= i <= v@.len(),
            skip_digits(v@, from as int) == skip_digits(v@, i as int),
        decreases v@.len() - i,
    {
        if !exec_is_digit(v[i]) {
            return i;
        }
        i = i + 1;
    }
    i
}

/// The value of `v[from..to]` if it is all digits; `None` otherwise.
pub fn digits_range_val(v: &Vec<char>, from: usize, to: usize) -> (r: Option<u32>)
    requires
        from <= to <= v@.len(),
        to - from <= 9,
    ensures
        match r {
            Some(x) => all_digits(v@.subrange(from as int, to as int)) && x == digits_val(
                v@.subrange(from as int, to as int),
            ),
            None => !all_digits(v@.subrange(from as int, to as int)),
        },
{
    let ghost s = v@.subrange(from as int, to as int);
    let mut acc: u32 = 0;
    let mut i: usize = from;
    while i < to
        invariant
            from <= i <= to,
            all_digits(s.take(i - from)),
            acc == digits_val(s.take(i - from)),
        decreases to - i,
    {
        let c = v[i];
        if !exec_is_digit(c) {
            assert(!is_digit(s[i - from]));
            return None;
        }
        proof {
            lemma_digits_val_upper(s.take(i - from));
            assert(pow10(s.take(i - from).len()) <= pow10(8)) by {
                assert(s.take(i - from).len() <= 8);
                reveal_with_fuel(pow10, 10);
                lemma_pow10_mono(s.take(i - from).len(), 8);
            }
            assert(pow10(8) == 100000000) by {
                reveal_with_fuel(pow10, 10);
            }
        }
        assert(s.take(i + 1 - from).drop_last() =~= s.take(i - from));
        acc = acc * 10 + (c as u32 - 48);
        i = i + 1;
    }
    assert(s.take(to - from) =~= s);
    Some(acc)
}

/// The value of the digit run `v[from..to]`, saturated to `cap + 1`.
pub fn capped_digits_val(v: &Vec<char>, from: usize, to: usize, cap: u32) -> (r: u32)
    requires
        from <= to <= v@.len(),
        cap <= 1000,
        all_digits(v@.subrange(from as int, to as int)),
    ensures
        ({
            let val = digits_val(v@.subrange(from as int, to as int));
            if val <= cap {
                r == val
            } else {
                r == cap + 1
            }
        }),
{
    let ghost s = v@.subrange(from as int, to as int);
    proof {
        lemma_digits_val_nonneg(s);
    }
    let mut acc: u32 = 0;
    let mut i: usize = from;
    while i < to
        invariant
            from <= i <= to,
            ({
                let val = digits_val(s.take(i - from));
                if val <= cap {
                    acc == val
                } else {
                    acc == cap + 1
                }
            }),
        decreases to - i,
    {
        let c = v[i];
        assert(is_digit(s[i - from]));
        proof {
            lemma_digits_val_nonneg(s.take(i - from));
            assert(s.take(i + 1 - from).drop_last() =~= s.take(i - from));
        }
        let d: u32 = c as u32 - 48;
        let wide: u32 = acc * 10 + d;
        if wide > cap {
            acc = cap + 1;
        } else {
            acc = wide;
        }
        i = i + 1;
    }
    assert(s.take(to - from) =~= s);
    acc
}

pub proof fn lemma_pow10_mono(a: nat, b: nat)
    requires
        a <= b,
    ensures
        pow10(a) <= pow10(b),
    decreases b,
{
    if a < b {
        lemma_pow10_mono(a, (b - 1) as nat);
        assert(pow10(b) == 10 * pow10((b - 1) as nat));
        assert(pow10(a) >= 1) by {
            lemma_pow10_pos(a);
        }
    }
}

pub proof fn lemma_pow10_pos(a: nat)
    ensures
        pow10(a) >= 1,
    decreases a,
{
    if a > 0 {
        lemma_pow10_pos((a - 1) as nat);
    }
}

/// The characters of `s`, as a vector.
pub fn chars_of_str(s: &str) -> (r: Vec<char>)
    ensures
        r@ == s@,
{
    let n: usize = s.unicode_len();
    let mut out: Vec<char> = Vec::new();
    let mut i: usize = 0;
    while i < n
        invariant
            i <= n,
            n as nat == s@.len(),
            out@ == s@.take(i as int),
        decreases n - i,
    {
        out.push(s.get_char(i));
        assert(out@ =~= s@.take(i + 1));
        i = i + 1;
    }
    assert(out@ =~= s@);
    out
}

/// Relies on `FromIterator for String`: collecting characters yields the
/// string consisting of exactly those characters, in order.
#[verifier::external_body]
pub fn string_from_chars(v: &Vec<char>) -> (r: String)
    ensures
        r@ == v@,
{
    v.iter().collect()
}

/// A copy of `v[from..to]`.
pub fn copy_range(v: &Vec<char>, from: usize, to: usize) -> (r: Vec<char>)
    requires
        from <= to <= v@.len(),
    ensures
        r@ == v@.subrange(from as int, to as int),
{
    let mut out: Vec<char> = Vec::new();
    let mut i: usize = from;
    while i < to
        invariant
            from <= i <= to <= v@.len(),
            out@ == v@.subrange(from as int, i as int),
        decreases to - i,
    {
        out.push(v[i]);
        assert(out@ =~= v@.subrange(from as int, i + 1));
        i = i + 1;
    }
    out
}

/// Relies on `str`'s `PartialEq`: two string slices are equal exactly when
/// their characters are.
#[verifier::external_body]
pub fn str_eq(a: &str, b: &str) -> (r: bool)
    ensures
        r == (a@ == b@),
{
    a == b
}

/// Lexicographic order on character sequences, by code point.
pub open spec fn lex_le(a: Seq<char>, b: Seq<char>) -> bool
    decreases a.len(),
{
    if a.len() == 0 {
        true
    } else if b.len() == 0 {
        false
    } else if (a[0] as int) < (b[0] as int) {
        true
    } else if (a[0] as int) > (b[0] as int) {
        false
    } else {
        lex_le(a.drop_first(), b.drop_first())
    }
}

/// Relies on `str`'s `Ord`: string slices order lexicographically by byte,
/// which for UTF-8 agrees with lexicographic order by code point.
#[verifier::external_body]
pub fn str_le(a: &str, b: &str) -> (r: bool)
    ensures
        r == lex_le(a@, b@),
{
    a <= b
}

} // verus!
