//! Signed time spans with the canonical `H:MM` text form.
use vstd::prelude::*;
use vstd::arithmetic::div_mod::lemma_fundamental_div_mod;
use vstd::arithmetic::div_mod::lemma_fundamental_div_mod_converse;
use crate::text::all_digits;
use crate::text::chars_of_str;
use crate::text::dec_str;
use crate::text::digits_val;
use crate::text::exec_find_char;
use crate::text::find_char;
use crate::text::lemma_dec_digits_are_digits;
use crate::text::lemma_dec_digits_val;
use crate::text::lemma_find_char;
use crate::text::lemma_find_char_at;
use crate::text::parse_int_range;
use crate::text::parse_int_text;
use crate::text::push_dec;
use crate::text::string_from_chars;
use crate::commons::FormatError;

verus! {

/// A signed span of time. Seconds precision internally, minutes precision at
/// the text boundary. The canonical text form is `H:MM`: hours without
/// leading zeros, minutes zero-padded to two digits, and a sign character
/// only when a signed rendering of a nonzero span is requested.
#[derive(Clone, Copy, PartialEq, Eq, Structural, Debug)]
pub struct TimeEstimate {
    seconds: i128,
}

/// Minutes zero-padded to two digits.
pub open spec fn spec_pad2(m: nat) -> Seq<char> {
    if m < 10 {
        seq!['0'] + dec_str(m)
    } else {
        dec_str(m)
    }
}

/// The seconds denoted by duration text: empty text is zero; otherwise the
/// text is split on `:`, the first segment is a signed hour count, the
/// optional second segment a minute count (segments past the second are
/// ignored), and the span is `hours * 60 + minutes` minutes. `None` when a
/// present segment is not an integer that fits in an `i64`.
pub open spec fn spec_parse_duration(s: Seq<char>) -> Option<int> {
    if s.len() == 0 {
        Some(0)
    } else {
        let i = find_char(s, ':', 0);
        let hours = parse_int_text(s.subrange(0, i));
        let minutes = if i == s.len() {
            Some(0int)
        } else {
            parse_int_text(s.subrange(i + 1, find_char(s, ':', i + 1)))
        };
        match (hours, minutes) {
            (Some(h), Some(m)) => Some((h * 60 + m) * 60),
            _ => None,
        }
    }
}

/// The canonical rendering of a span of `secs` seconds: the absolute value's
/// whole minutes decomposed into hours and minutes, with a sign character
/// only when `signed` is set and the span is nonzero.
pub open spec fn spec_render_duration(secs: int, signed: bool) -> Seq<char> {
    let mag = if secs >= 0 {
        secs
    } else {
        -secs
    };
    let total_minutes = mag / 60;
    let sign: Seq<char> = if signed && secs > 0 {
        seq!['+']
    } else if signed && secs < 0 {
        seq!['-']
    } else {
        Seq::empty()
    };
    sign + dec_str((total_minutes / 60) as nat) + seq![':'] + spec_pad2((total_minutes % 60) as nat)
}

impl TimeEstimate {
    /// The span as a whole number of seconds.
    pub closed spec fn spec_seconds(self) -> int {
        self.seconds as int
    }

    pub fn zero() -> (r: Self)
        ensures
            r.spec_seconds() == 0,
    {
        TimeEstimate { seconds: 0 }
    }

    pub fn from_secs(input: i64) -> (r: Self)
        ensures
            r.spec_seconds() == input as int,
    {
        TimeEstimate { seconds: input as i128 }
    }

    pub fn to_secs(&self) -> (r: i64)
        requires
            i64::MIN <= self.spec_seconds() <= i64::MAX,
        ensures
            r as int == self.spec_seconds(),
    {
        self.seconds as i64
    }

    pub(crate) fn from_wide_secs(input: i128) -> (r: Self)
        ensures
            r.spec_seconds() == input as int,
    {
        TimeEstimate { seconds: input }
    }

    pub fn wide_secs(&self) -> (r: i128)
        ensures
            r as int == self.spec_seconds(),
    {
        self.seconds
    }

    /// The span truncated to whole minutes, rounding toward zero.
    pub fn whole_minutes(&self) -> (r: i128)
        ensures
            r == if self.spec_seconds() >= 0 {
                self.spec_seconds() / 60
            } else {
                -((-self.spec_seconds()) / 60)
            },
    {
        self.seconds / 60
    }

    /// Parses duration text. Empty text is a zero span; `H` and `H:MM`
    /// forms give `H * 60 + MM` minutes.
    pub fn parse(text: &str) -> (r: Result<TimeEstimate, FormatError>)
        ensures
            match r {
                Ok(d) => spec_parse_duration(text@) == Some(d.spec_seconds()),
                Err(_) => spec_parse_duration(text@) is None,
            },
    {
        let v = chars_of_str(text);
        if v.len() == 0 {
            return Ok(TimeEstimate { seconds: 0 });
        }
        let i = exec_find_char(&v, ':', 0);
        proof {
            lemma_find_char(v@, ':', 0);
        }
        let hours: i64 = match parse_int_range(&v, 0, i) {
            Some(h) => h,
            None => {
                return Err(FormatError::Duration);
            },
        };
        let minutes: i64 = if i == v.len() {
            0
        } else {
            let j = exec_find_char(&v, ':', i + 1);
            proof {
                lemma_find_char(v@, ':', i + 1);
            }
            match parse_int_range(&v, i + 1, j) {
                Some(m) => m,
                None => {
                    return Err(FormatError::Duration);
                },
            }
        };
        let secs: i128 = ((hours as i128) * 60 + (minutes as i128)) * 60;
        Ok(TimeEstimate { seconds: secs })
    }

    /// Renders the span in the canonical `H:MM` form.
    pub fn render(&self, signed: bool) -> (r: String)
        ensures
            r@ == spec_render_duration(self.spec_seconds(), signed),
    {
        let mut out: Vec<char> = Vec::new();
        if signed && self.seconds > 0 {
            out.push('+');
        }
        if signed && self.seconds < 0 {
            out.push('-');
        }
        let mag: u128 = if self.seconds >= 0 {
            self.seconds as u128
        } else {
            ((-(self.seconds + 1)) as u128) + 1
        };
        assert(mag as int == if self.spec_seconds() >= 0 {
            self.spec_seconds()
        } else {
            -self.spec_seconds()
        });
        let total_minutes: u128 = mag / 60;
        let hours: u128 = total_minutes / 60;
        let minutes: u128 = total_minutes % 60;
        push_dec(&mut out, hours);
        out.push(':');
        if minutes < 10 {
            out.push('0');
        }
        push_dec(&mut out, minutes);
        assert(out@ =~= spec_render_duration(self.spec_seconds(), signed));
        string_from_chars(&out)
    }
}

impl Default for TimeEstimate {
    /// The zero span.
    fn default() -> (r: Self)
        ensures
            r.spec_seconds() == 0,
    {
        TimeEstimate { seconds: 0 }
    }
}

/// `dec_str(n)` denotes `n` as an unsigned integer text, and as duration
/// hours text.
proof fn lemma_parse_dec_str(n: nat)
    requires
        n <= i64::MAX,
    ensures
        all_digits(dec_str(n)),
        dec_str(n).len() > 0,
        parse_int_text(dec_str(n)) == Some(n as int),
{
    lemma_dec_digits_are_digits(n);
    lemma_dec_digits_val(n);
    reveal_with_fuel(crate::text::digits_val, 4);
    if n == 0 {
        assert(dec_str(0) =~= seq!['0']);
        assert(digits_val(seq!['0']) == 0) by {
            assert(seq!['0'].drop_last() =~= Seq::<char>::empty());
        }
    }
    let s = dec_str(n);
    assert(!(s[0] == '-' || s[0] == '+'));
}

/// `spec_pad2(m)` is two digit characters denoting `m`.
proof fn lemma_parse_pad2(m: nat)
    requires
        m < 60,
    ensures
        all_digits(spec_pad2(m)),
        spec_pad2(m).len() == 2,
        parse_int_text(spec_pad2(m)) == Some(m as int),
{
    lemma_dec_digits_are_digits(m);
    lemma_dec_digits_val(m);
    reveal_with_fuel(crate::text::digits_val, 4);
    reveal_with_fuel(crate::text::dec_digits, 4);
    let s = spec_pad2(m);
    if m == 0 {
        assert(dec_str(0) =~= seq!['0']);
        assert(s =~= seq!['0', '0']);
        assert(digits_val(seq!['0', '0']) == 0) by {
            assert(seq!['0', '0'].drop_last() =~= seq!['0']);
            assert(seq!['0'].drop_last() =~= Seq::<char>::empty());
        }
    } else if m < 10 {
        assert(dec_str(m) == crate::text::dec_digits(m));
        assert(crate::text::dec_digits(m) =~= seq![crate::text::digit_char(m as int)]) by {
            assert(crate::text::dec_digits(m / 10) =~= Seq::<char>::empty());
        }
        assert(s =~= seq!['0', crate::text::digit_char(m as int)]);
        assert(digits_val(s) == m) by {
            assert(s.drop_last() =~= seq!['0']);
            assert(seq!['0'].drop_last() =~= Seq::<char>::empty());
        }
    } else {
        assert(s == crate::text::dec_digits(m));
        assert(crate::text::dec_digits(m / 10) =~= seq![crate::text::digit_char((m / 10) as int)])
            by {
            assert(crate::text::dec_digits(m / 10 / 10) =~= Seq::<char>::empty());
        }
        assert(s.len() == 2);
    }
    assert(!(s[0] == '-' || s[0] == '+'));
}

/// Parsing the canonical rendering of `hours` and `minutes` gives back
/// exactly that many minutes.
proof fn lemma_parse_canonical(h: int, m: int)
    requires
        0 <= h <= i64::MAX,
        0 <= m < 60,
    ensures
        spec_parse_duration(dec_str(h as nat) + seq![':'] + spec_pad2(m as nat)) == Some(
            (h * 60 + m) * 60,
        ),
{
    let hs = dec_str(h as nat);
    let ms = spec_pad2(m as nat);
    let t = hs + seq![':'] + ms;
    lemma_parse_dec_str(h as nat);
    lemma_parse_pad2(m as nat);
    assert(t.len() > 0);
    assert(t[hs.len() as int] == ':');
    assert forall|j: int| 0 <= j < hs.len() implies t[j] != ':' by {
        assert(t[j] == hs[j]);
        assert(crate::text::is_digit(hs[j]));
    }
    lemma_find_char_at(t, ':', 0, hs.len() as int);
    assert(t.subrange(0, hs.len() as int) =~= hs);
    let after = hs.len() + 1;
    assert forall|j: int| after <= j < t.len() implies t[j] != ':' by {
        assert(t[j] == ms[j - after]);
        assert(crate::text::is_digit(ms[j - after]));
    }
    lemma_find_char(t, ':', after as int);
    assert(find_char(t, ':', after as int) == t.len());
    assert(t.subrange(after as int, t.len() as int) =~= ms);
}

/// Rendering `(h * 60 + m) * 60` seconds unsigned gives the canonical text.
proof fn lemma_render_canonical(h: int, m: int)
    requires
        0 <= h,
        0 <= m < 60,
        (h * 60 + m) * 60 <= i128::MAX,
    ensures
        spec_render_duration((h * 60 + m) * 60, false) == dec_str(h as nat) + seq![':']
            + spec_pad2(m as nat),
{
    let secs = (h * 60 + m) * 60;
    let tm = h * 60 + m;
    assert(secs >= 0) by (nonlinear_arith)
        requires
            h >= 0,
            m >= 0,
            secs == (h * 60 + m) * 60,
    ;
    lemma_fundamental_div_mod_converse(secs, 60, tm, 0);
    assert(secs / 60 == tm);
    lemma_fundamental_div_mod_converse(tm, 60, h, m);
    assert(tm / 60 == h && tm % 60 == m);
    assert(spec_render_duration(secs, false) =~= dec_str(h as nat) + seq![':'] + spec_pad2(
        m as nat,
    ));
}

/// Round trip: parsing the unsigned rendering of a whole-minute span gives
/// back the span's absolute value; for non-negative spans, the span itself.
pub proof fn lemma_duration_round_trip(secs: int)
    requires
        secs % 60 == 0,
        -(3600 * 0x7fff_ffff_ffff_ffff) <= secs <= 3600 * 0x7fff_ffff_ffff_ffff,
    ensures
        spec_parse_duration(spec_render_duration(secs, false)) == Some(
            if secs >= 0 {
                secs
            } else {
                -secs
            },
        ),
{
    let mag = if secs >= 0 {
        secs
    } else {
        -secs
    };
    assert(mag % 60 == 0);
    let tm = mag / 60;
    lemma_fundamental_div_mod(mag, 60);
    assert(mag == 60 * tm);
    let h = tm / 60;
    let m = tm % 60;
    lemma_fundamental_div_mod(tm, 60);
    assert(tm == 60 * h + m);
    assert(h <= i64::MAX) by (nonlinear_arith)
        requires
            mag <= 3600 * 0x7fff_ffff_ffff_ffff,
            mag == 60 * tm,
            tm == 60 * h + m,
            0 <= m < 60,
            mag >= 0,
    ;
    assert(h >= 0 && 0 <= m < 60);
    lemma_parse_canonical(h, m);
    lemma_render_canonical(h, m);
    assert((h * 60 + m) * 60 == mag) by (nonlinear_arith)
        requires
            mag == 60 * tm,
            tm == 60 * h + m,
    ;
}

/// Canonical text round trip: for non-negative hours and two-digit minutes,
/// rendering the parse of `H:MM` unsigned gives back exactly `H:MM`.
pub proof fn lemma_canonical_text_round_trip(h: int, m: int)
    requires
        0 <= h <= i64::MAX,
        0 <= m < 60,
    ensures
        spec_parse_duration(dec_str(h as nat) + seq![':'] + spec_pad2(m as nat)) == Some(
            (h * 60 + m) * 60,
        ),
        spec_render_duration((h * 60 + m) * 60, false) == dec_str(h as nat) + seq![':']
            + spec_pad2(m as nat),
{
    lemma_parse_canonical(h, m);
    assert((h * 60 + m) * 60 <= i128::MAX) by (nonlinear_arith)
        requires
            0 <= h <= i64::MAX,
            0 <= m < 60,
    ;
    lemma_render_canonical(h, m);
}

} // verus!
