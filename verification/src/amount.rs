use vstd::prelude::*;

verus! {

/// Number of fixed-point units in one whole currency unit: amounts keep
/// exactly four decimal digits.
pub const SCALE: i64 = 10000;

/// Holds when a mathematical value fits the fixed-point representation.
pub open spec fn amount_in_range(v: int) -> bool {
    i64::MIN <= v <= i64::MAX
}

/// A monetary amount, held as a signed count of ten-thousandths of the
/// currency unit, so that arithmetic at four decimal digits is exact.
#[derive(Clone, Copy, Debug, PartialEq, Eq, Structural)]
pub struct Amount {
    units: i64,
}

impl View for Amount {
    type V = int;

    closed spec fn view(&self) -> int {
        self.units as int
    }
}

impl Amount {
    /// The zero amount.
    pub fn zero() -> (r: Amount)
        ensures
            r@ == 0,
    {
        Amount { units: 0 }
    }

    /// An amount of `units` ten-thousandths.
    pub fn from_units(units: i64) -> (r: Amount)
        ensures
            r@ == units as int,
    {
        Amount { units }
    }

    /// The amount as a count of ten-thousandths.
    pub fn units(self) -> (r: i64)
        ensures
            r as int == self@,
    {
        self.units
    }

    /// Exact sum, or `None` when the sum leaves the representable range.
    pub fn checked_add(self, other: Amount) -> (r: Option<Amount>)
        ensures
            amount_in_range(self@ + other@) ==> (r matches Some(v) && v@ == self@ + other@),
            !amount_in_range(self@ + other@) ==> r is None,
    {
        match self.units.checked_add(other.units) {
            Some(units) => Some(Amount { units }),
            None => None,
        }
    }

    /// Exact difference, or `None` when it leaves the representable range.
    pub fn checked_sub(self, other: Amount) -> (r: Option<Amount>)
        ensures
            amount_in_range(self@ - other@) ==> (r matches Some(v) && v@ == self@ - other@),
            !amount_in_range(self@ - other@) ==> r is None,
    {
        match self.units.checked_sub(other.units) {
            Some(units) => Some(Amount { units }),
            None => None,
        }
    }
}

/// The amount holding `v` ten-thousandths, for representable `v`.
pub closed spec fn spec_amount(v: int) -> Amount {
    Amount { units: v as i64 }
}

/// `spec_amount` holds the value it was given, when that value is
/// representable, and no two amounts share a value.
pub proof fn lemma_spec_amount(v: int, a: Amount)
    requires
        amount_in_range(v),
    ensures
        spec_amount(v)@ == v,
        a@ == v ==> a == spec_amount(v),
{
}

/// An amount's value is always representable.
pub proof fn lemma_amount_view_range(a: Amount)
    ensures
        amount_in_range(a@),
{
}

/// Two amounts with the same value are the same amount.
pub proof fn lemma_amount_eq(a: Amount, b: Amount)
    requires
        a@ == b@,
    ensures
        a == b,
{
}

/// Whether a character is a decimal digit.
pub open spec fn is_digit(c: char) -> bool {
    48 <= c as int <= 57
}

/// The value of a decimal digit character.
pub open spec fn digit_val(c: char) -> int {
    c as int - 48
}

/// Whether every character of the sequence is a decimal digit.
pub open spec fn all_digits(s: Seq<char>) -> bool {
    forall|i: int| 0 <= i < s.len() ==> is_digit(#[trigger] s[i])
}

/// The number a sequence of decimal digits denotes.
pub open spec fn digits_val(s: Seq<char>) -> int
    decreases s.len(),
{
    if s.len() == 0 {
        0
    } else {
        digits_val(s.drop_last()) * 10 + digit_val(s.last())
    }
}

/// Ten to the given power.
pub open spec fn pow10(n: nat) -> int
    decreases n,
{
    if n == 0 {
        1
    } else {
        10 * pow10((n - 1) as nat)
    }
}

/// A digit sequence denotes a number in `[0, pow10(len))`.
pub proof fn lemma_digits_val_bound(s: Seq<char>)
    requires
        all_digits(s),
    ensures
        0 <= digits_val(s) < pow10(s.len()),
    decreases s.len(),
{
    if s.len() > 0 {
        assert(all_digits(s.drop_last()));
        lemma_digits_val_bound(s.drop_last());
    }
}

/// Dropping trailing digits never increases the denoted number.
pub proof fn lemma_digits_val_prefix_le(s: Seq<char>, k: int)
    requires
        all_digits(s),
        0 <= k <= s.len(),
    ensures
        digits_val(s.take(k)) <= digits_val(s),
    decreases s.len() - k,
{
    if k < s.len() {
        assert(s.take(k + 1).drop_last() =~= s.take(k));
        assert(s.take(k + 1).last() == s[k]);
        assert(all_digits(s.take(k)));
        lemma_digits_val_bound(s.take(k));
        lemma_digits_val_prefix_le(s, k + 1);
    } else {
        assert(s.take(k) =~= s);
    }
}

/// The position of the first dot, or the length when there is none.
pub open spec fn first_dot(s: Seq<char>) -> int
    decreases s.len(),
{
    if s.len() == 0 {
        0
    } else if s[0] == '.' {
        0
    } else {
        1 + first_dot(s.drop_first())
    }
}

/// `first_dot` lies in range, nothing before it is a dot, and when it lies
/// strictly inside the sequence it points at a dot.
pub proof fn lemma_first_dot(s: Seq<char>)
    ensures
        0 <= first_dot(s) <= s.len(),
        forall|j: int| 0 <= j < first_dot(s) ==> s[j] != '.',
        first_dot(s) < s.len() ==> s[first_dot(s)] == '.',
    decreases s.len(),
{
    if s.len() > 0 && s[0] != '.' {
        lemma_first_dot(s.drop_first());
        assert(forall|j: int| 0 <= j < first_dot(s.drop_first()) ==> s.drop_first()[j] != '.');
        assert forall|j: int| 0 <= j < first_dot(s) implies s[j] != '.' by {
            if j > 0 {
                assert(s.drop_first()[j - 1] != '.');
            }
        }
    }
}

/// The fixed-point value of a fraction written after the dot: its first
/// four digits, rounded half away from zero on the fifth.
pub open spec fn frac_units(fr: Seq<char>) -> int {
    let base = if fr.len() >= 4 {
        digits_val(fr.take(4))
    } else {
        digits_val(fr) * pow10((4 - fr.len()) as nat)
    };
    let round: int = if fr.len() >= 5 && digit_val(fr[4]) >= 5 {
        1
    } else {
        0
    };
    base + round
}

/// How a decimal string denotes a fixed-point amount: an optional sign, then
/// digits with at most one dot and at least one digit, rounded to four
/// decimal digits, half away from zero. Out-of-range values do not parse.
pub open spec fn parse_amount_spec(s: Seq<char>) -> Option<int> {
    let neg = s.len() > 0 && s[0] == '-';
    let signed = s.len() > 0 && (s[0] == '-' || s[0] == '+');
    let body = if signed {
        s.drop_first()
    } else {
        s
    };
    let d = first_dot(body);
    let ip = body.take(d);
    let fp = if d < body.len() {
        body.skip(d + 1)
    } else {
        Seq::empty()
    };
    if all_digits(ip) && all_digits(fp) && ip.len() + fp.len() > 0 {
        let mag = digits_val(ip) * 10000 + frac_units(fp);
        let v: int = if neg {
            -mag
        } else {
            mag
        };
        if amount_in_range(v) {
            Some(v)
        } else {
            None
        }
    } else {
        None
    }
}

/// The fraction written after the dot is worth at most one whole unit.
pub proof fn lemma_frac_units_range(fr: Seq<char>)
    requires
        all_digits(fr),
    ensures
        0 <= frac_units(fr) <= 10000,
{
    assert(pow10(0) == 1);
    assert(pow10(1) == 10);
    assert(pow10(2) == 100);
    assert(pow10(3) == 1000);
    assert(pow10(4) == 10000);
    if fr.len() >= 4 {
        assert(all_digits(fr.take(4)));
        lemma_digits_val_bound(fr.take(4));
    } else {
        lemma_digits_val_bound(fr);
        let pw = pow10((4 - fr.len()) as nat);
        if fr.len() == 0 {
            assert(digits_val(fr) == 0);
            assert(digits_val(fr) * pw == 0);
        } else if fr.len() == 1 {
            assert(pw == 1000);
            assert(digits_val(fr) * pw == digits_val(fr) * 1000);
            assert(digits_val(fr) * 1000 <= 9000);
        } else if fr.len() == 2 {
            assert(pw == 100);
            assert(digits_val(fr) * pw == digits_val(fr) * 100);
            assert(digits_val(fr) * 100 <= 9900);
        } else {
            assert(pw == 10);
            assert(digits_val(fr) * pw == digits_val(fr) * 10);
            assert(digits_val(fr) * 10 <= 9990);
        }
    }
}

/// The powers of ten up to the fixed-point scale.
pub proof fn lemma_pow10_small()
    ensures
        pow10(0) == 1,
        pow10(1) == 10,
        pow10(2) == 100,
        pow10(3) == 1000,
        pow10(4) == 10000,
{
    assert(pow10(0) == 1);
    assert(pow10(1) == 10);
    assert(pow10(2) == 100);
    assert(pow10(3) == 1000);
    assert(pow10(4) == 10000);
}

/// Largest whole-unit count whose fixed-point form stays representable.
const MAX_WHOLE_UNITS: u64 = 922337203685477;

/// The value of the digits in `s[from..to]`, when they are all digits and
/// their value stays within `cap`; `None` otherwise.
pub(crate) fn digits_value_capped(s: &str, from: usize, to: usize, cap: u64) -> (r: Option<u64>)
    requires
        from <= to <= s@.len(),
        cap <= 1844674407370955160,
    ensures
        match r {
            Some(v) => all_digits(s@.subrange(from as int, to as int)) && v as int == digits_val(
                s@.subrange(from as int, to as int),
            ) && v <= cap,
            None => !(all_digits(s@.subrange(from as int, to as int)) && digits_val(
                s@.subrange(from as int, to as int),
            ) <= cap),
        },
{
    let ghost sub = s@.subrange(from as int, to as int);
    let mut acc: u64 = 0;
    let mut k: usize = from;
    while k < to
        invariant
            from <= k <= to <= s@.len(),
            sub == s@.subrange(from as int, to as int),
            cap <= 1844674407370955160,
            acc <= cap,
            all_digits(sub.take(k - from)),
            acc as int == digits_val(sub.take(k - from)),
        decreases to - k,
    {
        let c = s.get_char(k);
        let cv = c as u32;
        proof {
            assert(sub[k - from] == s@[k as int]);
        }
        if cv < 48 || cv > 57 {
            proof {
                assert(!is_digit(sub[k - from]));
            }
            return None;
        }
        let dgt = (cv - 48) as u64;
        acc = acc * 10 + dgt;
        proof {
            assert(sub.take(k - from + 1).drop_last() =~= sub.take(k - from));
            assert(sub.take(k - from + 1).last() == s@[k as int]);
            assert(digit_val(s@[k as int]) == dgt as int);
        }
        if acc > cap {
            proof {
                if all_digits(sub) {
                    lemma_digits_val_prefix_le(sub, k - from + 1);
                }
            }
            return None;
        }
        k += 1;
    }
    proof {
        assert(sub.take(k - from) =~= sub);
    }
    Some(acc)
}

/// The position of the first dot at or after `from`, or the length when
/// there is none.
fn find_dot(s: &str, from: usize) -> (dot: usize)
    requires
        from <= s@.len(),
    ensures
        from <= dot <= s@.len(),
        forall|j: int| from <= j < dot ==> s@[j] != '.',
        dot < s@.len() ==> s@[dot as int] == '.',
{
    let n = s.unicode_len();
    let mut k: usize = from;
    while k < n
        invariant
            from <= k <= n,
            n == s@.len(),
            forall|j: int| from <= j < k ==> s@[j] != '.',
        decreases n - k,
    {
        if s.get_char(k) == '.' {
            return k;
        }
        k += 1;
    }
    k
}

/// The fixed-point value of the fraction written in `s[from..to]`, when its
/// characters are all digits; `None` otherwise.
fn frac_value(s: &str, from: usize, to: usize) -> (r: Option<u64>)
    requires
        from <= to <= s@.len(),
    ensures
        match r {
            Some(v) => all_digits(s@.subrange(from as int, to as int)) && v as int == frac_units(
                s@.subrange(from as int, to as int),
            ),
            None => !all_digits(s@.subrange(from as int, to as int)),
        },
{
    let ghost fr = s@.subrange(from as int, to as int);
    let mut facc: u64 = 0;
    let mut round: u64 = 0;
    let mut k: usize = from;
    while k < to
        invariant
            from <= k <= to <= s@.len(),
            fr == s@.subrange(from as int, to as int),
            fr.len() == to - from,
            all_digits(fr.take(k - from)),
            facc <= 9999,
            k - from <= 4 ==> facc as int == digits_val(fr.take(k - from)),
            k - from > 4 ==> facc as int == digits_val(fr.take(4)),
            round <= 1,
            (round == 1) <==> (k - from >= 5 && digit_val(fr[4]) >= 5),
        decreases to - k,
    {
        let c = s.get_char(k);
        let cv = c as u32;
        proof {
            assert(fr[k - from] == s@[k as int]);
        }
        if cv < 48 || cv > 57 {
            proof {
                assert(!is_digit(fr[k - from]));
            }
            return None;
        }
        let dgt = (cv - 48) as u64;
        let idx = k - from;
        if idx < 4 {
            facc = facc * 10 + dgt;
            proof {
                assert(fr.take(idx + 1).drop_last() =~= fr.take(idx as int));
                assert(fr.take(idx + 1).last() == s@[k as int]);
                assert(digit_val(s@[k as int]) == dgt as int);
                assert(all_digits(fr.take(idx + 1)));
                lemma_digits_val_bound(fr.take(idx + 1));
                lemma_pow10_small();
            }
        } else if idx == 4 {
            if dgt >= 5 {
                round = 1;
            }
            proof {
                assert(fr[4] == s@[k as int]);
            }
        }
        k += 1;
    }
    proof {
        assert(fr.take(k - from) =~= fr);
    }
    let flen = to - from;
    let base: u64 = if flen >= 4 {
        facc
    } else if flen == 3 {
        facc * 10
    } else if flen == 2 {
        facc * 100
    } else if flen == 1 {
        facc * 1000
    } else {
        0
    };
    proof {
        lemma_pow10_small();
        if flen < 4 {
            assert(fr.take(flen as int) =~= fr);
        }
    }
    Some(base + round)
}

/// Parse a decimal string into a fixed-point amount, exactly as
/// `parse_amount_spec` describes.
pub fn parse_amount(s: &str) -> (r: Option<Amount>)
    ensures
        r is Some <==> parse_amount_spec(s@) is Some,
        r is Some ==> r.unwrap()@ == parse_amount_spec(s@).unwrap(),
{
    let n = s.unicode_len();
    if n == 0 {
        return None;
    }
    let c0 = s.get_char(0);
    let neg = c0 == '-';
    let start: usize = if c0 == '-' || c0 == '+' {
        1
    } else {
        0
    };
    let ghost body = s@.subrange(start as int, n as int);
    proof {
        if start == 1 {
            assert(body =~= s@.drop_first());
        } else {
            assert(body =~= s@);
        }
        lemma_first_dot(body);
    }
    let ghost d = first_dot(body);
    let ghost ip = body.take(d);
    let ghost fp: Seq<char> = if d < body.len() {
        body.skip(d + 1)
    } else {
        Seq::empty()
    };

    let dot = find_dot(s, start);
    proof {
        assert(forall|j: int| 0 <= j < body.len() ==> #[trigger] body[j] == s@[j + start]);
        if d < dot - start {
            assert(body[d] == '.');
            assert(body[d] == s@[d + start]);
            assert(false);
        }
        if d > dot - start {
            assert(dot < n);
            assert(body[dot - start] == s@[dot as int]);
            assert(body[dot - start] == '.');
            assert(false);
        }
        assert(d == dot - start);
        assert(ip =~= s@.subrange(start as int, dot as int));
        if dot < n {
            assert(fp =~= s@.subrange(dot + 1, n as int));
        }
    }

    let int_len = dot - start;
    let frac_len = if dot < n {
        n - dot - 1
    } else {
        0
    };
    proof {
        assert(ip.len() == int_len);
        assert(fp.len() == frac_len);
    }
    if int_len == 0 && frac_len == 0 {
        return None;
    }

    let acc = match digits_value_capped(s, start, dot, MAX_WHOLE_UNITS) {
        Some(v) => v,
        None => {
            proof {
                if all_digits(ip) && all_digits(fp) && ip.len() + fp.len() > 0 {
                    lemma_frac_units_range(fp);
                    assert(digits_val(ip) >= 922337203685478);
                    assert(digits_val(ip) * 10000 >= 922337203685478 * 10000)
                        by (nonlinear_arith)
                        requires
                            digits_val(ip) >= 922337203685478,
                    ;
                }
                assert(parse_amount_spec(s@) is None);
            }
            return None;
        },
    };
    let funits: u64 = if dot < n {
        match frac_value(s, dot + 1, n) {
            Some(v) => v,
            None => {
                return None;
            },
        }
    } else {
        0
    };
    proof {
        if dot >= n {
            lemma_pow10_small();
            assert(fp.len() == 0);
        }
        lemma_frac_units_range(fp);
        assert(funits as int == frac_units(fp));
    }
    let mag: u64 = acc * 10000 + funits;
    proof {
        assert(mag as int == digits_val(ip) * 10000 + frac_units(fp));
    }
    if neg {
        if mag > 9223372036854775808u64 {
            return None;
        }
        let v: i64 = if mag == 9223372036854775808u64 {
            i64::MIN
        } else {
            -(mag as i64)
        };
        Some(Amount::from_units(v))
    } else {
        if mag > 9223372036854775807u64 {
            return None;
        }
        Some(Amount::from_units(mag as i64))
    }
}

/// The character for one decimal digit.
pub open spec fn digit_char(d: int) -> char {
    if d == 0 {
        '0'
    } else if d == 1 {
        '1'
    } else if d == 2 {
        '2'
    } else if d == 3 {
        '3'
    } else if d == 4 {
        '4'
    } else if d == 5 {
        '5'
    } else if d == 6 {
        '6'
    } else if d == 7 {
        '7'
    } else if d == 8 {
        '8'
    } else {
        '9'
    }
}

/// The decimal digits of `n`, most significant first, no leading zeros.
pub open spec fn dec_digits(n: nat) -> Seq<char>
    decreases n,
{
    if n < 10 {
        seq![digit_char(n as int)]
    } else {
        dec_digits(n / 10).push(digit_char((n % 10) as int))
    }
}

/// The fraction as printed: four digits with trailing zeros trimmed, at
/// least one digit kept.
pub open spec fn frac_str(f: int) -> Seq<char> {
    let a = digit_char(f / 1000);
    let b = digit_char((f / 100) % 10);
    let c = digit_char((f / 10) % 10);
    let d = digit_char(f % 10);
    if f % 10 != 0 {
        seq![a, b, c, d]
    } else if (f / 10) % 10 != 0 {
        seq![a, b, c]
    } else if (f / 100) % 10 != 0 {
        seq![a, b]
    } else {
        seq![a]
    }
}

/// How an amount is written: an optional minus sign, the whole units, a
/// dot, and the fraction with trailing zeros trimmed.
pub open spec fn amount_str(v: int) -> Seq<char> {
    let mag = if v < 0 {
        -v
    } else {
        v
    };
    let sign: Seq<char> = if v < 0 {
        seq!['-']
    } else {
        Seq::empty()
    };
    sign + dec_digits((mag / 10000) as nat) + seq!['.'] + frac_str(mag % 10000)
}

/// Characters that never collide with the output record separators.
pub open spec fn csv_safe_char(c: char) -> bool {
    c != ',' && c != '"' && c != '\n' && c != '\r'
}

/// A text free of the output record separators.
pub open spec fn csv_safe(s: Seq<char>) -> bool {
    forall|i: int| 0 <= i < s.len() ==> csv_safe_char(#[trigger] s[i])
}

/// Digit runs are nonempty and free of separators.
pub proof fn lemma_dec_digits_safe(n: nat)
    ensures
        dec_digits(n).len() >= 1,
        csv_safe(dec_digits(n)),
    decreases n,
{
    if n >= 10 {
        lemma_dec_digits_safe(n / 10);
    }
}

/// A printed amount is free of the output record separators.
pub proof fn lemma_amount_str_safe(v: int)
    ensures
        csv_safe(amount_str(v)),
{
    let mag = if v < 0 {
        -v
    } else {
        v
    };
    lemma_dec_digits_safe((mag / 10000) as nat);
}

/// The one-character string for a decimal digit.
fn digit_str(d: u64) -> (r: &'static str)
    requires
        d < 10,
    ensures
        r@ == seq![digit_char(d as int)],
{
    let r: &'static str = if d == 0 {
        "0"
    } else if d == 1 {
        "1"
    } else if d == 2 {
        "2"
    } else if d == 3 {
        "3"
    } else if d == 4 {
        "4"
    } else if d == 5 {
        "5"
    } else if d == 6 {
        "6"
    } else if d == 7 {
        "7"
    } else if d == 8 {
        "8"
    } else {
        "9"
    };
    proof {
        reveal_strlit("0");
        reveal_strlit("1");
        reveal_strlit("2");
        reveal_strlit("3");
        reveal_strlit("4");
        reveal_strlit("5");
        reveal_strlit("6");
        reveal_strlit("7");
        reveal_strlit("8");
        reveal_strlit("9");
        assert(r@ =~= seq![digit_char(d as int)]);
    }
    r
}

/// Append the decimal digits of `n`.
fn push_dec_digits(out: &mut String, n: u64)
    ensures
        final(out)@ == old(out)@ + dec_digits(n as nat),
    decreases n,
{
    if n < 10 {
        out.append(digit_str(n));
        proof {
            assert(final(out)@ =~= old(out)@ + dec_digits(n as nat));
        }
    } else {
        push_dec_digits(out, n / 10);
        out.append(digit_str(n % 10));
        proof {
            assert(final(out)@ =~= old(out)@ + dec_digits(n as nat));
        }
    }
}

/// Write a client id as decimal digits.
pub fn render_u16(n: u16) -> (r: String)
    ensures
        r@ == dec_digits(n as nat),
{
    let mut out = String::new();
    push_dec_digits(&mut out, n as u64);
    proof {
        assert(out@ =~= dec_digits(n as nat));
    }
    out
}

/// Write an amount as a decimal string, exactly as `amount_str` describes.
pub fn render_amount(a: Amount) -> (r: String)
    ensures
        r@ == amount_str(a@),
{
    let v = a.units();
    let mut out = String::new();
    if v < 0 {
        out.append("-");
    }
    let mag: u64 = if v < 0 {
        (-(v as i128)) as u64
    } else {
        v as u64
    };
    proof {
        reveal_strlit("-");
        if v < 0 {
            assert(out@ =~= seq!['-']);
        }
        assert(mag as int == if a@ < 0 {
            -a@
        } else {
            a@
        });
    }
    let ghost sign = out@;
    let whole = mag / 10000;
    let frac = mag % 10000;
    push_dec_digits(&mut out, whole);
    out.append(".");
    proof {
        reveal_strlit(".");
        assert(out@ =~= sign + dec_digits(whole as nat) + seq!['.']);
    }
    let d1 = frac / 1000;
    let d2 = (frac / 100) % 10;
    let d3 = (frac / 10) % 10;
    let d4 = frac % 10;
    out.append(digit_str(d1));
    if d4 != 0 {
        out.append(digit_str(d2));
        out.append(digit_str(d3));
        out.append(digit_str(d4));
    } else if d3 != 0 {
        out.append(digit_str(d2));
        out.append(digit_str(d3));
    } else if d2 != 0 {
        out.append(digit_str(d2));
    }
    proof {
        assert(out@ =~= amount_str(a@));
    }
    out
}

} // verus!
