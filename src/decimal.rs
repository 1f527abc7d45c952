use vstd::prelude::*;

verus! {

/// A decimal number: `mantissa / 10^scale`, negated when `negative` holds.
#[derive(Clone, Copy, Debug, PartialEq, Eq, Structural)]
pub struct Decimal {
    pub negative: bool,
    pub mantissa: u128,
    pub scale: u8,
}

/// The character of a decimal digit.
pub open spec fn digit_char(d: u8) -> char {
    if d == 0 { '0' }
    else if d == 1 { '1' }
    else if d == 2 { '2' }
    else if d == 3 { '3' }
    else if d == 4 { '4' }
    else if d == 5 { '5' }
    else if d == 6 { '6' }
    else if d == 7 { '7' }
    else if d == 8 { '8' }
    else { '9' }
}

/// The decimal digits of `n`, most significant first, with no leading zero.
pub open spec fn digits(n: nat) -> Seq<u8>
    decreases n,
{
    if n < 10 {
        seq![n as u8]
    } else {
        digits(n / 10).push((n % 10) as u8)
    }
}

/// The digits of `n`, left-padded with zeros to at least `w` digits.
pub open spec fn padded(n: nat, w: nat) -> Seq<u8> {
    let d = digits(n);
    if d.len() >= w {
        d
    } else {
        Seq::new((w - d.len()) as nat, |i: int| 0u8) + d
    }
}

/// `s` without its trailing zero digits.
pub open spec fn strip_zeros(s: Seq<u8>) -> Seq<u8>
    decreases s.len(),
{
    if s.len() > 0 && s.last() == 0 {
        strip_zeros(s.drop_last())
    } else {
        s
    }
}

/// The characters of the digits `s`.
pub open spec fn chars_of(s: Seq<u8>) -> Seq<char> {
    s.map_values(|d: u8| digit_char(d))
}

impl Decimal {
    /// All digits of the mantissa, with at least one before the point.
    pub open spec fn all_digits(self) -> Seq<u8> {
        padded(self.mantissa as nat, self.scale as nat + 1)
    }

    pub open spec fn whole_digits(self) -> Seq<u8> {
        self.all_digits().subrange(0, self.all_digits().len() - self.scale)
    }

    /// The fractional digits, trailing zeros dropped.
    pub open spec fn fraction_digits(self) -> Seq<u8> {
        strip_zeros(self.all_digits().subrange(self.all_digits().len() - self.scale, self.all_digits().len() as int))
    }

    /// The shortest text of the number: no point when it is integral, no
    /// trailing zero after the point.
    pub open spec fn text(self) -> Seq<char> {
        (if self.negative { seq!['-'] } else { Seq::empty() })
        + chars_of(self.whole_digits())
        + (if self.fraction_digits().len() == 0 { Seq::empty() }
           else { seq!['.'] + chars_of(self.fraction_digits()) })
    }
}

proof fn lemma_digits_bounded(n: nat)
    ensures
        digits(n).len() >= 1,
        forall|i: int| 0 <= i < digits(n).len() ==> digits(n)[i] < 10,
    decreases n,
{
    if n >= 10 {
        lemma_digits_bounded(n / 10);
    }
}

fn digit_str(d: u8) -> (r: &'static str)
    requires
        d < 10,
    ensures
        r@ == seq![digit_char(d)],
{
    proof {
        reveal_strlit("0"); reveal_strlit("1"); reveal_strlit("2"); reveal_strlit("3");
        reveal_strlit("4"); reveal_strlit("5"); reveal_strlit("6"); reveal_strlit("7");
        reveal_strlit("8"); reveal_strlit("9");
    }
    match d {
        0 => "0",
        1 => "1",
        2 => "2",
        3 => "3",
        4 => "4",
        5 => "5",
        6 => "6",
        7 => "7",
        8 => "8",
        _ => "9",
    }
}

/// The digits of `n`, left-padded with zeros to at least `w` digits.
fn padded_digits(n: u128, w: usize) -> (r: Vec<u8>)
    requires
        w <= 256,
    ensures
        r@ == padded(n as nat, w as nat),
{
    let mut m: u128 = n;
    let mut acc: Vec<u8> = Vec::new();
    while m >= 10
        invariant
            digits(n as nat) == digits(m as nat) + acc@,
        decreases m,
    {
        proof {
            assert(digits(m as nat) == digits((m / 10) as nat).push((m % 10) as u8));
            assert(digits((m / 10) as nat) + acc@.insert(0, (m % 10) as u8)
                =~= digits(m as nat) + acc@);
            lemma_digits_bounded((m/10) as nat);
        }
        acc.insert(0, (m % 10) as u8);
        m = m / 10;
    }
    acc.insert(0, m as u8);
    assert(acc@ =~= digits(n as nat));
    let ghost d = digits(n as nat);
    while acc.len() < w
        invariant
            acc.len() >= d.len(),
            acc@ =~= Seq::new((acc.len() - d.len()) as nat, |i: int| 0u8) + d,
            w <= 256,
            d.len() < w ==> acc.len() <= w,
            d.len() >= w ==> acc.len() == d.len(),
        decreases w - acc.len(),
    {
        acc.insert(0, 0u8);
        assert(acc@ =~= Seq::new((acc.len() - d.len()) as nat, |i: int| 0u8) + d);
    }
    assert(acc@ =~= padded(n as nat, w as nat));
    acc
}

/// Appends the characters of the digits `v[a..b]` to `s`.
fn append_digits(s: &mut String, v: &Vec<u8>, a: usize, b: usize)
    requires
        a <= b <= v.len(),
        forall|i: int| 0 <= i < v.len() ==> v[i] < 10,
    ensures
        final(s)@ == old(s)@ + chars_of(v@.subrange(a as int, b as int)),
{
    let mut i: usize = a;
    while i < b
        invariant
            a <= i <= b <= v.len(),
            forall|i: int| 0 <= i < v.len() ==> v[i] < 10,
            s@ == old(s)@ + chars_of(v@.subrange(a as int, i as int)),
        decreases b - i,
    {
        s.append(digit_str(v[i]));
        assert(chars_of(v@.subrange(a as int, i + 1)) =~= chars_of(v@.subrange(a as int, i as int))
            + seq![digit_char(v[i as int])]);
        i = i + 1;
    }
}

impl Decimal {
    pub fn new(negative: bool, mantissa: u128, scale: u8) -> (r: Decimal)
        ensures
            r == (Decimal { negative, mantissa, scale }),
    {
        Decimal { negative, mantissa, scale }
    }

    /// The shortest text of the number, as a script writes it.
    pub fn to_code(&self) -> (r: String)
        ensures
            r@ == self.text(),
    {
        let w: usize = self.scale as usize + 1;
        let v = padded_digits(self.mantissa, w);
        proof {
            lemma_digits_bounded(self.mantissa as nat);
            assert forall|i: int| 0 <= i < v.len() implies v[i] < 10 by {
                let d = digits(self.mantissa as nat);
                if d.len() < w {
                    assert(i < w - d.len() || v@[i] == d[i - (w - d.len())]);
                }
            }
        }
        let len = v.len();
        let k: usize = len - self.scale as usize;
        let mut j: usize = len;
        while j > k && v[j - 1] == 0
            invariant
                k <= j <= len == v.len(),
                strip_zeros(v@.subrange(k as int, len as int)) == strip_zeros(v@.subrange(k as int, j as int)),
            decreases j,
        {
            assert(v@.subrange(k as int, j as int).drop_last() =~= v@.subrange(k as int, j - 1));
            j = j - 1;
        }
        proof {
            let f = v@.subrange(k as int, j as int);
            if j == k {
                assert(strip_zeros(f) =~= Seq::<u8>::empty());
            }
            assert(self.fraction_digits() == strip_zeros(f));
        }
        let mut s = String::new();
        proof {
            reveal_strlit("-");
            reveal_strlit(".");
        }
        if self.negative {
            s.append("-");
        }
        append_digits(&mut s, &v, 0, k);
        if j > k {
            s.append(".");
            append_digits(&mut s, &v, k, j);
        }
        assert(s@ =~= self.text());
        s
    }
}

pub open spec fn is_digit(c: char) -> bool {
    48 <= (c as u32) <= 57
}

pub open spec fn digit_value(c: char) -> nat {
    ((c as u32) - 48) as nat
}

/// The number that a run of decimal digits spells.
pub open spec fn value_of(s: Seq<char>) -> nat
    decreases s.len(),
{
    if s.len() == 0 {
        0
    } else {
        value_of(s.drop_last()) * 10 + digit_value(s.last())
    }
}

/// How many digits `s` starts with.
pub open spec fn lead_digits(s: Seq<char>) -> nat
    decreases s.len(),
{
    if s.len() > 0 && is_digit(s[0]) {
        1 + lead_digits(s.drop_first())
    } else {
        0
    }
}

/// The number that `s` writes as `-?D+(.D+)?`, where `D` is a decimal
/// digit; none where `s` has another form, or where the number does not fit.
pub open spec fn parse_text(s: Seq<char>) -> Option<Decimal> {
    let negative = s.len() > 0 && s[0] == '-';
    let b = if negative { s.subrange(1, s.len() as int) } else { s };
    let k = lead_digits(b);
    let rest = b.subrange(k as int, b.len() as int);
    let frac = if rest.len() > 0 { rest.drop_first() } else { Seq::empty() };
    let valid = k > 0 && (rest.len() == 0 || (rest[0] == '.' && frac.len() > 0 && lead_digits(frac)
        == frac.len()));
    let digits = b.subrange(0, k as int) + frac;
    if valid && value_of(digits) <= u128::MAX && frac.len() <= 255 {
        Some(Decimal { negative, mantissa: value_of(digits) as u128, scale: frac.len() as u8 })
    } else {
        None
    }
}

proof fn lemma_value_prefix(a: Seq<char>, b: Seq<char>)
    ensures
        value_of(a + b) >= value_of(a),
    decreases b.len(),
{
    if b.len() > 0 {
        assert((a + b).drop_last() =~= a + b.drop_last());
        lemma_value_prefix(a, b.drop_last());
    } else {
        assert(a + b =~= a);
    }
}

/// `lead_digits` counts the digits of `s` up to the first other character.
proof fn lemma_lead_digits(s: Seq<char>, i: nat)
    requires
        i <= s.len(),
        forall|j: int| 0 <= j < i ==> is_digit(s[j]),
    ensures
        lead_digits(s) >= i,
        i == s.len() || !is_digit(s[i as int]) ==> lead_digits(s) == i,
        lead_digits(s) <= s.len(),
    decreases i,
{
    if i > 0 {
        lemma_lead_digits(s.drop_first(), (i - 1) as nat);
    } else {
        lemma_lead_digits_bound(s);
    }
}

proof fn lemma_lead_digits_bound(s: Seq<char>)
    ensures
        lead_digits(s) <= s.len(),
        forall|j: int| 0 <= j < lead_digits(s) ==> is_digit(s[j]),
    decreases s.len(),
{
    if s.len() > 0 && is_digit(s[0]) {
        lemma_lead_digits_bound(s.drop_first());
        assert forall|j: int| 0 <= j < lead_digits(s) implies is_digit(s[j]) by {
            if j > 0 {
                assert(s[j] == s.drop_first()[j - 1]);
            }
        }
    }
}

/// A run of leading digits whose value does not fit leaves nothing to read.
proof fn lemma_whole_overflow(t: Seq<char>, st: int, n: nat)
    requires
        st == (if t.len() > 0 && t[0] == '-' { 1int } else { 0int }),
        st + n <= t.len(),
        forall|j: int| st <= j < st + n ==> is_digit(t[j]),
        value_of(t.subrange(st, st + n)) > u128::MAX,
    ensures
        parse_text(t) is None,
{
    let a = t.subrange(st, st + n);
    let b = t.subrange(st, t.len() as int);
    if st == 0 {
        assert(b =~= t);
    }
    assert forall|j: int| 0 <= j < n implies is_digit(b[j]) by {
        assert(b[j] == t[st + j]);
    }
    lemma_lead_digits(b, n);
    lemma_lead_digits_bound(b);
    let k = lead_digits(b);
    let rest = b.subrange(k as int, b.len() as int);
    let frac = if rest.len() > 0 { rest.drop_first() } else { Seq::<char>::empty() };
    let digits = b.subrange(0, k as int) + frac;
    assert(digits =~= a + digits.subrange(n as int, digits.len() as int));
    lemma_value_prefix(a, digits.subrange(n as int, digits.len() as int));
}

impl Decimal {
    /// Reads a number written as `-?D+(.D+)?`, where `D` is a decimal digit.
    pub fn parse(s: &str) -> (r: Option<Decimal>)
        ensures
            r == parse_text(s@),
    {
        let ghost t = s@;
        let n = s.unicode_len();
        let negative = n > 0 && s.get_char(0) == '-';
        let st: usize = if negative { 1 } else { 0 };
        let ghost b = if negative { t.subrange(1, t.len() as int) } else { t };
        assert(b =~= t.subrange(st as int, n as int));
        let mut i: usize = st;
        let mut m: u128 = 0;
        assert(t.subrange(st as int, st as int) =~= Seq::<char>::empty());
        while i < n && 48 <= (s.get_char(i) as u32) && (s.get_char(i) as u32) <= 57
            invariant
                st <= i <= n == t.len(),
                t == s@,
                st as int == (if t.len() > 0 && t[0] == '-' { 1int } else { 0int }),
                b =~= t.subrange(st as int, n as int),
                forall|j: int| st <= j < i ==> is_digit(t[j]),
                m == value_of(t.subrange(st as int, i as int)),
            decreases n - i,
        {
            let c = s.get_char(i);
            let d: u128 = (c as u32 - 48) as u128;
            let ghost a = t.subrange(st as int, i + 1);
            assert(a.drop_last() =~= t.subrange(st as int, i as int));
            assert(a.last() == c);
            assert(value_of(a) == m * 10 + d);
            match m.checked_mul(10) {
                None => {
                    proof {
                        lemma_whole_overflow(t, st as int, a.len());
                    }
                    return None;
                },
                Some(x) => match x.checked_add(d) {
                    None => {
                        proof {
                            lemma_whole_overflow(t, st as int, a.len());
                        }
                        return None;
                    },
                    Some(y) => {
                        m = y;
                    },
                },
            }
            i = i + 1;
        }
        let ghost k = (i - st) as nat;
        proof {
            assert forall|j: int| 0 <= j < k implies is_digit(b[j]) by {
                assert(b[j] == t[st + j]);
            }
            if i < n {
                assert(b[k as int] == t[i as int]);
            }
            lemma_lead_digits(b, k);
        }
        assert(b.subrange(0, k as int) =~= t.subrange(st as int, i as int));
        if i == st {
            return None;
        }
        if i == n {
            assert(b.subrange(0, k as int) + Seq::<char>::empty() =~= t.subrange(st as int, i as int));
            return Some(Decimal { negative, mantissa: m, scale: 0 });
        }
        if s.get_char(i) != '.' {
            return None;
        }
        i = i + 1;
        let fs = i;
        let ghost whole = t.subrange(st as int, (fs - 1) as int);
        let ghost frac = t.subrange(fs as int, n as int);
        assert(b.subrange(k as int, b.len() as int).drop_first() =~= frac);
        if i == n {
            return None;
        }
        assert(whole + t.subrange(fs as int, fs as int) =~= whole);
        while i < n
            invariant
                fs <= i <= n == t.len(),
                t == s@,
                frac == t.subrange(fs as int, n as int),
                forall|j: int| fs <= j < i ==> is_digit(t[j]),
                m == value_of(whole + t.subrange(fs as int, i as int)),
                parse_text(t) == (if lead_digits(frac) == frac.len() && value_of(whole + frac) <= u128::MAX
                    && frac.len() <= 255 {
                    Some(Decimal { negative, mantissa: value_of(whole + frac) as u128, scale: frac.len() as u8 })
                } else {
                    None
                }),
            decreases n - i,
        {
            let c = s.get_char(i);
            let ghost p = (i - fs) as nat;
            proof {
                assert forall|j: int| 0 <= j < p implies is_digit(frac[j]) by {
                    assert(frac[j] == t[fs + j]);
                }
                assert(frac[p as int] == c);
                lemma_lead_digits(frac, p);
            }
            if !(48 <= (c as u32) && (c as u32) <= 57) {
                return None;
            }
            let d: u128 = (c as u32 - 48) as u128;
            let ghost a = whole + t.subrange(fs as int, i + 1);
            assert(a.drop_last() =~= whole + t.subrange(fs as int, i as int));
            assert(a.last() == c);
            assert(value_of(a) == m * 10 + d);
            proof {
                if value_of(a) > u128::MAX {
                    assert(whole + frac =~= a + t.subrange(i + 1, n as int));
                    lemma_value_prefix(a, t.subrange(i + 1, n as int));
                }
            }
            match m.checked_mul(10) {
                None => {
                    return None;
                },
                Some(x) => match x.checked_add(d) {
                    None => {
                        return None;
                    },
                    Some(y) => {
                        m = y;
                    },
                },
            }
            i = i + 1;
        }
        proof {
            assert forall|j: int| 0 <= j < frac.len() implies is_digit(frac[j]) by {
                assert(frac[j] == t[fs + j]);
            }
            lemma_lead_digits(frac, frac.len());
        }
        assert(t.subrange(fs as int, n as int) =~= frac);
        if n - fs > 255 {
            return None;
        }
        Some(Decimal { negative, mantissa: m, scale: (n - fs) as u8 })
    }
}

} // verus!
