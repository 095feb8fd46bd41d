//! Finite decimal numbers. Thresholds, observed values, progress percentages
//! and similarity scores are held exactly as decimals and compared as
//! decimals.

use vstd::prelude::*;

use crate::text;

verus! {

/// A finite decimal: sign, integer digits and fraction digits (each `0..=9`),
/// kept normalised so that one value has one representation.
#[derive(Debug)]
pub struct Num {
    pub negative: bool,
    pub int_digits: Vec<u8>,
    pub frac_digits: Vec<u8>,
}

pub open spec fn digits_ok(d: Seq<u8>) -> bool {
    forall|i: int| 0 <= i < d.len() ==> #[trigger] d[i] < 10
}

/// Normal form: at least one integer digit, no leading zero before another
/// integer digit, no trailing fraction zero, and no negative zero.
pub open spec fn normal(negative: bool, whole: Seq<u8>, frac: Seq<u8>) -> bool {
    &&& whole.len() >= 1
    &&& digits_ok(whole)
    &&& digits_ok(frac)
    &&& (whole.len() > 1 ==> whole[0] != 0)
    &&& (frac.len() > 0 ==> frac.last() != 0)
    &&& (negative ==> !(whole == seq![0u8] && frac.len() == 0))
}

impl Num {
    pub open spec fn wf(&self) -> bool {
        normal(self.negative, self.int_digits@, self.frac_digits@)
    }

    /// The number as a triple (negative, integer digits, fraction digits).
    pub open spec fn parts(&self) -> (bool, Seq<u8>, Seq<u8>) {
        (self.negative, self.int_digits@, self.frac_digits@)
    }
}

// ---------------------------------------------------------------- order

/// Lexicographic comparison of digit strings: -1, 0 or 1; a proper prefix is
/// smaller.
pub open spec fn lex_order(a: Seq<u8>, b: Seq<u8>) -> int
    decreases a.len(),
{
    if a.len() == 0 && b.len() == 0 {
        0
    } else if a.len() == 0 {
        -1
    } else if b.len() == 0 {
        1
    } else if a[0] < b[0] {
        -1
    } else if a[0] > b[0] {
        1
    } else {
        lex_order(a.drop_first(), b.drop_first())
    }
}

/// Comparison of two non-negative normal decimals: the one with more integer
/// digits is larger; with as many, the digit strings decide.
pub open spec fn magnitude_order(ai: Seq<u8>, af: Seq<u8>, bi: Seq<u8>, bf: Seq<u8>) -> int {
    if ai.len() < bi.len() {
        -1
    } else if ai.len() > bi.len() {
        1
    } else {
        lex_order(ai + af, bi + bf)
    }
}

/// The order of decimal numbers: -1, 0 or 1 as `a` is below, equal to or
/// above `b`.
pub open spec fn num_order(a: (bool, Seq<u8>, Seq<u8>), b: (bool, Seq<u8>, Seq<u8>)) -> int {
    if a.0 && !b.0 {
        -1
    } else if !a.0 && b.0 {
        1
    } else if !a.0 {
        magnitude_order(a.1, a.2, b.1, b.2)
    } else {
        -magnitude_order(a.1, a.2, b.1, b.2)
    }
}

fn lex_compare(a: &Vec<u8>, b: &Vec<u8>) -> (r: i8)
    ensures
        r as int == lex_order(a@, b@),
        -1 <= r <= 1,
{
    let mut i: usize = 0;
    assert(a@.skip(0) == a@);
    assert(b@.skip(0) == b@);
    while i < a.len() && i < b.len() && a[i] == b[i]
        invariant
            0 <= i <= a@.len(),
            i <= b@.len(),
            lex_order(a@, b@) == lex_order(a@.skip(i as int), b@.skip(i as int)),
        decreases a@.len() - i,
    {
        assert(a@.skip(i as int).drop_first() == a@.skip(i + 1));
        assert(b@.skip(i as int).drop_first() == b@.skip(i + 1));
        i += 1;
    }
    if i == a.len() && i == b.len() {
        0
    } else if i == a.len() {
        -1
    } else if i == b.len() {
        1
    } else if a[i] < b[i] {
        -1
    } else {
        1
    }
}

fn join_digits(a: &Vec<u8>, b: &Vec<u8>) -> (r: Vec<u8>)
    ensures
        r@ == a@ + b@,
{
    let mut r: Vec<u8> = Vec::new();
    let mut i: usize = 0;
    while i < a.len()
        invariant
            0 <= i <= a@.len(),
            r@ == a@.take(i as int),
        decreases a@.len() - i,
    {
        r.push(a[i]);
        assert(a@.take(i + 1) == a@.take(i as int).push(a@[i as int]));
        i += 1;
    }
    assert(a@.take(a@.len() as int) == a@);
    let mut j: usize = 0;
    while j < b.len()
        invariant
            0 <= j <= b@.len(),
            r@ == a@ + b@.take(j as int),
        decreases b@.len() - j,
    {
        r.push(b[j]);
        assert(b@.take(j + 1) == b@.take(j as int).push(b@[j as int]));
        j += 1;
    }
    assert(b@.take(b@.len() as int) == b@);
    r
}

impl Num {
    /// Three-way comparison in decimal order.
    pub fn compare(&self, other: &Num) -> (r: i8)
        ensures
            r as int == num_order(self.parts(), other.parts()),
    {
        if self.negative && !other.negative {
            return -1;
        }
        if !self.negative && other.negative {
            return 1;
        }
        let m: i8 = if self.int_digits.len() < other.int_digits.len() {
            -1
        } else if self.int_digits.len() > other.int_digits.len() {
            1
        } else {
            let a = join_digits(&self.int_digits, &self.frac_digits);
            let b = join_digits(&other.int_digits, &other.frac_digits);
            lex_compare(&a, &b)
        };
        if self.negative {
            -m
        } else {
            m
        }
    }

    /// Whether two numbers denote the same decimal.
    pub fn same_value(&self, other: &Num) -> (r: bool)
        ensures
            r == (num_order(self.parts(), other.parts()) == 0),
    {
        self.compare(other) == 0
    }

    /// A whole number.
    pub fn from_u64(n: u64) -> (r: Num)
        ensures
            r.wf(),
            r.parts() == (false, whole_digits(n as nat), Seq::<u8>::empty()),
    {
        let mut d: Vec<u8> = Vec::new();
        push_whole(&mut d, n);
        proof {
            lemma_whole_digits(n as nat);
        }
        Num { negative: false, int_digits: d, frac_digits: Vec::new() }
    }
}

fn push_whole(out: &mut Vec<u8>, n: u64)
    ensures
        final(out)@ == old(out)@ + whole_digits(n as nat),
    decreases n,
{
    if n >= 10 {
        push_whole(out, n / 10);
    }
    out.push((n % 10) as u8);
}

proof fn lemma_whole_digits(n: nat)
    ensures
        whole_digits(n).len() >= 1,
        digits_ok(whole_digits(n)),
        whole_digits(n).len() > 1 ==> whole_digits(n)[0] != 0,
        n == 0 ==> whole_digits(n) == seq![0u8],
        n != 0 ==> whole_digits(n) != seq![0u8],
        n >= 10 ==> whole_digits(n).len() >= 2,
    decreases n,
{
    if n >= 10 {
        lemma_whole_digits(n / 10);
        let w = whole_digits(n / 10);
        assert(whole_digits(n) == w.push((n % 10) as u8));
        assert(whole_digits(n)[0] == w[0]);
        if n / 10 < 10 {
            assert(w == seq![(n / 10) as u8]);
            assert(w[0] != 0);
        }
        assert(seq![0u8].len() == 1);
    } else {
        assert(whole_digits(n) == seq![n as u8]);
        assert(whole_digits(n)[0] == n as u8);
        assert(seq![0u8][0] == 0);
    }
}

/// Decimal digits of a whole number, most significant first.
pub open spec fn whole_digits(n: nat) -> Seq<u8>
    decreases n,
{
    if n < 10 {
        seq![n as u8]
    } else {
        whole_digits(n / 10).push((n % 10) as u8)
    }
}

// ---------------------------------------------------------------- order laws

proof fn lemma_lex_antisymmetric(a: Seq<u8>, b: Seq<u8>)
    ensures
        lex_order(a, b) == -lex_order(b, a),
        -1 <= lex_order(a, b) <= 1,
    decreases a.len(),
{
    if a.len() > 0 && b.len() > 0 && a[0] == b[0] {
        lemma_lex_antisymmetric(a.drop_first(), b.drop_first());
    }
}

proof fn lemma_lex_reflexive(a: Seq<u8>)
    ensures
        lex_order(a, a) == 0,
    decreases a.len(),
{
    if a.len() > 0 {
        lemma_lex_reflexive(a.drop_first());
    }
}

/// Appending one digit to each of two strings of one length: the strings
/// decide, and on a tie the appended digits do.
proof fn lemma_lex_push(a: Seq<u8>, b: Seq<u8>, x: u8, y: u8)
    requires
        a.len() == b.len(),
    ensures
        lex_order(a.push(x), b.push(y)) == if lex_order(a, b) != 0 {
            lex_order(a, b)
        } else if x < y {
            -1
        } else if x > y {
            1
        } else {
            0
        },
    decreases a.len(),
{
    if a.len() > 0 {
        assert(a.push(x).drop_first() =~= a.drop_first().push(x));
        assert(b.push(y).drop_first() =~= b.drop_first().push(y));
        assert(a.push(x)[0] == a[0]);
        assert(b.push(y)[0] == b[0]);
        if a[0] == b[0] {
            lemma_lex_push(a.drop_first(), b.drop_first(), x, y);
        }
    } else {
        assert(b.len() == 0);
        assert(a.push(x)[0] == x);
        assert(b.push(y)[0] == y);
        assert(a.push(x).drop_first() =~= Seq::<u8>::empty());
        assert(b.push(y).drop_first() =~= Seq::<u8>::empty());
        assert(lex_order(Seq::<u8>::empty(), Seq::<u8>::empty()) == 0);
        assert(lex_order(a, b) == 0);
    }
}

/// Whole numbers with fewer digits are smaller, and with as many digits
/// their digit strings order them as numbers.
proof fn lemma_whole_order(n: nat, m: nat)
    ensures
        whole_digits(n).len() < whole_digits(m).len() ==> n < m,
        whole_digits(n).len() == whole_digits(m).len() ==> lex_order(whole_digits(n), whole_digits(m)) == if n < m {
            -1int
        } else if n > m {
            1
        } else {
            0
        },
    decreases n + m,
{
    if n >= 10 && m >= 10 {
        lemma_whole_order(n / 10, m / 10);
        assert(whole_digits(n) == whole_digits(n / 10).push((n % 10) as u8));
        assert(whole_digits(m) == whole_digits(m / 10).push((m % 10) as u8));
        if whole_digits(n).len() == whole_digits(m).len() {
            lemma_lex_push(whole_digits(n / 10), whole_digits(m / 10), (n % 10) as u8, (m % 10) as u8);
            assert(n == 10 * (n / 10) + n % 10);
            assert(m == 10 * (m / 10) + m % 10);
            if n / 10 < m / 10 {
                assert(n < m);
            } else if n / 10 > m / 10 {
                assert(n > m);
            } else {
                assert((n % 10) as u8 == n % 10);
                assert((m % 10) as u8 == m % 10);
            }
        }
    } else if n >= 10 {
        lemma_whole_digits(n);
        assert(whole_digits(m).len() == 1);
    } else if m >= 10 {
        lemma_whole_digits(m);
        assert(whole_digits(n).len() == 1);
        if whole_digits(n).len() < whole_digits(m).len() {
            assert(n < m);
        }
    } else {
        assert(whole_digits(n) == seq![n as u8]);
        assert(whole_digits(m) == seq![m as u8]);
        assert(seq![n as u8].drop_first() =~= Seq::<u8>::empty());
        assert(seq![m as u8].drop_first() =~= Seq::<u8>::empty());
        assert(seq![n as u8][0] == n as u8 && (n as u8) == n);
        assert(seq![m as u8][0] == m as u8 && (m as u8) == m);
        assert(lex_order(Seq::<u8>::empty(), Seq::<u8>::empty()) == 0);
    }
}

proof fn lemma_lex_extend(a: Seq<u8>, b: Seq<u8>, c: Seq<u8>, d: Seq<u8>)
    requires
        a.len() == b.len(),
        lex_order(a, b) != 0,
    ensures
        lex_order(a + c, b + d) == lex_order(a, b),
    decreases a.len(),
{
    assert((a + c)[0] == a[0]);
    assert((b + d)[0] == b[0]);
    if a[0] == b[0] {
        assert((a + c).drop_first() =~= a.drop_first() + c);
        assert((b + d).drop_first() =~= b.drop_first() + d);
        lemma_lex_extend(a.drop_first(), b.drop_first(), c, d);
    }
}

proof fn lemma_lex_longer(a: Seq<u8>, c: Seq<u8>)
    requires
        c.len() > 0,
    ensures
        lex_order(a + c, a) == 1,
    decreases a.len(),
{
    if a.len() > 0 {
        assert((a + c)[0] == a[0]);
        assert((a + c).drop_first() =~= a.drop_first() + c);
        lemma_lex_longer(a.drop_first(), c);
    } else {
        assert(a + c =~= c);
    }
}

/// Fractions count: a number with one more fraction digit than another with
/// the same leading digits is above it, and a whole number with any fraction
/// stays below the next whole number.
pub proof fn law_num_fraction(n: nat, f: Seq<u8>, d: u8)
    requires
        digits_ok(f),
        0 < d < 10,
    ensures
        num_order((false, whole_digits(n), f.push(d)), (false, whole_digits(n), f)) == 1,
        num_order((false, whole_digits(n), f), (false, whole_digits(n + 1), Seq::empty())) == -1,
{
    let w = whole_digits(n);
    assert(w + f.push(d) =~= (w + f) + seq![d]);
    lemma_lex_longer(w + f, seq![d]);
    lemma_whole_order(n, n + 1);
    if whole_digits(n).len() == whole_digits(n + 1).len() {
        lemma_lex_extend(whole_digits(n), whole_digits(n + 1), f, Seq::empty());
    } else {
        lemma_whole_order(n + 1, n);
    }
}

/// The decimal order is a three-way comparison that reverses with its
/// arguments and puts every number level with itself; on whole numbers it is
/// the order of the numbers, and a negative number is below every
/// non-negative one.
pub proof fn law_num_order(a: (bool, Seq<u8>, Seq<u8>), b: (bool, Seq<u8>, Seq<u8>), n: nat, m: nat)
    ensures
        -1 <= num_order(a, b) <= 1,
        num_order(a, b) == -num_order(b, a),
        num_order(a, a) == 0,
        a.0 && !b.0 ==> num_order(a, b) < 0,
        num_order(
            (false, whole_digits(n), Seq::empty()),
            (false, whole_digits(m), Seq::empty()),
        ) == if n < m {
            -1int
        } else if n > m {
            1
        } else {
            0
        },
{
    lemma_lex_antisymmetric(a.1 + a.2, b.1 + b.2);
    lemma_lex_reflexive(a.1 + a.2);
    lemma_whole_order(n, m);
    lemma_whole_order(m, n);
    assert(whole_digits(n) + Seq::<u8>::empty() =~= whole_digits(n));
    assert(whole_digits(m) + Seq::<u8>::empty() =~= whole_digits(m));
}


// ---------------------------------------------------------------- parsing

pub open spec fn is_digit_char(c: char) -> bool {
    '0' <= c && c <= '9'
}

pub open spec fn all_digit_chars(s: Seq<char>) -> bool {
    forall|i: int| 0 <= i < s.len() ==> is_digit_char(#[trigger] s[i])
}

/// Digit values of a run of decimal digit characters.
pub open spec fn digit_values(s: Seq<char>) -> Seq<u8> {
    Seq::new(s.len(), |i: int| ((s[i] as u32) - 48) as u8)
}

/// Index of the first `.` in `s`, or its length when there is none.
pub open spec fn first_dot(s: Seq<char>) -> int
    decreases s.len(),
{
    if s.len() == 0 {
        0
    } else if s[0] == '.' {
        0
    } else {
        1 + first_dot(s.drop_first())
    }
}

/// Leading zeros dropped, one digit kept.
pub open spec fn strip_leading_zeros(d: Seq<u8>) -> Seq<u8>
    decreases d.len(),
{
    if d.len() > 1 && d[0] == 0 {
        strip_leading_zeros(d.drop_first())
    } else {
        d
    }
}

/// Trailing zeros dropped.
pub open spec fn strip_trailing_zeros(d: Seq<u8>) -> Seq<u8>
    decreases d.len(),
{
    if d.len() > 0 && d.last() == 0 {
        strip_trailing_zeros(d.drop_last())
    } else {
        d
    }
}

/// The decimal a numeral `-?D+(.D+)?` denotes, in normal form; `None` for any
/// other text.
pub open spec fn parse_decimal(s: Seq<char>) -> Option<(bool, Seq<u8>, Seq<u8>)> {
    let neg = s.len() > 0 && s[0] == '-';
    let body = if neg { s.drop_first() } else { s };
    let k = first_dot(body);
    let whole = body.take(k);
    let frac = if k < body.len() { body.skip(k + 1) } else { Seq::empty() };
    if whole.len() >= 1 && all_digit_chars(whole) && (k < body.len() ==> frac.len() >= 1)
        && all_digit_chars(frac) {
        let w = strip_leading_zeros(digit_values(whole));
        let f = strip_trailing_zeros(digit_values(frac));
        Some((neg && !(w == seq![0u8] && f.len() == 0), w, f))
    } else {
        None
    }
}

proof fn lemma_first_dot(s: Seq<char>, m: int)
    requires
        0 <= m <= s.len(),
        forall|j: int| 0 <= j < m ==> s[j] != '.',
        m == s.len() || s[m] == '.',
    ensures
        first_dot(s) == m,
    decreases s.len(),
{
    if s.len() > 0 && m > 0 {
        lemma_first_dot(s.drop_first(), m - 1);
    }
}

proof fn lemma_strip_leading(d: Seq<u8>, p: int)
    requires
        0 <= p < d.len(),
        forall|j: int| 0 <= j < p ==> d[j] == 0,
        p == d.len() - 1 || d[p] != 0,
    ensures
        strip_leading_zeros(d) == d.skip(p),
    decreases p,
{
    if p > 0 {
        lemma_strip_leading(d.drop_first(), p - 1);
        assert(d.drop_first().skip(p - 1) == d.skip(p));
    } else {
        assert(d.skip(0) == d);
    }
}

proof fn lemma_strip_trailing(d: Seq<u8>, q: int)
    requires
        0 <= q <= d.len(),
        forall|j: int| q <= j < d.len() ==> d[j] == 0,
        q == 0 || d[q - 1] != 0,
    ensures
        strip_trailing_zeros(d) == d.take(q),
    decreases d.len() - q,
{
    if q < d.len() {
        lemma_strip_trailing(d.drop_last(), q);
        assert(d.drop_last().take(q) == d.take(q));
    } else {
        assert(d.take(q) == d);
    }
}

/// Digit values of `cs[from..to]`, which are all decimal digits.
fn digits_between(cs: &Vec<char>, from: usize, to: usize) -> (r: Vec<u8>)
    requires
        from <= to <= cs@.len(),
        all_digit_chars(cs@.subrange(from as int, to as int)),
    ensures
        r@ == digit_values(cs@.subrange(from as int, to as int)),
        digits_ok(r@),
{
    let mut r: Vec<u8> = Vec::new();
    let mut i: usize = from;
    let ghost sub = cs@.subrange(from as int, to as int);
    while i < to
        invariant
            from <= i <= to <= cs@.len(),
            sub == cs@.subrange(from as int, to as int),
            all_digit_chars(sub),
            r@ == digit_values(sub).take(i - from),
            digits_ok(r@),
        decreases to - i,
    {
        assert(is_digit_char(sub[i - from]));
        let c = cs[i];
        let v: u8 = ((c as u32) - 48) as u8;
        r.push(v);
        assert(digit_values(sub).take(i - from + 1) == digit_values(sub).take(i - from).push(v));
        i += 1;
    }
    assert(digit_values(sub).take(to - from) == digit_values(sub));
    r
}

/// All characters of `cs[from..to]` are decimal digits.
fn digits_only(cs: &Vec<char>, from: usize, to: usize) -> (r: bool)
    requires
        from <= to <= cs@.len(),
    ensures
        r == all_digit_chars(cs@.subrange(from as int, to as int)),
{
    let mut i: usize = from;
    while i < to
        invariant
            from <= i <= to <= cs@.len(),
            forall|j: int| from <= j < i ==> is_digit_char(#[trigger] cs@[j]),
        decreases to - i,
    {
        if !('0' <= cs[i] && cs[i] <= '9') {
            assert(!is_digit_char(cs@.subrange(from as int, to as int)[i - from]));
            return false;
        }
        i += 1;
    }
    assert forall|j: int| 0 <= j < to - from implies is_digit_char(
        #[trigger] cs@.subrange(from as int, to as int)[j],
    ) by {
        assert(cs@.subrange(from as int, to as int)[j] == cs@[from + j]);
    }
    true
}

fn drop_leading_zeros(d: Vec<u8>) -> (r: Vec<u8>)
    requires
        d@.len() >= 1,
    ensures
        r@ == strip_leading_zeros(d@),
{
    let mut p: usize = 0;
    while p < d.len() - 1 && d[p] == 0
        invariant
            0 <= p < d@.len(),
            forall|j: int| 0 <= j < p ==> d@[j] == 0,
        decreases d@.len() - p,
    {
        p += 1;
    }
    proof {
        lemma_strip_leading(d@, p as int);
    }
    let mut r: Vec<u8> = Vec::new();
    let mut i: usize = p;
    while i < d.len()
        invariant
            p <= i <= d@.len(),
            r@ == d@.subrange(p as int, i as int),
        decreases d@.len() - i,
    {
        r.push(d[i]);
        assert(d@.subrange(p as int, i + 1) == d@.subrange(p as int, i as int).push(d@[i as int]));
        i += 1;
    }
    assert(d@.subrange(p as int, d@.len() as int) == d@.skip(p as int));
    r
}

fn drop_trailing_zeros(d: Vec<u8>) -> (r: Vec<u8>)
    ensures
        r@ == strip_trailing_zeros(d@),
{
    let mut q: usize = d.len();
    while q > 0 && d[q - 1] == 0
        invariant
            0 <= q <= d@.len(),
            forall|j: int| q <= j < d@.len() ==> d@[j] == 0,
        decreases q,
    {
        q -= 1;
    }
    proof {
        lemma_strip_trailing(d@, q as int);
    }
    let mut d = d;
    d.truncate(q);
    d
}

impl Num {
    /// Read a numeral `-?D+(.D+)?` into normal form.
    pub fn parse(text: &str) -> (r: Option<Num>)
        ensures
            match r {
                Some(n) => parse_decimal(text@) == Some(n.parts()) && n.wf(),
                None => parse_decimal(text@) is None,
            },
    {
        let cs = text::chars_of(text);
        let neg = cs.len() > 0 && cs[0] == '-';
        let start: usize = if neg { 1 } else { 0 };
        let ghost body = if neg { text@.drop_first() } else { text@ };
        assert(body == cs@.skip(start as int));
        let mut k: usize = start;
        while k < cs.len() && cs[k] != '.'
            invariant
                start <= k <= cs@.len(),
                forall|j: int| start <= j < k ==> cs@[j] != '.',
            decreases cs@.len() - k,
        {
            k += 1;
        }
        proof {
            lemma_first_dot(body, k - start);
            assert(body.take(k - start) == cs@.subrange(start as int, k as int));
            if k < cs.len() {
                assert(body.skip(k - start + 1) == cs@.subrange(k + 1, cs@.len() as int));
            }
        }
        let frac_from: usize = if k < cs.len() { k + 1 } else { k };
        let ghost frac_chars = if k < cs@.len() {
            cs@.subrange(k + 1, cs@.len() as int)
        } else {
            Seq::<char>::empty()
        };
        assert(frac_chars == cs@.subrange(frac_from as int, cs@.len() as int));
        if k == start || !digits_only(&cs, start, k) {
            return None;
        }
        if k < cs.len() && frac_from == cs.len() {
            return None;
        }
        if !digits_only(&cs, frac_from, cs.len()) {
            return None;
        }
        let w = drop_leading_zeros(digits_between(&cs, start, k));
        let f = drop_trailing_zeros(digits_between(&cs, frac_from, cs.len()));
        proof {
            lemma_strip_leading_normal(digit_values(cs@.subrange(start as int, k as int)));
            lemma_strip_trailing_normal(digit_values(frac_chars));
        }
        let zero = w.len() == 1 && w[0] == 0 && f.len() == 0;
        proof {
            if w@.len() == 1 && w@[0] == 0 {
                assert(w@ =~= seq![0u8]);
            }
            if w@ == seq![0u8] {
                assert(w@[0] == 0);
            }
        }
        Some(Num { negative: neg && !zero, int_digits: w, frac_digits: f })
    }
}

proof fn lemma_strip_leading_normal(d: Seq<u8>)
    requires
        d.len() >= 1,
        digits_ok(d),
    ensures
        strip_leading_zeros(d).len() >= 1,
        digits_ok(strip_leading_zeros(d)),
        strip_leading_zeros(d).len() > 1 ==> strip_leading_zeros(d)[0] != 0,
    decreases d.len(),
{
    if d.len() > 1 && d[0] == 0 {
        lemma_strip_leading_normal(d.drop_first());
    }
}

proof fn lemma_strip_trailing_normal(d: Seq<u8>)
    requires
        digits_ok(d),
    ensures
        digits_ok(strip_trailing_zeros(d)),
        strip_trailing_zeros(d).len() > 0 ==> strip_trailing_zeros(d).last() != 0,
    decreases d.len(),
{
    if d.len() > 0 && d.last() == 0 {
        lemma_strip_trailing_normal(d.drop_last());
    }
}


impl Clone for Num {
    fn clone(&self) -> (r: Self)
        ensures
            r.parts() == self.parts(),
    {
        Num {
            negative: self.negative,
            int_digits: self.int_digits.clone(),
            frac_digits: self.frac_digits.clone(),
        }
    }
}

} // verus!
