//! Character-level helpers: the characters of a string, decimal numbers.

use vstd::prelude::*;

verus! {

/// The characters of `s`, in order.
pub fn to_chars(s: &str) -> (v: Vec<char>)
    ensures
        v@ == s@,
{
    let mut v: Vec<char> = Vec::new();
    for c in it: s.chars()
        invariant
            it.seq() == s@,
            v@.len() == it.index(),
            forall|i: int| 0 <= i < v@.len() ==> v@[i] == s@[i],
    {
        v.push(c);
    }
    assert(v@ =~= s@);
    v
}

/// Whether `a` and `b` hold the same characters.
pub fn chars_eq(a: &Vec<char>, b: &Vec<char>) -> (res: bool)
    ensures
        res == (a@ == b@),
{
    if a.len() != b.len() {
        return false;
    }
    let n: usize = a.len();
    for i in 0..n
        invariant
            n == a@.len(),
            n == b@.len(),
            forall|j: int| 0 <= j < i ==> a@[j] == b@[j],
    {
        if a[i] != b[i] {
            return false;
        }
    }
    assert(a@ =~= b@);
    true
}

/// Whether `c` is one of the ASCII digits `0` to `9`.
pub open spec fn is_digit(c: char) -> bool {
    '0' <= c <= '9'
}

/// The value of the digit `c`.
pub open spec fn digit_value(c: char) -> int {
    (c as int) - 48
}

/// The character of the digit `d` (`0 <= d < 10`).
pub open spec fn digit_char(d: int) -> char {
    ((d + 48) as u32) as char
}

/// The value of the decimal digits `s` (no sign), most significant first.
pub open spec fn digits_value(s: Seq<char>) -> int
    decreases s.len(),
{
    if s.len() == 0 {
        0
    } else {
        digits_value(s.drop_last()) * 10 + digit_value(s.last())
    }
}

/// Whether every character of `s` is a digit.
pub open spec fn all_digits(s: Seq<char>) -> bool {
    forall|i: int| 0 <= i < s.len() ==> is_digit(#[trigger] s[i])
}

/// The digits of an unsigned number: `s` without one leading `+`.
pub open spec fn unsigned_digits(s: Seq<char>) -> Seq<char> {
    if s.len() > 0 && s[0] == '+' {
        s.drop_first()
    } else {
        s
    }
}

/// What `str::parse::<u32>` gives for `s`: an optional `+` followed by at
/// least one decimal digit and nothing else, with a value that fits in `u32`.
pub open spec fn parse_u32(s: Seq<char>) -> Option<u32> {
    let d = unsigned_digits(s);
    if d.len() > 0 && all_digits(d) && digits_value(d) <= u32::MAX {
        Some(digits_value(d) as u32)
    } else {
        None
    }
}

/// The decimal writing of `n`, without sign or leading zeros.
pub open spec fn decimal(n: nat) -> Seq<char>
    decreases n,
{
    if n < 10 {
        seq![digit_char(n as int)]
    } else {
        decimal(n / 10).push(digit_char((n % 10) as int))
    }
}

proof fn lemma_digits_value_nonneg(s: Seq<char>)
    requires
        all_digits(s),
    ensures
        digits_value(s) >= 0,
    decreases s.len(),
{
    if s.len() > 0 {
        lemma_digits_value_nonneg(s.drop_last());
    }
}

/// A longer run of digits never has a smaller value than its prefix.
proof fn lemma_digits_value_grows(s: Seq<char>, i: int)
    requires
        all_digits(s),
        0 <= i <= s.len(),
    ensures
        digits_value(s.take(i)) <= digits_value(s),
    decreases s.len() - i,
{
    if i < s.len() {
        lemma_digits_value_grows(s, i + 1);
        assert(s.take(i + 1).drop_last() == s.take(i));
        lemma_digits_value_nonneg(s.take(i));
    } else {
        assert(s.take(i) == s);
    }
}

/// A digit's character has that digit's value.
proof fn lemma_digit_char(d: int)
    requires
        0 <= d < 10,
    ensures
        is_digit(digit_char(d)),
        digit_value(digit_char(d)) == d,
{
    assert(((d + 48) as u32) as char as int == d + 48);
}

/// `decimal(n)` writes `n` in base 10: it is a non-empty run of digits whose
/// value is `n`, without a leading zero (but for `0` itself), so that
/// parsing it gives `n` back.
pub proof fn lemma_decimal_value(n: nat)
    ensures
        decimal(n).len() > 0,
        all_digits(decimal(n)),
        digits_value(decimal(n)) == n,
        decimal(n)[0] != '0' || n == 0,
        n <= u32::MAX ==> parse_u32(decimal(n)) == Some(n as u32),
    decreases n,
{
    if n < 10 {
        lemma_digit_char(n as int);
        let s = decimal(n);
        assert(s.drop_last() =~= Seq::<char>::empty());
        assert(digits_value(s) == digits_value(s.drop_last()) * 10 + digit_value(s.last()));
        if n != 0 {
            assert(digit_value(s[0]) != 0);
        }
    } else {
        lemma_decimal_value(n / 10);
        lemma_digit_char((n % 10) as int);
        let p = decimal(n / 10);
        let s = decimal(n);
        assert(s == p.push(digit_char((n % 10) as int)));
        assert(s.drop_last() == p);
        assert forall|i: int| 0 <= i < s.len() implies is_digit(#[trigger] s[i]) by {
            if i < p.len() {
                assert(s[i] == p[i]);
            }
        }
        assert(s[0] == p[0]);
        assert(n / 10 != 0);
    }
    if n <= u32::MAX {
        let s = decimal(n);
        if s[0] == '+' {
            assert(is_digit(s[0]));
        }
        assert(unsigned_digits(s) == s);
    }
}

/// A run of digits without a leading zero that does not start with zero has
/// a value of at least one.
proof fn lemma_digits_value_positive(k: Seq<char>)
    requires
        k.len() > 0,
        all_digits(k),
        k[0] != '0',
    ensures
        digits_value(k) >= 1,
    decreases k.len(),
{
    assert(is_digit(k.last()));
    assert(digit_value(k.last()) >= 0);
    if k.len() == 1 {
        assert(k.drop_last() =~= Seq::<char>::empty());
        assert(k.last() == k[0]);
        assert(is_digit(k[0]));
        assert(digit_value(k[0]) >= 1);
        assert(digits_value(k) == digits_value(k.drop_last()) * 10 + digit_value(k.last()));
    } else {
        let p = k.drop_last();
        assert(p[0] == k[0]);
        assert(all_digits(p)) by {
            assert forall|i: int| 0 <= i < p.len() implies is_digit(#[trigger] p[i]) by {
                assert(p[i] == k[i]);
            }
        }
        lemma_digits_value_positive(p);
        assert(digits_value(k) == digits_value(p) * 10 + digit_value(k.last()));
    }
}

/// The decimal writing is the only way to write a number in digits without
/// a leading zero.
pub proof fn lemma_decimal_unique(k: Seq<char>, n: nat)
    requires
        k.len() > 0,
        all_digits(k),
        digits_value(k) == n,
        k[0] != '0' || k.len() == 1,
    ensures
        k == decimal(n),
    decreases k.len(),
{
    let c = k.last();
    assert(is_digit(c));
    assert(digit_char(digit_value(c)) == c) by {
        assert(((c as int - 48 + 48) as u32) as char == c);
    }
    assert(0 <= digit_value(c) < 10);
    if k.len() == 1 {
        assert(k.drop_last() =~= Seq::<char>::empty());
        assert(digits_value(k) == digits_value(k.drop_last()) * 10 + digit_value(c));
        assert(n == digit_value(c));
        assert(k =~= seq![c]);
        assert(decimal(n) == seq![digit_char(n as int)]);
    } else {
        let p = k.drop_last();
        assert(p[0] == k[0]);
        assert(all_digits(p)) by {
            assert forall|i: int| 0 <= i < p.len() implies is_digit(#[trigger] p[i]) by {
                assert(p[i] == k[i]);
            }
        }
        lemma_digits_value_positive(p);
        lemma_digits_value_nonneg(p);
        let v = digits_value(p);
        let d = digit_value(c);
        assert(digits_value(k) == digits_value(p) * 10 + digit_value(c));
        assert(n == v * 10 + d);
        assert(n / 10 == v && n % 10 == d) by (nonlinear_arith)
            requires
                n == v * 10 + d,
                0 <= d < 10,
                v >= 0,
        ;
        lemma_decimal_unique(p, v as nat);
        assert(n >= 10);
        assert(decimal(n) == decimal(n / 10).push(digit_char((n % 10) as int)));
        assert(k =~= p.push(c));
    }
}

/// Parsing takes a leading `+` and leading zeros in front of the decimal
/// writing of `n`: both still read as `n`.
pub proof fn lemma_parse_u32_forms(n: nat, zeros: nat)
    requires
        n <= u32::MAX,
    ensures
        parse_u32(seq!['+'] + decimal(n)) == Some(n as u32),
        parse_u32(Seq::new(zeros, |i: int| '0') + decimal(n)) == Some(n as u32),
    decreases zeros,
{
    lemma_decimal_value(n);
    let d = decimal(n);
    assert((seq!['+'] + d).drop_first() =~= d);
    if zeros > 0 {
        lemma_parse_u32_forms(n, (zeros - 1) as nat);
        let z = Seq::new((zeros - 1) as nat, |i: int| '0') + d;
        let s = Seq::new(zeros, |i: int| '0') + d;
        assert(s =~= seq!['0'] + z);
        assert(z.len() > 0);
        assert(z[0] != '+') by {
            if zeros - 1 > 0 {
                assert(z[0] == '0');
            } else {
                assert(z[0] == d[0]);
                assert(is_digit(d[0]));
            }
        }
        assert(unsigned_digits(z) == z);
        assert(all_digits(z));
        lemma_digits_value_zero_front(z);
        assert(all_digits(s)) by {
            assert forall|i: int| 0 <= i < s.len() implies is_digit(#[trigger] s[i]) by {
                if i > 0 {
                    assert(s[i] == z[i - 1]);
                }
            }
        }
    } else {
        assert(Seq::new(0, |i: int| '0') + d =~= d);
    }
}

/// A leading zero does not change the value of digits.
proof fn lemma_digits_value_zero_front(z: Seq<char>)
    ensures
        digits_value(seq!['0'] + z) == digits_value(z),
    decreases z.len(),
{
    let s = seq!['0'] + z;
    assert(digit_value('0') == 0);
    if z.len() == 0 {
        assert(s.drop_last() =~= Seq::<char>::empty());
        assert(s.last() == '0');
        assert(digits_value(s) == digits_value(s.drop_last()) * 10 + digit_value(s.last()));
    } else {
        lemma_digits_value_zero_front(z.drop_last());
        assert(s.drop_last() =~= seq!['0'] + z.drop_last());
        assert(s.last() == z.last());
        assert(digits_value(s) == digits_value(s.drop_last()) * 10 + digit_value(s.last()));
        assert(digits_value(z) == digits_value(z.drop_last()) * 10 + digit_value(z.last()));
    }
}

/// The decimal writing of `n`, as characters.
pub fn decimal_chars(n: u64) -> (v: Vec<char>)
    ensures
        v@ == decimal(n as nat),
    decreases n,
{
    if n < 10 {
        let c: char = ((n + 48) as u8) as char;
        assert(c == digit_char(n as int));
        let mut v: Vec<char> = Vec::new();
        v.push(c);
        assert(v@ =~= seq![digit_char(n as int)]);
        v
    } else {
        let mut v = decimal_chars(n / 10);
        let d: u64 = n % 10;
        let c: char = ((d + 48) as u8) as char;
        assert(c == digit_char(d as int));
        v.push(c);
        v
    }
}

/// Parse `s` as a `u32` the way `str::parse::<u32>` does.
pub fn parse_u32_chars(s: &Vec<char>) -> (res: Option<u32>)
    ensures
        res == parse_u32(s@),
{
    let len: usize = s.len();
    let start: usize = if len > 0 && s[0] == '+' { 1 } else { 0 };
    let ghost d = unsigned_digits(s@);
    assert(d == s@.skip(start as int));
    if start == len {
        return None;
    }
    let mut acc: u64 = 0;
    let mut i: usize = start;
    while i < len
        invariant
            start <= i <= len,
            start < len,
            len == s@.len(),
            d == s@.skip(start as int),
            d == unsigned_digits(s@),
            all_digits(d.take(i - start)),
            acc == digits_value(d.take(i - start)),
            acc <= u32::MAX,
        decreases len - i,
    {
        let c: char = s[i];
        if !('0' <= c && c <= '9') {
            assert(d[i - start] == c);
            assert(!is_digit(d[i - start]));
            assert(!all_digits(d));
            return None;
        }
        let dv: u64 = (c as u32 - 48) as u64;
        proof {
            assert(d.take(i - start + 1).drop_last() == d.take(i - start));
            assert(d.take(i - start + 1).last() == c);
        }
        acc = acc * 10 + dv;
        assert(acc == digits_value(d.take(i - start + 1)));
        if acc > 0xffff_ffffu64 {
            proof {
                assert(all_digits(d.take(i - start + 1)));
                if all_digits(d) {
                    lemma_digits_value_grows(d, i - start + 1);
                    assert(digits_value(d) > u32::MAX);
                }
            }
            return None;
        }
        i = i + 1;
    }
    assert(d.take(len - start) == d);
    Some(acc as u32)
}


/// Whether `c` has the Unicode White_Space property, the whitespace of
/// `char::is_whitespace` and `str::trim`: tab to carriage return, space,
/// next line, no-break space, ogham space mark, the spaces from en quad to
/// hair space, line and paragraph separators, narrow no-break space, medium
/// mathematical space and ideographic space.
pub open spec fn white_space(c: char) -> bool {
    let u = c as u32;
    ||| 0x9 <= u <= 0xd
    ||| u == 0x20
    ||| u == 0x85
    ||| u == 0xa0
    ||| u == 0x1680
    ||| 0x2000 <= u <= 0x200a
    ||| u == 0x2028
    ||| u == 0x2029
    ||| u == 0x202f
    ||| u == 0x205f
    ||| u == 0x3000
}

/// Whether `c` is whitespace.
pub fn is_white_space(c: char) -> (res: bool)
    ensures
        res == white_space(c),
{
    let u: u32 = c as u32;
    (0x9 <= u && u <= 0xd) || u == 0x20 || u == 0x85 || u == 0xa0 || u == 0x1680 || (0x2000 <= u
        && u <= 0x200a) || u == 0x2028 || u == 0x2029 || u == 0x202f || u == 0x205f || u == 0x3000
}

/// Calls `String::from_iter` on the characters of `chars`. Claimed: the
/// string holds exactly those characters, in order.
#[verifier::external_body]
pub(crate) fn string_from_chars(chars: &Vec<char>) -> (res: String)
    ensures
        res@ == chars@,
{
    String::from_iter(chars.iter())
}

/// `s` without its leading whitespace (`str::trim_start`).
pub open spec fn trim_start(s: Seq<char>) -> Seq<char>
    decreases s.len(),
{
    if s.len() > 0 && white_space(s[0]) {
        trim_start(s.drop_first())
    } else {
        s
    }
}

/// `s` without its trailing whitespace (`str::trim_end`).
pub open spec fn trim_end(s: Seq<char>) -> Seq<char>
    decreases s.len(),
{
    if s.len() > 0 && white_space(s.last()) {
        trim_end(s.drop_last())
    } else {
        s
    }
}

/// `s` without leading and trailing whitespace (`str::trim`).
pub open spec fn trim(s: Seq<char>) -> Seq<char> {
    trim_end(trim_start(s))
}

/// `trim_start` drops a prefix: what is left is a suffix of `s`, and it is
/// empty or starts with a character that is not whitespace.
pub proof fn lemma_trim_start_suffix(s: Seq<char>)
    ensures
        trim_start(s).len() <= s.len(),
        trim_start(s) == s.skip(s.len() - trim_start(s).len()),
        trim_start(s).len() > 0 ==> !white_space(trim_start(s)[0]),
    decreases s.len(),
{
    if s.len() > 0 && white_space(s[0]) {
        lemma_trim_start_suffix(s.drop_first());
        let t = trim_start(s.drop_first());
        assert(s.drop_first().skip(s.drop_first().len() - t.len()) =~= s.skip(s.len() - t.len()));
    } else {
        assert(s.skip(0) == s);
    }
}

/// `trim_end` drops a suffix: what is left is a prefix of `s`, and it is
/// empty or ends with a character that is not whitespace.
pub proof fn lemma_trim_end_prefix(s: Seq<char>)
    ensures
        trim_end(s).len() <= s.len(),
        trim_end(s) == s.take(trim_end(s).len() as int),
        trim_end(s).len() > 0 ==> !white_space(trim_end(s).last()),
    decreases s.len(),
{
    if s.len() > 0 && white_space(s.last()) {
        lemma_trim_end_prefix(s.drop_last());
        let t = trim_end(s.drop_last());
        assert(s.drop_last().take(t.len() as int) =~= s.take(t.len() as int));
    } else {
        assert(s.take(s.len() as int) == s);
    }
}

/// `trim_end` keeps every character up to the last one that is not
/// whitespace.
pub proof fn lemma_trim_end_keeps(s: Seq<char>, k: int)
    requires
        0 <= k < s.len(),
        !white_space(s[k]),
    ensures
        trim_end(s).len() > k,
    decreases s.len(),
{
    if white_space(s.last()) {
        assert(k < s.len() - 1);
        assert(s.drop_last()[k] == s[k]);
        lemma_trim_end_keeps(s.drop_last(), k);
    }
}

/// When `a` holds a character that is not whitespace, trimming the start of
/// `a + b` only touches `a`.
pub proof fn lemma_trim_start_concat(a: Seq<char>, b: Seq<char>, k: int)
    requires
        0 <= k < a.len(),
        !white_space(a[k]),
    ensures
        trim_start(a + b) == trim_start(a) + b,
    decreases a.len(),
{
    if white_space(a[0]) {
        assert(k > 0);
        assert((a + b).drop_first() =~= a.drop_first() + b);
        assert(a.drop_first()[k - 1] == a[k]);
        lemma_trim_start_concat(a.drop_first(), b, k - 1);
    }
}

/// A trimmed text that is not empty starts and ends with characters that are
/// not whitespace.
pub proof fn lemma_trim_ends(s: Seq<char>)
    requires
        trim(s).len() > 0,
    ensures
        !white_space(trim(s)[0]),
        !white_space(trim(s).last()),
        trim(s) == trim_start(s).take(trim(s).len() as int),
{
    lemma_trim_start_suffix(s);
    lemma_trim_end_prefix(trim_start(s));
    assert(trim(s)[0] == trim_start(s)[0]);
}

/// Trimming the start leaves nothing exactly when every character is
/// whitespace.
proof fn lemma_trim_start_empty(s: Seq<char>)
    ensures
        trim_start(s).len() == 0 <==> forall|i: int| 0 <= i < s.len() ==> white_space(#[trigger] s[i]),
    decreases s.len(),
{
    if s.len() > 0 {
        if white_space(s[0]) {
            let t = s.drop_first();
            lemma_trim_start_empty(t);
            if forall|i: int| 0 <= i < t.len() ==> white_space(#[trigger] t[i]) {
                assert forall|i: int| 0 <= i < s.len() implies white_space(#[trigger] s[i]) by {
                    if i > 0 {
                        assert(s[i] == t[i - 1]);
                    }
                }
            } else {
                let k = choose|k: int| 0 <= k < t.len() && !white_space(#[trigger] t[k]);
                assert(s[k + 1] == t[k]);
            }
        }
    }
}

/// Trimming the start drops only whitespace.
proof fn lemma_trim_start_drops_white(s: Seq<char>)
    ensures
        trim_start(s).len() <= s.len(),
        forall|i: int| 0 <= i < s.len() - trim_start(s).len() ==> white_space(#[trigger] s[i]),
    decreases s.len(),
{
    if s.len() > 0 && white_space(s[0]) {
        let t = s.drop_first();
        lemma_trim_start_drops_white(t);
        assert forall|i: int| 0 <= i < s.len() - trim_start(s).len() implies white_space(#[trigger] s[i]) by {
            if i > 0 {
                assert(s[i] == t[i - 1]);
            }
        }
    }
}

/// Trimming the end drops only whitespace.
proof fn lemma_trim_end_drops_white(s: Seq<char>)
    ensures
        trim_end(s).len() <= s.len(),
        forall|i: int| trim_end(s).len() <= i < s.len() ==> white_space(#[trigger] s[i]),
    decreases s.len(),
{
    if s.len() > 0 && white_space(s.last()) {
        let t = s.drop_last();
        lemma_trim_end_drops_white(t);
        assert forall|i: int| trim_end(s).len() <= i < s.len() implies white_space(#[trigger] s[i]) by {
            if i < s.len() - 1 {
                assert(s[i] == t[i]);
            }
        }
    }
}

/// Trimming keeps the part of `s` from its first to its last character
/// that is not whitespace: everything before and after it is whitespace,
/// and the part starts and ends with a character that is not.
pub proof fn lemma_trim_bounds(s: Seq<char>)
    ensures
        exists|a: int, b: int|
            0 <= a <= b <= s.len() && trim(s) == s.subrange(a, b) && (forall|i: int|
                0 <= i < a ==> white_space(#[trigger] s[i])) && (forall|i: int|
                b <= i < s.len() ==> white_space(#[trigger] s[i])) && (a < b ==> !white_space(s[a])
                && !white_space(s[b - 1])),
{
    let t = trim_start(s);
    lemma_trim_start_suffix(s);
    lemma_trim_start_drops_white(s);
    lemma_trim_end_prefix(t);
    lemma_trim_end_drops_white(t);
    let a = s.len() - t.len();
    let b = a + trim(s).len();
    assert(trim(s) =~= s.subrange(a, b));
    assert forall|i: int| b <= i < s.len() implies white_space(#[trigger] s[i]) by {
        assert(s[i] == t[i - a]);
    }
    if a < b {
        assert(s[a] == t[0]);
        assert(s[b - 1] == trim(s).last());
    }
}

/// Trimming leaves nothing exactly when every character is whitespace.
pub proof fn lemma_trim_empty(s: Seq<char>)
    ensures
        trim(s).len() == 0 <==> forall|i: int| 0 <= i < s.len() ==> white_space(#[trigger] s[i]),
{
    lemma_trim_start_empty(s);
    let t = trim_start(s);
    if t.len() > 0 {
        lemma_trim_start_suffix(s);
        lemma_trim_end_keeps(t, 0);
    } else {
        assert(trim_end(t) == t);
    }
}

/// A carriage return at the end of a line is trimmed with the rest of the
/// whitespace.
pub proof fn lemma_trim_strip_cr(x: Seq<char>)
    ensures
        trim(strip_cr(x)) == trim(x),
{
    if x.len() > 0 && x.last() == '\r' {
        let y = x.drop_last();
        assert(white_space('\r'));
        assert(x =~= y + seq!['\r']);
        lemma_trim_start_empty(y);
        lemma_trim_start_empty(x);
        if forall|i: int| 0 <= i < y.len() ==> white_space(#[trigger] y[i]) {
            assert forall|i: int| 0 <= i < x.len() implies white_space(#[trigger] x[i]) by {
                if i < y.len() {
                    assert(x[i] == y[i]);
                }
            }
            assert(trim_start(y).len() == 0);
            assert(trim_start(x).len() == 0);
            assert(trim_end(trim_start(y)) == trim_start(y));
            assert(trim_end(trim_start(x)) == trim_start(x));
            assert(trim_start(y) =~= trim_start(x));
        } else {
            let k = choose|k: int| 0 <= k < y.len() && !white_space(#[trigger] y[k]);
            lemma_trim_start_concat(y, seq!['\r'], k);
            let u = trim_start(y);
            let w = u + seq!['\r'];
            assert(w.last() == '\r');
            assert(w.drop_last() =~= u);
        }
    }
}

/// `s` without leading and trailing whitespace.
pub fn trim_chars(s: &Vec<char>) -> (t: Vec<char>)
    ensures
        t@ == trim(s@),
{
    let len: usize = s.len();
    let mut a: usize = 0;
    assert(s@.skip(0) == s@);
    while a < len && is_white_space(s[a])
        invariant
            a <= len,
            len == s@.len(),
            trim_start(s@) == trim_start(s@.skip(a as int)),
        decreases len - a,
    {
        assert(s@.skip(a as int).drop_first() == s@.skip(a + 1));
        a += 1;
    }
    let ghost u = s@.skip(a as int);
    assert(trim_start(s@) == u);
    let mut b: usize = len;
    assert(u.take((b - a) as int) == u);
    while b > a && is_white_space(s[b - 1])
        invariant
            a <= b <= len,
            len == s@.len(),
            u == s@.skip(a as int),
            trim_end(u) == trim_end(u.take(b - a)),
        decreases b,
    {
        assert(u.take(b - a).drop_last() == u.take(b - a - 1));
        assert(u.take(b - a).last() == s@[b - 1]);
        b -= 1;
    }
    assert(trim_end(u) == u.take(b - a));
    let mut t: Vec<char> = Vec::new();
    for i in a..b
        invariant
            b <= len,
            len == s@.len(),
            u == s@.skip(a as int),
            t@ == u.take(i - a),
    {
        t.push(s[i]);
        assert(u.take(i + 1 - a) == u.take(i - a).push(s@[i as int]));
    }
    t
}

/// Whether `prefix` is a prefix of `s` (`str::starts_with`).
pub open spec fn starts_with(s: Seq<char>, prefix: Seq<char>) -> bool {
    prefix.len() <= s.len() && s.take(prefix.len() as int) == prefix
}

/// `s` starts with `prefix` exactly when `prefix` is no longer than `s` and
/// every character of `prefix` is the character of `s` at the same place.
pub proof fn lemma_starts_with_chars(s: Seq<char>, prefix: Seq<char>)
    ensures
        starts_with(s, prefix) <==> (prefix.len() <= s.len() && forall|i: int|
            0 <= i < prefix.len() ==> #[trigger] s[i] == prefix[i]),
{
    if prefix.len() <= s.len() && forall|i: int| 0 <= i < prefix.len() ==> #[trigger] s[i] == prefix[i] {
        assert(s.take(prefix.len() as int) =~= prefix);
    }
    if starts_with(s, prefix) {
        assert forall|i: int| 0 <= i < prefix.len() implies #[trigger] s[i] == prefix[i] by {
            assert(s.take(prefix.len() as int)[i] == s[i]);
        }
    }
}

/// Whether `prefix` is a prefix of `s`.
pub fn starts_with_chars(s: &Vec<char>, prefix: &Vec<char>) -> (res: bool)
    ensures
        res == starts_with(s@, prefix@),
{
    if prefix.len() > s.len() {
        return false;
    }
    let n: usize = prefix.len();
    for i in 0..n
        invariant
            n == prefix@.len(),
            n <= s@.len(),
            forall|j: int| 0 <= j < i ==> s@[j] == prefix@[j],
    {
        if s[i] != prefix[i] {
            return false;
        }
    }
    assert(s@.take(n as int) =~= prefix@);
    true
}

/// The length of the first line of `s`: the index of its first `\n`, or the
/// length of `s` when it has none.
pub open spec fn line_end(s: Seq<char>) -> nat
    decreases s.len(),
{
    if s.len() == 0 || s[0] == '\n' {
        0
    } else {
        1 + line_end(s.drop_first())
    }
}

/// `line` without one trailing carriage return.
pub open spec fn strip_cr(line: Seq<char>) -> Seq<char> {
    if line.len() > 0 && line.last() == '\r' {
        line.drop_last()
    } else {
        line
    }
}

/// The lines of `s` (`str::lines`): split at each `\n`, a `\r` just before
/// it dropped, and no empty line after a final `\n`.
pub open spec fn lines(s: Seq<char>) -> Seq<Seq<char>>
    decreases s.len(),
{
    if s.len() == 0 {
        Seq::empty()
    } else {
        let e = line_end(s);
        if e >= s.len() {
            seq![s]
        } else {
            seq![strip_cr(s.take(e as int))] + lines(s.skip(e + 1 as int))
        }
    }
}

/// `line_end` finds the first `\n`.
pub proof fn lemma_line_end_at(s: Seq<char>, k: int)
    requires
        0 <= k <= s.len(),
        forall|j: int| 0 <= j < k ==> s[j] != '\n',
        k == s.len() || s[k] == '\n',
    ensures
        line_end(s) == k,
    decreases k,
{
    if k > 0 {
        assert forall|j: int| 0 <= j < k - 1 implies s.drop_first()[j] != '\n' by {
            assert(s.drop_first()[j] == s[j + 1]);
        }
        lemma_line_end_at(s.drop_first(), k - 1);
    }
}

/// The characters `from .. to` of `s`.
fn slice_chars(s: &Vec<char>, from: usize, to: usize) -> (t: Vec<char>)
    requires
        from <= to <= s@.len(),
    ensures
        t@ == s@.subrange(from as int, to as int),
{
    let mut t: Vec<char> = Vec::new();
    for i in from..to
        invariant
            to <= s@.len(),
            t@ == s@.subrange(from as int, i as int),
    {
        t.push(s[i]);
        assert(s@.subrange(from as int, i + 1) == s@.subrange(from as int, i as int).push(s@[i as int]));
    }
    t
}

/// The lines of `s`.
pub fn lines_of(s: &Vec<char>) -> (ls: Vec<Vec<char>>)
    ensures
        ls@.map_values(|l: Vec<char>| l@) == lines(s@),
{
    let len: usize = s.len();
    let mut ls: Vec<Vec<char>> = Vec::new();
    let mut start: usize = 0;
    assert(s@.skip(0) == s@);
    assert(ls@.map_values(|l: Vec<char>| l@) + lines(s@.skip(0)) =~= lines(s@));
    while start < len
        invariant
            start <= len,
            len == s@.len(),
            ls@.map_values(|l: Vec<char>| l@) + lines(s@.skip(start as int)) == lines(s@),
        decreases len - start,
    {
        let ghost t = s@.skip(start as int);
        let ghost before = ls@.map_values(|l: Vec<char>| l@);
        let mut e: usize = start;
        while e < len && s[e] != '\n'
            invariant
                start <= e <= len,
                len == s@.len(),
                forall|j: int| start <= j < e ==> s@[j] != '\n',
            decreases len - e,
        {
            e += 1;
        }
        proof {
            assert forall|j: int| 0 <= j < e - start implies t[j] != '\n' by {
                assert(t[j] == s@[start + j]);
            }
            if e < len {
                assert(t[e - start] == s@[e as int]);
            }
            lemma_line_end_at(t, e - start);
        }
        if e == len {
            let line = slice_chars(s, start, len);
            assert(line@ == t);
            ls.push(line);
            proof {
                assert(lines(t) == seq![t]);
                assert(ls@.map_values(|l: Vec<char>| l@) == before.push(t));
                assert(s@.skip(len as int) =~= Seq::<char>::empty());
                assert(before + lines(t) =~= before.push(t) + lines(s@.skip(len as int)));
            }
            start = len;
        } else {
            let mut line = slice_chars(s, start, e);
            assert(line@ == t.take(e - start));
            if line.len() > 0 && line[line.len() - 1] == '\r' {
                line.pop();
            }
            assert(line@ == strip_cr(t.take(e - start)));
            ls.push(line);
            proof {
                assert(t.skip(e - start + 1) =~= s@.skip(e + 1));
                assert(lines(t) == seq![line@] + lines(s@.skip(e + 1)));
                assert(ls@.map_values(|l: Vec<char>| l@) == before.push(line@));
                assert(before + lines(t) =~= before.push(line@) + lines(s@.skip(e + 1)));
            }
            start = e + 1;
        }
    }
    assert(s@.skip(len as int) =~= Seq::<char>::empty());
    assert(ls@.map_values(|l: Vec<char>| l@) =~= lines(s@));
    ls
}

} // verus!
