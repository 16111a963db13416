//! Character-level text handling used by the date, number and file-name
//! logic: Unicode white space, trimming, splitting on a separator, decimal
//! rendering and integer parsing. Each operation is stated as a spec function
//! over `Seq<char>` and implemented by an executable function proved to meet
//! it.

use vstd::prelude::*;

verus! {

// ---------------------------------------------------------------------------
// White space and trimming
// ---------------------------------------------------------------------------

/// The Unicode `White_Space` property, which `char::is_whitespace`,
/// `str::trim` and `str::split_whitespace` go by.
pub open spec fn is_white_space(c: char) -> bool {
    ||| ('\u{9}' <= c && c <= '\u{d}')
    ||| c == ' '
    ||| c == '\u{85}'
    ||| c == '\u{a0}'
    ||| c == '\u{1680}'
    ||| ('\u{2000}' <= c && c <= '\u{200a}')
    ||| c == '\u{2028}'
    ||| c == '\u{2029}'
    ||| c == '\u{202f}'
    ||| c == '\u{205f}'
    ||| c == '\u{3000}'
}

/// Whether `c` is Unicode white space.
pub fn is_whitespace_char(c: char) -> (b: bool)
    ensures
        b == is_white_space(c),
{
    ('\u{9}' <= c && c <= '\u{d}') || c == ' ' || c == '\u{85}' || c == '\u{a0}' || c
        == '\u{1680}' || ('\u{2000}' <= c && c <= '\u{200a}') || c == '\u{2028}' || c
        == '\u{2029}' || c == '\u{202f}' || c == '\u{205f}' || c == '\u{3000}'
}

/// `s` without its leading white space.
pub open spec fn trim_start(s: Seq<char>) -> Seq<char>
    decreases s.len(),
{
    if s.len() > 0 && is_white_space(s[0]) {
        trim_start(s.drop_first())
    } else {
        s
    }
}

/// `s` without its trailing white space.
pub open spec fn trim_end(s: Seq<char>) -> Seq<char>
    decreases s.len(),
{
    if s.len() > 0 && is_white_space(s.last()) {
        trim_end(s.drop_last())
    } else {
        s
    }
}

/// `str::trim`: `s` without leading and trailing white space.
pub open spec fn trim(s: Seq<char>) -> Seq<char> {
    trim_end(trim_start(s))
}

/// The characters of `s`, in order.
pub fn chars_of(s: &str) -> (v: Vec<char>)
    ensures
        v@ == s@,
{
    let mut v: Vec<char> = Vec::new();
    for c in it: s.chars()
        invariant
            v@ == it.seq().take(it.index() as int),
    {
        v.push(c);
    }
    v
}

/// `s[from..to]` as a vector of its own.
pub fn sub_chars(s: &Vec<char>, from: usize, to: usize) -> (v: Vec<char>)
    requires
        from <= to <= s.len(),
    ensures
        v@ == s@.subrange(from as int, to as int),
{
    let mut v: Vec<char> = Vec::new();
    let mut i = from;
    while i < to
        invariant
            from <= i <= to <= s.len(),
            v@ == s@.subrange(from as int, i as int),
        decreases to - i,
    {
        v.push(s[i]);
        i += 1;
        assert(v@ =~= s@.subrange(from as int, i as int));
    }
    v
}

/// Bounds `(a, b)` of the part of `s` that `trim` keeps.
pub fn trim_bounds(s: &Vec<char>) -> (r: (usize, usize))
    ensures
        r.0 <= r.1 <= s.len(),
        trim_start(s@) == s@.subrange(r.0 as int, s.len() as int),
        trim(s@) == s@.subrange(r.0 as int, r.1 as int),
{
    let n = s.len();
    let mut a: usize = 0;
    assert(s@.subrange(0, n as int) =~= s@);
    while a < n && is_whitespace_char(s[a])
        invariant
            a <= n == s.len(),
            trim_start(s@) == trim_start(s@.subrange(a as int, n as int)),
        decreases n - a,
    {
        assert(s@.subrange(a as int, n as int).drop_first() =~= s@.subrange(a + 1, n as int));
        a += 1;
    }
    let ghost rest = s@.subrange(a as int, n as int);
    assert(trim_start(rest) == rest);
    let mut b: usize = n;
    while b > a && is_whitespace_char(s[b - 1])
        invariant
            a <= b <= n == s.len(),
            rest == s@.subrange(a as int, n as int),
            trim_end(rest) == trim_end(s@.subrange(a as int, b as int)),
        decreases b,
    {
        assert(s@.subrange(a as int, b as int).drop_last() =~= s@.subrange(a as int, b - 1));
        b -= 1;
    }
    (a, b)
}

/// `str::trim`, on characters.
pub fn trim_chars(s: &Vec<char>) -> (t: Vec<char>)
    ensures
        t@ == trim(s@),
{
    let (a, b) = trim_bounds(s);
    sub_chars(s, a, b)
}

/// A trimmed text equals itself when it neither starts nor ends with white space.
pub proof fn lemma_trim_no_edge_space(s: Seq<char>)
    requires
        s.len() > 0,
        !is_white_space(s[0]),
        !is_white_space(s.last()),
    ensures
        trim(s) == s,
{
}

// ---------------------------------------------------------------------------
// Splitting on a separator
// ---------------------------------------------------------------------------

/// `str::split(sep)`: the pieces between separators, empty ones included;
/// a text with no separator is one piece, and the empty text is one empty piece.
pub open spec fn split_on(s: Seq<char>, sep: char) -> Seq<Seq<char>>
    decreases s.len(),
{
    if s.len() == 0 {
        seq![Seq::empty()]
    } else {
        let init = split_on(s.drop_last(), sep);
        if s.last() == sep {
            init.push(Seq::empty())
        } else {
            init.update(init.len() - 1, init.last().push(s.last()))
        }
    }
}

/// There is always at least one piece.
pub proof fn lemma_split_nonempty(s: Seq<char>, sep: char)
    ensures
        split_on(s, sep).len() >= 1,
    decreases s.len(),
{
    if s.len() > 0 {
        lemma_split_nonempty(s.drop_last(), sep);
    }
}

/// A text without the separator is a single piece.
pub proof fn lemma_split_no_sep(s: Seq<char>, sep: char)
    requires
        !s.contains(sep),
    ensures
        split_on(s, sep) == seq![s],
    decreases s.len(),
{
    if s.len() > 0 {
        let init = s.drop_last();
        assert(!init.contains(sep)) by {
            if init.contains(sep) {
                let k = choose|k: int| 0 <= k < init.len() && init[k] == sep;
                assert(s[k] == sep);
            }
        }
        lemma_split_no_sep(init, sep);
        assert(s.last() == s[s.len() - 1]);
        assert(init.push(s.last()) =~= s);
        assert(s.last() != sep) by {
            if s.last() == sep {
                assert(s[s.len() - 1] == sep);
            }
        }
        assert(split_on(s, sep) =~= seq![s]);
    } else {
        assert(s =~= Seq::<char>::empty());
    }
}

/// Adding a separator and a separator-free tail adds one piece.
pub proof fn lemma_split_append(a: Seq<char>, sep: char, b: Seq<char>)
    requires
        !b.contains(sep),
    ensures
        split_on(a + seq![sep] + b, sep) == split_on(a, sep).push(b),
    decreases b.len(),
{
    let s = a + seq![sep] + b;
    if b.len() == 0 {
        assert(s =~= a.push(sep));
        assert(s.drop_last() =~= a);
        assert(b =~= Seq::<char>::empty());
    } else {
        let bi = b.drop_last();
        assert(!bi.contains(sep)) by {
            if bi.contains(sep) {
                let k = choose|k: int| 0 <= k < bi.len() && bi[k] == sep;
                assert(b[k] == sep);
            }
        }
        lemma_split_append(a, sep, bi);
        assert(s.drop_last() =~= a + seq![sep] + bi);
        assert(s.last() == b[b.len() - 1]);
        assert(b.contains(b[b.len() - 1]));
        lemma_split_nonempty(a, sep);
        assert(bi.push(b.last()) =~= b);
        assert(split_on(s, sep) =~= split_on(a, sep).push(b));
    }
}

/// No piece holds the separator.
pub proof fn lemma_split_pieces_free(s: Seq<char>, sep: char)
    ensures
        forall|i: int|
            0 <= i < split_on(s, sep).len() ==> !(#[trigger] split_on(s, sep)[i]).contains(sep),
    decreases s.len(),
{
    if s.len() > 0 {
        let init = split_on(s.drop_last(), sep);
        lemma_split_pieces_free(s.drop_last(), sep);
        lemma_split_nonempty(s.drop_last(), sep);
        let sp = split_on(s, sep);
        assert forall|i: int| 0 <= i < sp.len() implies !(#[trigger] sp[i]).contains(sep) by {
            if s.last() == sep {
                if i < init.len() {
                    assert(sp[i] == init[i]);
                } else {
                    assert(sp[i] =~= Seq::<char>::empty());
                }
            } else if i < init.len() - 1 {
                assert(sp[i] == init[i]);
            } else {
                let piece = init.last().push(s.last());
                assert(sp[i] == piece);
                assert(!init[init.len() - 1].contains(sep));
                if piece.contains(sep) {
                    let k = choose|k: int| 0 <= k < piece.len() && piece[k] == sep;
                    if k < piece.len() - 1 {
                        assert(init.last()[k] == sep);
                    }
                }
            }
        }
    }
}

/// A numeral without a minus sign reads as a value of at least zero.
pub proof fn lemma_parse_i32_no_minus(s: Seq<char>)
    requires
        !s.contains('-'),
    ensures
        parse_i32_spec(s) matches Some(v) ==> v >= 0,
{
    if s.len() > 0 {
        assert(s[0] != '-');
    }
}

/// `str::split(sep)`, on characters.
pub fn split_chars(s: &Vec<char>, sep: char) -> (parts: Vec<Vec<char>>)
    ensures
        parts@.len() == split_on(s@, sep).len(),
        forall|i: int| 0 <= i < parts@.len() ==> #[trigger] parts@[i]@ == split_on(s@, sep)[i],
{
    let mut done: Vec<Vec<char>> = Vec::new();
    let mut cur: Vec<char> = Vec::new();
    let n = s.len();
    let mut i: usize = 0;
    assert(s@.take(0) =~= Seq::<char>::empty());
    while i < n
        invariant
            i <= n == s.len(),
            done@.len() + 1 == split_on(s@.take(i as int), sep).len(),
            forall|k: int|
                0 <= k < done@.len() ==> #[trigger] done@[k]@ == split_on(
                    s@.take(i as int),
                    sep,
                )[k],
            cur@ == split_on(s@.take(i as int), sep).last(),
        decreases n - i,
    {
        proof {
            lemma_split_nonempty(s@.take(i as int), sep);
        }
        assert(s@.take(i + 1).drop_last() =~= s@.take(i as int));
        assert(s@.take(i + 1).last() == s@[i as int]);
        let c = s[i];
        if c == sep {
            done.push(cur);
            cur = Vec::new();
        } else {
            cur.push(c);
        }
        i += 1;
    }
    assert(s@.take(n as int) =~= s@);
    proof {
        lemma_split_nonempty(s@, sep);
    }
    done.push(cur);
    done
}

// ---------------------------------------------------------------------------
// Decimal numerals
// ---------------------------------------------------------------------------

/// Whether `c` is an ASCII decimal digit.
pub open spec fn is_digit(c: char) -> bool {
    '0' <= c && c <= '9'
}

/// Whether every character of `s` is an ASCII decimal digit.
pub open spec fn all_digits(s: Seq<char>) -> bool {
    forall|i: int| 0 <= i < s.len() ==> #[trigger] is_digit(s[i])
}

/// The value of a digit character.
pub open spec fn digit_value(c: char) -> nat {
    (c as int - '0' as int) as nat
}

/// The value of a string of decimal digits, most significant first.
pub open spec fn digits_value(s: Seq<char>) -> nat
    decreases s.len(),
{
    if s.len() == 0 {
        0
    } else {
        digits_value(s.drop_last()) * 10 + digit_value(s.last())
    }
}

/// The character of a digit value below ten.
pub open spec fn digit_char(d: nat) -> char {
    (48 + d) as char
}

/// Decimal digits of `n`, most significant first, with no leading zero.
pub open spec fn dec_digits(n: nat) -> Seq<char>
    decreases n,
{
    if n < 10 {
        seq![digit_char(n)]
    } else {
        dec_digits(n / 10).push(digit_char(n % 10))
    }
}

/// `k` zero characters.
pub open spec fn zeros(k: nat) -> Seq<char> {
    Seq::new(k, |i: int| '0')
}

/// `s` with zeros in front, up to `width` characters.
pub open spec fn zero_pad(s: Seq<char>, width: nat) -> Seq<char> {
    if s.len() < width {
        zeros((width - s.len()) as nat) + s
    } else {
        s
    }
}

/// `format!("{n}")` of an integer.
pub open spec fn fmt_int(n: int) -> Seq<char> {
    if n < 0 {
        seq!['-'] + dec_digits((-n) as nat)
    } else {
        dec_digits(n as nat)
    }
}

/// `format!("{n:0width$}")` of an integer: the sign, if any, comes first
/// and counts toward the width.
pub open spec fn fmt_int_padded(n: int, width: nat) -> Seq<char> {
    if n < 0 {
        seq!['-'] + zero_pad(dec_digits((-n) as nat), if width > 0 { (width - 1) as nat } else { 0 })
    } else {
        zero_pad(dec_digits(n as nat), width)
    }
}

/// The digit character of `d`.
pub fn digit_to_char(d: u64) -> (c: char)
    requires
        d < 10,
    ensures
        c == digit_char(d as nat),
        is_digit(c),
{
    ((48u8 + d as u8) as char)
}

/// The digit character of `d` is a digit worth `d`.
pub proof fn lemma_digit_char(d: nat)
    requires
        d < 10,
    ensures
        is_digit(digit_char(d)),
        digit_value(digit_char(d)) == d,
        !is_white_space(digit_char(d)),
{
    assert(digit_char(d) as int == 48 + d);
}

/// Decimal digits of `n` are digits, at least one, and read back as `n`.
pub proof fn lemma_dec_digits(n: nat)
    ensures
        dec_digits(n).len() >= 1,
        all_digits(dec_digits(n)),
        digits_value(dec_digits(n)) == n,
        !is_white_space(dec_digits(n)[0]),
        !is_white_space(dec_digits(n).last()),
    decreases n,
{
    lemma_digit_char(n % 10);
    if n < 10 {
        lemma_digit_char(n);
        assert(seq![digit_char(n)].drop_last() =~= Seq::<char>::empty());
        assert(digits_value(Seq::<char>::empty()) == 0);
        assert(digits_value(dec_digits(n)) == n);
    } else {
        lemma_dec_digits(n / 10);
        let d = dec_digits(n);
        assert(d.drop_last() =~= dec_digits(n / 10));
        assert(d[0] == dec_digits(n / 10)[0]);
        assert(d.last() == digit_char(n % 10));
        assert(n == (n / 10) * 10 + n % 10);
        assert(digits_value(d) == digits_value(d.drop_last()) * 10 + digit_value(d.last()));
    }
}

/// `10^k`.
pub open spec fn pow10(k: nat) -> nat
    decreases k,
{
    if k == 0 {
        1
    } else {
        10 * pow10((k - 1) as nat)
    }
}

/// Below `10^k` a numeral has at most `k` digits.
pub proof fn lemma_dec_digits_len(n: nat, k: nat)
    requires
        n < pow10(k),
        k >= 1,
    ensures
        dec_digits(n).len() <= k,
    decreases k,
{
    if n >= 10 {
        let k1 = (k - 1) as nat;
        assert(k1 >= 1) by {
            if k1 == 0 {
                assert(pow10(1) == 10) by {
                    reveal_with_fuel(pow10, 2);
                }
            }
        }
        assert(n / 10 < pow10(k1));
        lemma_dec_digits_len(n / 10, k1);
    }
}

/// Leading zeros do not change a numeral's value.
pub proof fn lemma_leading_zeros(k: nat, s: Seq<char>)
    ensures
        digits_value(zeros(k) + s) == digits_value(s),
    decreases s.len(), k,
{
    if s.len() == 0 {
        assert(zeros(k) + s =~= zeros(k));
        lemma_zeros_value(k);
    } else {
        assert((zeros(k) + s).drop_last() =~= zeros(k) + s.drop_last());
        lemma_leading_zeros(k, s.drop_last());
    }
}

/// A run of zeros has value zero.
pub proof fn lemma_zeros_value(k: nat)
    ensures
        digits_value(zeros(k)) == 0,
    decreases k,
{
    if k > 0 {
        assert(zeros(k).drop_last() =~= zeros((k - 1) as nat));
        lemma_zeros_value((k - 1) as nat);
    }
}

/// A zero-padded numeral is still digits only.
pub proof fn lemma_zero_pad_digits(s: Seq<char>, width: nat)
    requires
        all_digits(s),
        s.len() >= 1,
    ensures
        all_digits(zero_pad(s, width)),
        digits_value(zero_pad(s, width)) == digits_value(s),
        zero_pad(s, width).len() >= 1,
        zero_pad(s, width).last() == s.last(),
        is_digit(zero_pad(s, width)[0]),
{
    if s.len() < width {
        let z = zeros((width - s.len()) as nat);
        lemma_leading_zeros((width - s.len()) as nat, s);
        assert forall|i: int| 0 <= i < (z + s).len() implies #[trigger] is_digit((z + s)[i]) by {
            if i >= z.len() {
                assert((z + s)[i] == s[i - z.len()]);
            }
        }
    }
    assert(is_digit(zero_pad(s, width)[0]));
}

/// A prefix of a numeral is worth no more than the whole.
pub proof fn lemma_digits_value_prefix(s: Seq<char>, k: int)
    requires
        0 <= k <= s.len(),
    ensures
        digits_value(s.take(k)) <= digits_value(s),
    decreases s.len(),
{
    if k < s.len() {
        assert(s.drop_last().take(k) =~= s.take(k));
        lemma_digits_value_prefix(s.drop_last(), k);
    } else {
        assert(s.take(k) =~= s);
    }
}

/// Number of decimal digits of `n`.
pub fn dec_len(n: u64) -> (r: usize)
    ensures
        r == dec_digits(n as nat).len(),
        r <= 20,
    decreases n,
{
    if n < 10 {
        1
    } else {
        let r = dec_len(n / 10);
        proof {
            assert(pow10(20) == 100000000000000000000) by {
                reveal_with_fuel(pow10, 21);
            }
            lemma_dec_digits_len(n as nat, 20);
        }
        r + 1
    }
}

/// Appends the decimal digits of `n`.
pub fn push_decimal(out: &mut String, n: u64)
    ensures
        final(out)@ == old(out)@ + dec_digits(n as nat),
    decreases n,
{
    if n >= 10 {
        push_decimal(out, n / 10);
    }
    push_char(out, digit_to_char(n % 10));
    assert(dec_digits(n as nat) =~= if n >= 10 {
        dec_digits((n / 10) as nat).push(digit_char((n % 10) as nat))
    } else {
        seq![digit_char(n as nat)]
    });
}

/// Appends `n` zero-padded to `width` characters.
pub fn push_padded(out: &mut String, n: u64, width: usize)
    ensures
        final(out)@ == old(out)@ + zero_pad(dec_digits(n as nat), width as nat),
{
    let len = dec_len(n);
    let ghost start = out@;
    if len < width {
        let mut k: usize = 0;
        while k < width - len
            invariant
                len < width,
                k <= width - len,
                out@ == start + zeros(k as nat),
            decreases width - len - k,
        {
            push_char(out, '0');
            k += 1;
            assert(out@ =~= start + zeros(k as nat));
        }
    }
    push_decimal(out, n);
    assert(out@ =~= start + zero_pad(dec_digits(n as nat), width as nat));
}

/// Appends `format!("{n:0width$}")` of a signed integer.
pub fn push_int_padded(out: &mut String, n: i64, width: usize)
    ensures
        final(out)@ == old(out)@ + fmt_int_padded(n as int, width as nat),
{
    if n < 0 {
        push_char(out, '-');
        let w = if width > 0 {
            width - 1
        } else {
            0
        };
        push_padded(out, (0 - (n as i128)) as u64, w);
        assert(out@ =~= old(out)@ + fmt_int_padded(n as int, width as nat));
    } else {
        push_padded(out, n as u64, width);
    }
}

/// Appends `format!("{n}")` of a signed integer.
pub fn push_int(out: &mut String, n: i64)
    ensures
        final(out)@ == old(out)@ + fmt_int(n as int),
{
    if n < 0 {
        push_char(out, '-');
        push_decimal(out, (0 - (n as i128)) as u64);
        assert(out@ =~= old(out)@ + fmt_int(n as int));
    } else {
        push_decimal(out, n as u64);
    }
}

/// The decimal form of `n` as a new string, as `n.to_string()` gives it.
pub fn int_to_string(n: i64) -> (s: String)
    ensures
        s@ == fmt_int(n as int),
{
    let mut s = String::new();
    push_int(&mut s, n);
    assert(s@ =~= fmt_int(n as int));
    s
}

// ---------------------------------------------------------------------------
// Integer parsing
// ---------------------------------------------------------------------------

/// The value that `str::parse` reads from an unsigned numeral, as long as it
/// does not exceed `max`: an optional `+`, then one or more ASCII digits.
pub open spec fn parse_unsigned(s: Seq<char>, max: nat) -> Option<nat> {
    let body = if s.len() > 0 && s[0] == '+' {
        s.drop_first()
    } else {
        s
    };
    if body.len() > 0 && all_digits(body) && digits_value(body) <= max {
        Some(digits_value(body))
    } else {
        None
    }
}

/// `str::parse::<u32>`.
pub open spec fn parse_u32_spec(s: Seq<char>) -> Option<u32> {
    match parse_unsigned(s, u32::MAX as nat) {
        Some(v) => Some(v as u32),
        None => None,
    }
}

/// `str::parse::<i32>`: an optional sign, then one or more ASCII digits,
/// within the range of `i32`.
pub open spec fn parse_i32_spec(s: Seq<char>) -> Option<i32> {
    if s.len() > 0 && s[0] == '-' {
        let body = s.drop_first();
        if body.len() > 0 && all_digits(body) && digits_value(body) <= 0x8000_0000 {
            Some((-digits_value(body)) as i32)
        } else {
            None
        }
    } else {
        match parse_unsigned(s, i32::MAX as nat) {
            Some(v) => Some(v as i32),
            None => None,
        }
    }
}

/// The value of the digits `s[from..]`, when they are all digits, at least
/// one, and worth no more than `max`.
fn digits_at_most(s: &Vec<char>, from: usize, max: u64) -> (r: Option<u64>)
    requires
        from <= s.len(),
        max <= 0x1_0000_0000,
    ensures
        ({
            let body = s@.subrange(from as int, s.len() as int);
            match r {
                Some(v) => body.len() > 0 && all_digits(body) && digits_value(body) <= max && v
                    == digits_value(body),
                None => !(body.len() > 0 && all_digits(body) && digits_value(body) <= max),
            }
        }),
{
    let n = s.len();
    if from == n {
        return None;
    }
    let ghost body = s@.subrange(from as int, n as int);
    let mut acc: u64 = 0;
    let mut i = from;
    while i < n
        invariant
            from <= i <= n == s.len(),
            max <= 0x1_0000_0000,
            body == s@.subrange(from as int, n as int),
            acc <= max,
            acc == digits_value(body.take(i - from)),
            all_digits(body.take(i - from)),
        decreases n - i,
    {
        let c = s[i];
        assert(body[i - from] == c);
        if !('0' <= c && c <= '9') {
            assert(!is_digit(body[i - from]));
            return None;
        }
        let d = (c as u32 - '0' as u32) as u64;
        assert(body.take(i - from + 1).drop_last() =~= body.take(i - from));
        assert(body.take(i - from + 1).last() == c);
        acc = acc * 10 + d;
        assert(acc == digits_value(body.take(i - from + 1)));
        if acc > max {
            proof {
                lemma_digits_value_prefix(body, i - from + 1);
            }
            return None;
        }
        i += 1;
        assert forall|k: int| 0 <= k < body.take(i - from).len() implies #[trigger] is_digit(
            body.take(i - from)[k],
        ) by {
            if k < i - from - 1 {
                assert(body.take(i - from)[k] == body.take(i - from - 1)[k]);
            }
        }
    }
    assert(body.take(n - from) =~= body);
    Some(acc)
}

/// `str::parse::<u32>`, on characters.
pub fn parse_u32(s: &Vec<char>) -> (r: Option<u32>)
    ensures
        r == parse_u32_spec(s@),
{
    let from: usize = if s.len() > 0 && s[0] == '+' {
        1
    } else {
        0
    };
    let ghost body = if s@.len() > 0 && s@[0] == '+' {
        s@.drop_first()
    } else {
        s@
    };
    assert(body =~= s@.subrange(from as int, s.len() as int));
    match digits_at_most(s, from, 0xffff_ffff) {
        Some(v) => Some(v as u32),
        None => None,
    }
}

/// `str::parse::<i32>`, on characters.
pub fn parse_i32(s: &Vec<char>) -> (r: Option<i32>)
    ensures
        r == parse_i32_spec(s@),
{
    if s.len() > 0 && s[0] == '-' {
        assert(s@.drop_first() =~= s@.subrange(1, s.len() as int));
        match digits_at_most(s, 1, 0x8000_0000) {
            Some(v) => Some((0 - (v as i64)) as i32),
            None => None,
        }
    } else {
        let from: usize = if s.len() > 0 && s[0] == '+' {
            1
        } else {
            0
        };
        let ghost body = if s@.len() > 0 && s@[0] == '+' {
            s@.drop_first()
        } else {
            s@
        };
        assert(body =~= s@.subrange(from as int, s.len() as int));
        match digits_at_most(s, from, 0x7fff_ffff) {
            Some(v) => Some(v as i32),
            None => None,
        }
    }
}

/// A zero-padded numeral of a value that fits reads back as that value.
pub proof fn lemma_parse_padded(n: nat, width: nat, max: nat)
    requires
        n <= max,
    ensures
        parse_unsigned(zero_pad(dec_digits(n), width), max) == Some(n),
        !zero_pad(dec_digits(n), width).contains('-'),
        !zero_pad(dec_digits(n), width).contains('+'),
{
    lemma_dec_digits(n);
    let z = zero_pad(dec_digits(n), width);
    lemma_zero_pad_digits(dec_digits(n), width);
    assert(is_digit(z[0]));
    if z.contains('-') {
        let k = choose|k: int| 0 <= k < z.len() && z[k] == '-';
        assert(is_digit(z[k]));
    }
    if z.contains('+') {
        let k = choose|k: int| 0 <= k < z.len() && z[k] == '+';
        assert(is_digit(z[k]));
    }
}

// ---------------------------------------------------------------------------
// Building strings
// ---------------------------------------------------------------------------

/// Appends one character (`String::push`).
#[verifier::external_body]
pub(crate) fn push_char(s: &mut String, c: char)
    ensures
        final(s)@ == old(s)@.push(c),
{
    s.push(c);
}

/// Appends the characters of `v`.
pub fn push_chars(out: &mut String, v: &Vec<char>)
    ensures
        final(out)@ == old(out)@ + v@,
{
    let ghost start = out@;
    for i in 0..v.len()
        invariant
            out@ == start + v@.take(i as int),
    {
        push_char(out, v[i]);
        assert(out@ =~= start + v@.take(i + 1));
    }
    assert(v@.take(v.len() as int) =~= v@);
}

/// A string holding the characters of `v`.
pub fn string_of(v: &Vec<char>) -> (s: String)
    ensures
        s@ == v@,
{
    let mut s = String::new();
    push_chars(&mut s, v);
    assert(s@ =~= v@);
    s
}

/// The Unicode lowercase mapping of a text, as `str::to_lowercase` computes it.
pub uninterp spec fn unicode_lowercase(s: Seq<char>) -> Seq<char>;

/// Calls `str::to_lowercase`. Claimed: the result is a function of the
/// characters of `s` alone, named `unicode_lowercase`; nothing more is stated
/// of the Unicode case tables.
#[verifier::external_body]
pub(crate) fn to_lowercase(s: &str) -> (r: String)
    ensures
        r@ == unicode_lowercase(s@),
{
    s.to_lowercase()
}

} // verus!
