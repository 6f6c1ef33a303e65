//! Character-level text utilities shared by every adapter: decimal digit
//! reading and rendering, case folding, literal matching over `Seq<char>`,
//! and base64 for credential headers.

use vstd::prelude::*;

verus! {

pub open spec fn is_digit(c: char) -> bool {
    '0' as int <= c as int && c as int <= '9' as int
}

pub open spec fn is_ascii_letter(c: char) -> bool {
    ('A' as int <= c as int && c as int <= 'Z' as int) || ('a' as int <= c as int && c as int
        <= 'z' as int)
}

pub open spec fn digit_val(c: char) -> int {
    c as int - '0' as int
}

pub open spec fn all_digits(s: Seq<char>) -> bool {
    forall|i: int| 0 <= i < s.len() ==> is_digit(#[trigger] s[i])
}

/// Numeric value of a digit string, most significant digit first.
pub open spec fn dec_value(s: Seq<char>) -> int
    decreases s.len(),
{
    if s.len() == 0 {
        0
    } else {
        dec_value(s.drop_last()) * 10 + digit_val(s.last())
    }
}

pub open spec fn pow10(n: nat) -> int
    decreases n,
{
    if n == 0 {
        1
    } else {
        10 * pow10((n - 1) as nat)
    }
}

pub proof fn lemma_pow10_mono(m: nat, n: nat)
    requires
        m <= n,
    ensures
        pow10(m) <= pow10(n),
    decreases n,
{
    if m < n {
        lemma_pow10_mono(m, (n - 1) as nat);
        lemma_pow10_pos((n - 1) as nat);
    }
}

pub proof fn lemma_pow10_pos(n: nat)
    ensures
        pow10(n) >= 1,
    decreases n,
{
    if n > 0 {
        lemma_pow10_pos((n - 1) as nat);
    }
}

pub proof fn lemma_dec_value_bound(s: Seq<char>)
    requires
        all_digits(s),
    ensures
        0 <= dec_value(s) < pow10(s.len()),
    decreases s.len(),
{
    if s.len() > 0 {
        assert(all_digits(s.drop_last())) by {
            assert(forall|i: int|
                0 <= i < s.len() - 1 ==> is_digit(#[trigger] s.drop_last()[i]) == is_digit(s[i]));
        }
        lemma_dec_value_bound(s.drop_last());
    }
}

pub open spec fn digit_char(d: int) -> char {
    if d == 0 {
        '0'
    } else if d == 1 {
        '1'
    } else if d == 2 {
        '2'
    } else if d == 3 {
        '3'
    } else if d == 4 {
        '4'
    } else if d == 5 {
        '5'
    } else if d == 6 {
        '6'
    } else if d == 7 {
        '7'
    } else if d == 8 {
        '8'
    } else {
        '9'
    }
}

/// Decimal rendering of `n`, without leading zeros (`0` renders as "0").
pub open spec fn dec_digits(n: nat) -> Seq<char>
    decreases n,
{
    if n < 10 {
        seq![digit_char(n as int)]
    } else {
        dec_digits(n / 10).push(digit_char((n % 10) as int))
    }
}

/// Decimal rendering of `n` left-padded with zeros to at least `w` characters.
pub open spec fn dec_digits_pad(n: nat, w: nat) -> Seq<char>
    decreases n + w,
{
    if n < 10 && w <= 1 {
        seq![digit_char(n as int)]
    } else {
        dec_digits_pad(n / 10, if w == 0 { 0 } else { (w - 1) as nat }).push(
            digit_char((n % 10) as int),
        )
    }
}

/// The decimal rendering consists of digits and is never empty.
pub proof fn lemma_dec_digits_shape(n: nat)
    ensures
        all_digits(dec_digits(n)),
        dec_digits(n).len() >= 1,
    decreases n,
{
    if n < 10 {
        assert(is_digit(digit_char(n as int)));
        assert(forall|i: int|
            0 <= i < dec_digits(n).len() ==> is_digit(#[trigger] dec_digits(n)[i]));
    } else {
        lemma_dec_digits_shape(n / 10);
        let pre = dec_digits(n / 10);
        let post = dec_digits(n);
        assert(post == pre.push(digit_char((n % 10) as int)));
        assert(is_digit(digit_char((n % 10) as int)));
        assert(forall|i: int|
            0 <= i < post.len() ==> is_digit(#[trigger] post[i]) == if i < pre.len() {
                is_digit(pre[i])
            } else {
                is_digit(digit_char((n % 10) as int))
            });
    }
}

/// Reading back the decimal rendering of `n` yields `n`.
pub proof fn lemma_dec_digits_value(n: nat)
    ensures
        dec_value(dec_digits(n)) == n,
    decreases n,
{
    if n < 10 {
        let s = dec_digits(n);
        assert(s.drop_last() =~= Seq::<char>::empty());
        assert(s.last() == digit_char(n as int));
        assert(dec_value(Seq::<char>::empty()) == 0);
    } else {
        lemma_dec_digits_value(n / 10);
        let post = dec_digits(n);
        assert(post.drop_last() =~= dec_digits(n / 10));
        assert(digit_val(digit_char((n % 10) as int)) == n % 10);
    }
}

/// The rendering of `n < pow10(k)` takes at most `k` digits.
pub proof fn lemma_dec_digits_len(n: nat, k: nat)
    requires
        n < pow10(k),
        k >= 1,
    ensures
        dec_digits(n).len() <= k,
    decreases n,
{
    if n < 10 {
    } else {
        assert(pow10(k) == 10 * pow10((k - 1) as nat));
        if k == 1 {
            lemma_pow10_pos(0);
            assert(false);
        }
        lemma_dec_digits_len(n / 10, (k - 1) as nat);
    }
}

/// The padded decimal rendering consists of digits and is never empty.
pub proof fn lemma_dec_digits_pad_shape(n: nat, w: nat)
    ensures
        all_digits(dec_digits_pad(n, w)),
        dec_digits_pad(n, w).len() >= 1,
    decreases n + w,
{
    if n < 10 && w <= 1 {
        assert(is_digit(digit_char(n as int)));
        assert(forall|i: int|
            0 <= i < dec_digits_pad(n, w).len() ==> is_digit(#[trigger] dec_digits_pad(n, w)[i]));
    } else {
        let w2: nat = if w == 0 {
            0
        } else {
            (w - 1) as nat
        };
        lemma_dec_digits_pad_shape(n / 10, w2);
        let pre = dec_digits_pad(n / 10, w2);
        let post = dec_digits_pad(n, w);
        assert(post == pre.push(digit_char((n % 10) as int)));
        assert(is_digit(digit_char((n % 10) as int)));
        assert(forall|i: int|
            0 <= i < post.len() ==> is_digit(#[trigger] post[i]) == if i < pre.len() {
                is_digit(pre[i])
            } else {
                is_digit(digit_char((n % 10) as int))
            });
    }
}

/// Relies on std's `String::push`, for which vstd has no specification:
/// it appends exactly the one character to the string.
pub assume_specification[ String::push ](s: &mut String, c: char)
    ensures
        final(s)@ == old(s)@.push(c),
;

/// The numeric value of a digit character.
pub fn digit_value(c: char) -> (d: u32)
    requires
        is_digit(c),
    ensures
        d == digit_val(c),
        d < 10,
{
    match c {
        '0' => 0,
        '1' => 1,
        '2' => 2,
        '3' => 3,
        '4' => 4,
        '5' => 5,
        '6' => 6,
        '7' => 7,
        '8' => 8,
        _ => 9,
    }
}

fn digit_of(d: u32) -> (c: char)
    requires
        d < 10,
    ensures
        c == digit_char(d as int),
{
    match d {
        0 => '0',
        1 => '1',
        2 => '2',
        3 => '3',
        4 => '4',
        5 => '5',
        6 => '6',
        7 => '7',
        8 => '8',
        _ => '9',
    }
}

/// Append the decimal rendering of `n` to `s`.
pub fn push_u32(s: &mut String, n: u32)
    ensures
        final(s)@ == old(s)@ + dec_digits(n as nat),
    decreases n,
{
    if n >= 10 {
        push_u32(s, n / 10);
    }
    s.push(digit_of(n % 10));
    proof {
        if n < 10 {
            assert(final(s)@ =~= old(s)@ + dec_digits(n as nat));
        } else {
            assert(final(s)@ =~= old(s)@ + dec_digits(n as nat));
        }
    }
}

/// Append the decimal rendering of `n`, zero-padded to at least `w` characters.
pub fn push_u32_pad(s: &mut String, n: u32, w: usize)
    ensures
        final(s)@ == old(s)@ + dec_digits_pad(n as nat, w as nat),
    decreases n as int + w as int,
{
    if n >= 10 || w > 1 {
        push_u32_pad(s, n / 10, if w == 0 { 0 } else { w - 1 });
    }
    s.push(digit_of(n % 10));
    proof {
        assert(final(s)@ =~= old(s)@ + dec_digits_pad(n as nat, w as nat));
    }
}

/// Append the decimal rendering of a 64-bit number to `s`.
pub fn push_u64(s: &mut String, n: u64)
    ensures
        final(s)@ == old(s)@ + dec_digits(n as nat),
    decreases n,
{
    if n >= 10 {
        push_u64(s, n / 10);
    }
    s.push(digit_of((n % 10) as u32));
    proof {
        assert(final(s)@ =~= old(s)@ + dec_digits(n as nat));
    }
}

/// Append the decimal rendering of a 64-bit number, zero-padded to at least
/// `w` characters.
pub fn push_u64_pad(s: &mut String, n: u64, w: usize)
    ensures
        final(s)@ == old(s)@ + dec_digits_pad(n as nat, w as nat),
    decreases n as int + w as int,
{
    if n >= 10 || w > 1 {
        push_u64_pad(s, n / 10, if w == 0 { 0 } else { w - 1 });
    }
    s.push(digit_of((n % 10) as u32));
    proof {
        assert(final(s)@ =~= old(s)@ + dec_digits_pad(n as nat, w as nat));
    }
}

/// Decimal rendering of a signed number.
pub open spec fn spec_int_seq(x: int) -> Seq<char> {
    if x < 0 {
        seq!['-'] + dec_digits((-x) as nat)
    } else {
        dec_digits(x as nat)
    }
}

/// Render a signed 32-bit number in decimal.
pub fn format_i32(v: i32) -> (s: String)
    ensures
        s@ == spec_int_seq(v as int),
{
    let mut s = String::new();
    if v < 0 {
        s.push('-');
        let wide: i64 = v as i64;
        let mag: u32 = (0i64 - wide) as u32;
        push_u32(&mut s, mag);
        proof {
            assert(s@ =~= spec_int_seq(v as int));
        }
    } else {
        push_u32(&mut s, v as u32);
        proof {
            assert(s@ =~= spec_int_seq(v as int));
        }
    }
    s
}

/// Meaning of a bounded decimal field: defined only for 1 to 9 digits, so the
/// value always fits in `u32`.
pub open spec fn spec_parse_u32(s: Seq<char>) -> Option<u32> {
    if 1 <= s.len() <= 9 && all_digits(s) {
        Some(dec_value(s) as u32)
    } else {
        None
    }
}

/// Parse `chars[from..to]` as an unsigned decimal number of 1 to 9 digits.
pub fn parse_u32_range(chars: &[char], from: usize, to: usize) -> (r: Option<u32>)
    requires
        from <= to <= chars@.len(),
    ensures
        r == spec_parse_u32(chars@.subrange(from as int, to as int)),
{
    let ghost field = chars@.subrange(from as int, to as int);
    let len = to - from;
    if len < 1 || len > 9 {
        return None;
    }
    let mut acc: u32 = 0;
    let mut i = from;
    while i < to
        invariant
            from <= i <= to <= chars@.len(),
            1 <= to - from <= 9,
            field == chars@.subrange(from as int, to as int),
            all_digits(field.subrange(0, i - from)),
            acc == dec_value(field.subrange(0, i - from)),
            acc < pow10((i - from) as nat),
        decreases to - i,
    {
        let c = chars[i];
        if c < '0' || c > '9' {
            proof {
                assert(field[i - from] == chars@[i as int]);
                assert(!is_digit(field[i - from]));
            }
            return None;
        }
        let cv = digit_value(c);
        proof {
            assert(field[i - from] == chars@[i as int]);
            assert(is_digit(field[i - from]));
            let pre = field.subrange(0, i - from);
            let post = field.subrange(0, i - from + 1);
            assert(post.drop_last() =~= pre);
            assert(post.last() == field[i - from]);
            assert(pow10(((i - from) + 1) as nat) == 10 * pow10((i - from) as nat));
            assert(all_digits(post)) by {
                assert(forall|j: int| 0 <= j < post.len() ==> #[trigger] post[j] == field[j]);
            }
            lemma_dec_value_bound(post);
            lemma_pow10_mono(((i - from) + 1) as nat, 9);
            assert(pow10(9) == 1000000000) by {
                reveal_with_fuel(pow10, 11);
            }
        }
        acc = acc * 10 + cv;
        i += 1;
    }
    proof {
        assert(field.subrange(0, (to - from) as int) =~= field);
    }
    Some(acc)
}

/// Every character of the view is a plain digit check, exec side.
pub fn is_digit_exec(c: char) -> (r: bool)
    ensures
        r == is_digit(c),
{
    '0' <= c && c <= '9'
}

/// The characters of `s`, in order, as a vector.
pub fn chars_of_str(s: &str) -> (v: Vec<char>)
    ensures
        v@ == s@,
{
    let n = s.unicode_len();
    let mut v: Vec<char> = Vec::new();
    let mut i: usize = 0;
    while i < n
        invariant
            n == s@.len(),
            i <= n,
            v@ == s@.subrange(0, i as int),
        decreases n - i,
    {
        let c = s.get_char(i);
        v.push(c);
        proof {
            assert(v@ =~= s@.subrange(0, i + 1));
        }
        i += 1;
    }
    proof {
        assert(s@.subrange(0, n as int) =~= s@);
    }
    v
}

/// A `String` holding exactly `chars[from..to]`.
pub fn string_from_range(chars: &[char], from: usize, to: usize) -> (s: String)
    requires
        from <= to <= chars@.len(),
    ensures
        s@ == chars@.subrange(from as int, to as int),
{
    let mut s = String::new();
    let mut i = from;
    while i < to
        invariant
            from <= i <= to <= chars@.len(),
            s@ == chars@.subrange(from as int, i as int),
        decreases to - i,
    {
        s.push(chars[i]);
        proof {
            assert(s@ =~= chars@.subrange(from as int, i + 1));
        }
        i += 1;
    }
    s
}

/// ASCII lower-casing of one character; anything outside 'A'..'Z' is unchanged.
pub open spec fn lower_char(c: char) -> char {
    if 'A' as int <= c as int && c as int <= 'Z' as int {
        (c as u32 + 32) as char
    } else {
        c
    }
}

pub open spec fn lower_seq(s: Seq<char>) -> Seq<char> {
    Seq::new(s.len(), |i: int| lower_char(s[i]))
}

pub fn lower_char_exec(c: char) -> (r: char)
    ensures
        r == lower_char(c),
{
    let cv = c as u32;
    if 'A' as u32 <= cv && cv <= 'Z' as u32 {
        let lv: u32 = cv + 32;
        char_from_u32(lv)
    } else {
        c
    }
}

/// Relies on std's `char::from_u32`: for a scalar value below the surrogate
/// range it returns exactly that character.
#[verifier::external_body]
fn char_from_u32(v: u32) -> (c: char)
    requires
        v < 0xD800,
    ensures
        c == v as char,
{
    match char::from_u32(v) {
        Some(c) => c,
        None => ' ',
    }
}

pub open spec fn trim_front(s: Seq<char>) -> Seq<char>
    decreases s.len(),
{
    if s.len() > 0 && s[0] == ' ' {
        trim_front(s.drop_first())
    } else {
        s
    }
}

pub open spec fn trim_back(s: Seq<char>) -> Seq<char>
    decreases s.len(),
{
    if s.len() > 0 && s.last() == ' ' {
        trim_back(s.drop_last())
    } else {
        s
    }
}

/// Both leading and trailing spaces removed.
pub open spec fn spec_trim(s: Seq<char>) -> Seq<char> {
    trim_back(trim_front(s))
}

pub open spec fn spaces(k: nat) -> Seq<char> {
    Seq::new(k, |i: int| ' ')
}

/// Leading spaces vanish under `trim_front`.
pub proof fn lemma_trim_front_spaces(k: nat, s: Seq<char>)
    requires
        s.len() == 0 || s[0] != ' ',
    ensures
        trim_front(spaces(k) + s) == s,
    decreases k,
{
    if k == 0 {
        assert(spaces(0) + s =~= s);
        if s.len() > 0 {
        }
    } else {
        let whole = spaces(k) + s;
        assert(whole.len() > 0 && whole[0] == ' ');
        assert(whole.drop_first() =~= spaces((k - 1) as nat) + s);
        lemma_trim_front_spaces((k - 1) as nat, s);
    }
}

/// The trimmed span of `chars[from..to]`: `chars[r.0..r.1]` is exactly the
/// input with leading and trailing spaces removed.
pub fn trim_range(chars: &[char], from: usize, to: usize) -> (r: (usize, usize))
    requires
        from <= to <= chars@.len(),
    ensures
        from <= r.0 <= r.1 <= to,
        chars@.subrange(r.0 as int, r.1 as int) == spec_trim(
            chars@.subrange(from as int, to as int),
        ),
{
    let mut a = from;
    while a < to && chars[a] == ' '
        invariant
            from <= a <= to <= chars@.len(),
            trim_front(chars@.subrange(from as int, to as int)) == trim_front(
                chars@.subrange(a as int, to as int),
            ),
        decreases to - a,
    {
        proof {
            assert(chars@.subrange(a as int, to as int).drop_first() =~= chars@.subrange(
                a + 1,
                to as int,
            ));
        }
        a += 1;
    }
    proof {
        assert(trim_front(chars@.subrange(from as int, to as int)) == chars@.subrange(
            a as int,
            to as int,
        ));
    }
    let mut b = to;
    while b > a && chars[b - 1] == ' '
        invariant
            from <= a <= b <= to <= chars@.len(),
            trim_back(chars@.subrange(a as int, to as int)) == trim_back(
                chars@.subrange(a as int, b as int),
            ),
        decreases b,
    {
        proof {
            assert(chars@.subrange(a as int, b as int).drop_last() =~= chars@.subrange(
                a as int,
                b - 1,
            ));
        }
        b -= 1;
    }
    proof {
        assert(trim_back(chars@.subrange(a as int, b as int)) == chars@.subrange(
            a as int,
            b as int,
        ));
    }
    (a, b)
}

/// Character-wise string equality.
pub fn str_eq(a: &str, b: &str) -> (r: bool)
    ensures
        r == (a@ == b@),
{
    let n = a.unicode_len();
    if n != b.unicode_len() {
        proof {
            assert(a@ != b@);
        }
        return false;
    }
    let mut i: usize = 0;
    while i < n
        invariant
            n == a@.len(),
            n == b@.len(),
            i <= n,
            forall|j: int| 0 <= j < i ==> a@[j] == b@[j],
        decreases n - i,
    {
        if a.get_char(i) != b.get_char(i) {
            return false;
        }
        i += 1;
    }
    proof {
        assert(a@ =~= b@);
    }
    true
}

/// True when `hay[at .. at + lit.len()]` equals the literal `lit`.
pub fn matches_at(hay: &[char], at: usize, lit: &str) -> (r: bool)
    requires
        at <= hay@.len(),
    ensures
        r <==> (at + lit@.len() <= hay@.len() && hay@.subrange(
            at as int,
            at + lit@.len(),
        ) =~= lit@),
{
    let n = lit.unicode_len();
    let hl = hay.len();
    if n > hl - at {
        return false;
    }
    let mut i: usize = 0;
    while i < n
        invariant
            hl == hay@.len(),
            at + n <= hl,
            n == lit@.len(),
            i <= n,
            forall|j: int| 0 <= j < i ==> hay@[at + j] == lit@[j],
        decreases n - i,
    {
        if hay[at + i] != lit.get_char(i) {
            proof {
                assert(hay@.subrange(at as int, at + lit@.len())[i as int] == hay@[at + i]);
            }
            return false;
        }
        i += 1;
    }
    proof {
        assert(hay@.subrange(at as int, at + lit@.len()) =~= lit@);
    }
    true
}


/// The base64 alphabet's character at index `v`.
pub open spec fn b64_char(v: int) -> char {
    "ABCDEFGHIJKLMNOPQRSTUVWXYZabcdefghijklmnopqrstuvwxyz0123456789+/"@[v]
}

/// Standard base64 of a byte run, with `=` padding.
pub open spec fn b64_encode(s: Seq<u8>) -> Seq<char>
    decreases s.len(),
{
    if s.len() == 0 {
        Seq::empty()
    } else if s.len() == 1 {
        let a = s[0];
        seq![b64_char((a >> 2) as int), b64_char((((a & 3) << 4)) as int), '=', '=']
    } else if s.len() == 2 {
        let a = s[0];
        let b = s[1];
        seq![
            b64_char((a >> 2) as int),
            b64_char(((((a & 3) << 4) | (b >> 4))) as int),
            b64_char(((((b & 15) << 2))) as int),
            '=',
        ]
    } else {
        let a = s[0];
        let b = s[1];
        let c = s[2];
        seq![
            b64_char((a >> 2) as int),
            b64_char(((((a & 3) << 4) | (b >> 4))) as int),
            b64_char(((((b & 15) << 2) | (c >> 6))) as int),
            b64_char((c & 63) as int),
        ] + b64_encode(s.subrange(3, s.len() as int))
    }
}

fn b64_sym(v: u8) -> (c: char)
    requires
        v < 64,
    ensures
        c == b64_char(v as int),
{
    let table = "ABCDEFGHIJKLMNOPQRSTUVWXYZabcdefghijklmnopqrstuvwxyz0123456789+/";
    proof {
        reveal_strlit("ABCDEFGHIJKLMNOPQRSTUVWXYZabcdefghijklmnopqrstuvwxyz0123456789+/");
    }
    table.get_char(v as usize)
}

/// Standard base64 of a byte run, for credential headers and the like.
pub fn base64_encode(input: &[u8]) -> (s: String)
    ensures
        s@ == b64_encode(input@),
{
    let n = input.len();
    let mut out = String::new();
    let mut i: usize = 0;
    proof {
        assert(input@.subrange(0, n as int) =~= input@);
    }
    while i < n
        invariant
            i <= n == input@.len(),
            b64_encode(input@) == out@ + b64_encode(input@.subrange(i as int, n as int)),
        decreases n - i,
    {
        let ghost rest = input@.subrange(i as int, n as int);
        let a = input[i];
        proof {
            assert(rest[0] == a);
            assert(a >> 2 < 64) by (bit_vector);
        }
        if n - i >= 3 {
            let b = input[i + 1];
            let c = input[i + 2];
            proof {
                assert(rest[1] == b);
                assert(rest[2] == c);
                assert(((a & 3) << 4) | (b >> 4) < 64) by (bit_vector);
                assert(((b & 15) << 2) | (c >> 6) < 64) by (bit_vector);
                assert(c & 63 < 64) by (bit_vector);
            }
            out.push(b64_sym(a >> 2));
            out.push(b64_sym(((a & 3) << 4) | (b >> 4)));
            out.push(b64_sym(((b & 15) << 2) | (c >> 6)));
            out.push(b64_sym(c & 63));
            proof {
                assert(rest.subrange(3, rest.len() as int) =~= input@.subrange(i + 3, n as int));
                assert(b64_encode(input@) =~= out@ + b64_encode(
                    input@.subrange(i + 3, n as int),
                ));
            }
            i += 3;
        } else if n - i == 2 {
            let b = input[i + 1];
            proof {
                assert(rest[1] == b);
                assert(((a & 3) << 4) | (b >> 4) < 64) by (bit_vector);
                assert((b & 15) << 2 < 64) by (bit_vector);
            }
            out.push(b64_sym(a >> 2));
            out.push(b64_sym(((a & 3) << 4) | (b >> 4)));
            out.push(b64_sym((b & 15) << 2));
            out.push('=');
            proof {
                assert(input@.subrange(n as int, n as int) =~= Seq::<u8>::empty());
                assert(b64_encode(input@) =~= out@ + b64_encode(
                    input@.subrange(n as int, n as int),
                ));
            }
            i = n;
        } else {
            proof {
                assert((a & 3) << 4 < 64) by (bit_vector);
            }
            out.push(b64_sym(a >> 2));
            out.push(b64_sym((a & 3) << 4));
            out.push('=');
            out.push('=');
            proof {
                assert(input@.subrange(n as int, n as int) =~= Seq::<u8>::empty());
                assert(b64_encode(input@) =~= out@ + b64_encode(
                    input@.subrange(n as int, n as int),
                ));
            }
            i = n;
        }
    }
    proof {
        assert(input@.subrange(n as int, n as int) =~= Seq::<u8>::empty());
        assert(b64_encode(Seq::<u8>::empty()) =~= Seq::<char>::empty());
        assert(b64_encode(input@) =~= out@);
    }
    out
}

} // verus!
