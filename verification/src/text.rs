//! Verified text utilities: decimal numbers, comparison, trimming and
//! splitting of character sequences.

use vstd::prelude::*;

verus! {

/// A decimal digit `'0'..='9'`.
pub open spec fn is_digit(c: char) -> bool {
    48 <= c as u32 <= 57
}

/// The numeric value of a decimal digit.
pub open spec fn digit_val(c: char) -> nat {
    (c as u32 - 48) as nat
}

/// Every character of `s` is a decimal digit.
pub open spec fn all_digits(s: Seq<char>) -> bool {
    forall|i: int| 0 <= i < s.len() ==> is_digit(#[trigger] s[i])
}

/// `s` is the text form of a non-negative decimal integer: at least one
/// character, all of them digits.
pub open spec fn int_text(s: Seq<char>) -> bool {
    s.len() > 0 && all_digits(s)
}

/// The number a digit sequence denotes, read left to right.
pub open spec fn dec_val(s: Seq<char>) -> nat
    decreases s.len(),
{
    if s.len() == 0 {
        0
    } else {
        dec_val(s.drop_last()) * 10 + digit_val(s.last())
    }
}

/// Reading one more digit multiplies the prefix value by ten and adds it.
pub proof fn lemma_dec_val_take_succ(s: Seq<char>, i: int)
    requires
        0 <= i < s.len(),
    ensures
        dec_val(s.take(i + 1)) == dec_val(s.take(i)) * 10 + digit_val(s[i]),
{
    assert(s.take(i + 1).drop_last() =~= s.take(i));
    assert(s.take(i + 1).last() == s[i]);
}

/// The value of a prefix never exceeds the value of the whole sequence.
pub proof fn lemma_dec_val_prefix_le(s: Seq<char>, i: int)
    requires
        0 <= i <= s.len(),
    ensures
        dec_val(s.take(i)) <= dec_val(s),
    decreases s.len() - i,
{
    if i == s.len() {
        assert(s.take(i) =~= s);
    } else {
        lemma_dec_val_take_succ(s, i);
        lemma_dec_val_prefix_le(s, i + 1);
    }
}

/// Parses `s` as an unsigned decimal integer.
/// Returns the denoted number exactly when `s` is non-empty, all digits,
/// and the number fits in a `u128`; `None` otherwise.
pub fn parse_u128(s: &str) -> (r: Option<u128>)
    ensures
        r matches Some(v) ==> int_text(s@) && dec_val(s@) == v,
        r is None ==> !(int_text(s@) && dec_val(s@) <= u128::MAX),
{
    let n = s.unicode_len();
    if n == 0 {
        return None;
    }
    let mut acc: u128 = 0;
    let mut i: usize = 0;
    while i < n
        invariant
            0 < n == s@.len(),
            0 <= i <= n,
            all_digits(s@.take(i as int)),
            acc == dec_val(s@.take(i as int)),
        decreases n - i,
    {
        let c = s.get_char(i);
        let code = c as u32;
        if code < 48 || code > 57 {
            return None;
        }
        let d = (code - 48) as u128;
        proof {
            lemma_dec_val_take_succ(s@, i as int);
            assert(s@.take(i as int + 1) =~= s@.take(i as int).push(s@[i as int]));
        }
        if acc > (u128::MAX - d) / 10 {
            proof {
                lemma_dec_val_prefix_le(s@, i as int + 1);
            }
            return None;
        }
        acc = acc * 10 + d;
        i = i + 1;
    }
    proof {
        assert(s@.take(n as int) =~= s@);
    }
    Some(acc)
}

/// Parses `s` as an unsigned decimal integer that must fit in a `u32`.
pub fn parse_u32(s: &str) -> (r: Option<u32>)
    ensures
        r matches Some(v) ==> int_text(s@) && dec_val(s@) == v,
        r is None ==> !(int_text(s@) && dec_val(s@) <= u32::MAX),
{
    match parse_u128(s) {
        Some(v) => if v <= u32::MAX as u128 {
            Some(v as u32)
        } else {
            None
        },
        None => None,
    }
}

/// Parses `s` as an unsigned decimal integer that must fit in a `u8`.
pub fn parse_u8(s: &str) -> (r: Option<u8>)
    ensures
        r matches Some(v) ==> int_text(s@) && dec_val(s@) == v,
        r is None ==> !(int_text(s@) && dec_val(s@) <= u8::MAX),
{
    match parse_u128(s) {
        Some(v) => if v <= u8::MAX as u128 {
            Some(v as u8)
        } else {
            None
        },
        None => None,
    }
}

/// Relies on `String::push` of std: it appends the given character to the
/// end of the string.
pub assume_specification[ String::push ](s: &mut String, ch: char)
    ensures
        final(s)@ == old(s)@.push(ch),
;

/// The digit character for a value below ten.
pub open spec fn digit_char(d: nat) -> char {
    (d + 48) as char
}

/// The decimal text of `n`, most significant digit first, no sign, no
/// leading zero except for `n == 0` itself.
pub open spec fn dec_digits(n: nat) -> Seq<char>
    decreases n,
{
    if n < 10 {
        seq![digit_char(n)]
    } else {
        dec_digits(n / 10).push(digit_char(n % 10))
    }
}

/// The decimal text of a number is a digit sequence denoting that number:
/// printing and parsing invert each other.
pub proof fn lemma_dec_digits(n: nat)
    ensures
        int_text(dec_digits(n)),
        dec_val(dec_digits(n)) == n,
    decreases n,
{
    if n < 10 {
        let one = seq![digit_char(n)];
        assert(digit_char(n) as u32 == n + 48);
        assert(one.drop_last() =~= Seq::<char>::empty());
        assert(one.last() == digit_char(n));
        assert(digit_val(digit_char(n)) == n);
        assert(dec_val(one) == dec_val(Seq::<char>::empty()) * 10 + digit_val(digit_char(n)));
    } else {
        lemma_dec_digits(n / 10);
        let prev = dec_digits(n / 10);
        let whole = prev.push(digit_char(n % 10));
        assert(whole.drop_last() =~= prev);
        assert(whole.last() == digit_char(n % 10));
        assert(digit_char(n % 10) as u32 == n % 10 + 48);
        assert(digit_val(digit_char(n % 10)) == n % 10);
        assert(dec_val(whole) == dec_val(prev) * 10 + digit_val(digit_char(n % 10)));
        assert(dec_val(whole) == (n / 10) * 10 + n % 10);
        assert((n / 10) * 10 + n % 10 == n) by (nonlinear_arith);
        assert(all_digits(whole)) by {
            assert(forall|i: int| 0 <= i < prev.len() ==> whole[i] == prev[i]);
        }
    }
}

/// The digit character for a value below ten, as executable code.
fn digit_char_exec(d: u8) -> (c: char)
    requires
        d < 10,
    ensures
        c == digit_char(d as nat),
{
    ((d + 48) as u8) as char
}

/// Renders `n` as decimal text.
pub fn u64_to_string(n: u64) -> (r: String)
    ensures
        r@ == dec_digits(n as nat),
    decreases n,
{
    if n < 10 {
        let mut s = String::new();
        s.push(digit_char_exec(n as u8));
        proof {
            assert(Seq::<char>::empty().push(digit_char(n as nat)) =~= seq![
                digit_char(n as nat),
            ]);
        }
        s
    } else {
        let mut s = u64_to_string(n / 10);
        s.push(digit_char_exec((n % 10) as u8));
        s
    }
}

/// Whether `c` is the token separator (a plain space).
pub open spec fn is_sep(c: char) -> bool {
    c as u32 == 32
}

/// Whether `c` is ASCII whitespace: space, tab, line feed or carriage
/// return.
pub open spec fn is_space(c: char) -> bool {
    c as u32 == 32 || c as u32 == 9 || c as u32 == 10 || c as u32 == 13
}

/// Whether `c` is ASCII whitespace, as executable code.
fn is_space_exec(c: char) -> (r: bool)
    ensures
        r == is_space(c),
{
    let code = c as u32;
    code == 32 || code == 9 || code == 10 || code == 13
}

/// Compares two string slices by their character sequences.
pub fn str_eq(a: &str, b: &str) -> (r: bool)
    ensures
        r == (a@ == b@),
{
    let na = a.unicode_len();
    let nb = b.unicode_len();
    if na != nb {
        return false;
    }
    let mut i: usize = 0;
    while i < na
        invariant
            0 <= i <= na == a@.len(),
            na == b@.len(),
            forall|j: int| 0 <= j < i ==> a@[j] == b@[j],
        decreases na - i,
    {
        if a.get_char(i) as u32 != b.get_char(i) as u32 {
            return false;
        }
        i = i + 1;
    }
    proof {
        assert(a@ =~= b@);
    }
    true
}

/// An upper-case ASCII letter mapped to lower case; anything else kept.
pub open spec fn lower_char(c: char) -> char {
    if 65 <= c as u32 <= 90 {
        (c as u32 + 32) as char
    } else {
        c
    }
}

/// Every character of `s` mapped through [`lower_char`].
pub open spec fn lower(s: Seq<char>) -> Seq<char> {
    s.map_values(|c: char| lower_char(c))
}

/// Maps ASCII letters of `s` to lower case.
pub fn to_lowercase(s: &str) -> (r: String)
    ensures
        r@ == lower(s@),
{
    let n = s.unicode_len();
    let mut r = String::new();
    let mut i: usize = 0;
    while i < n
        invariant
            0 <= i <= n == s@.len(),
            r@ =~= lower(s@.take(i as int)),
        decreases n - i,
    {
        let c = s.get_char(i);
        let code = c as u32;
        let lc: char = if 65 <= code && code <= 90 {
            ((code + 32) as u8) as char
        } else {
            c
        };
        r.push(lc);
        proof {
            assert(lc == lower_char(s@[i as int]));
            assert(r@ =~= lower(s@.take(i as int + 1))) by {
                assert(s@.take(i as int + 1).map_values(|c: char| lower_char(c)) =~= s@.take(
                    i as int,
                ).map_values(|c: char| lower_char(c)).push(lower_char(s@[i as int])));
            }
        }
        i = i + 1;
    }
    proof {
        assert(s@.take(n as int) =~= s@);
    }
    r
}

/// `s` without leading whitespace.
pub open spec fn spec_trim_start(s: Seq<char>) -> Seq<char>
    decreases s.len(),
{
    if s.len() > 0 && is_space(s[0]) {
        spec_trim_start(s.drop_first())
    } else {
        s
    }
}

/// `s` without trailing whitespace.
pub open spec fn spec_trim_end(s: Seq<char>) -> Seq<char>
    decreases s.len(),
{
    if s.len() > 0 && is_space(s.last()) {
        spec_trim_end(s.drop_last())
    } else {
        s
    }
}

/// `s` without leading and trailing whitespace.
pub open spec fn spec_trim(s: Seq<char>) -> Seq<char> {
    spec_trim_end(spec_trim_start(s))
}

/// Leading whitespace is dropped one character at a time.
proof fn lemma_trim_start_skip(s: Seq<char>, k: int)
    requires
        0 <= k <= s.len(),
        forall|j: int| 0 <= j < k ==> is_space(#[trigger] s[j]),
    ensures
        spec_trim_start(s) == spec_trim_start(s.skip(k)),
    decreases k,
{
    if k > 0 {
        assert(s.skip(0) =~= s);
        assert(s.drop_first() =~= s.skip(1));
        lemma_trim_start_skip(s.drop_first(), k - 1);
        assert(s.drop_first().skip(k - 1) =~= s.skip(k));
    } else {
        assert(s.skip(0) =~= s);
    }
}

/// Trailing whitespace is dropped one character at a time.
proof fn lemma_trim_end_take(s: Seq<char>, k: int)
    requires
        0 <= k <= s.len(),
        forall|j: int| k <= j < s.len() ==> is_space(#[trigger] s[j]),
    ensures
        spec_trim_end(s) == spec_trim_end(s.take(k)),
    decreases s.len() - k,
{
    if k < s.len() {
        assert(s.take(s.len() as int) =~= s);
        lemma_trim_end_take(s.drop_last(), k);
        assert(s.drop_last().take(k) =~= s.take(k));
    } else {
        assert(s.take(k) =~= s);
    }
}

/// Removes leading and trailing ASCII whitespace.
pub fn trim<'a>(s: &'a str) -> (r: &'a str)
    ensures
        r@ == spec_trim(s@),
{
    let n = s.unicode_len();
    let mut start: usize = 0;
    while start < n && is_space_exec(s.get_char(start))
        invariant
            0 <= start <= n == s@.len(),
            forall|j: int| 0 <= j < start ==> is_space(#[trigger] s@[j]),
        decreases n - start,
    {
        start = start + 1;
    }
    proof {
        lemma_trim_start_skip(s@, start as int);
        assert(spec_trim_start(s@.skip(start as int)) == s@.skip(start as int));
    }
    let t = Ghost(s@.skip(start as int));
    let mut end: usize = n;
    while end > start && is_space_exec(s.get_char(end - 1))
        invariant
            0 <= start <= end <= n == s@.len(),
            t@ == s@.skip(start as int),
            forall|j: int| end - start <= j < t@.len() ==> is_space(#[trigger] t@[j]),
        decreases end,
    {
        end = end - 1;
    }
    proof {
        lemma_trim_end_take(t@, end - start);
        assert(spec_trim_end(t@.take(end - start)) == t@.take(end - start));
        assert(t@.take(end - start) =~= s@.subrange(start as int, end as int));
    }
    s.substring_char(start, end)
}

/// `s` split on every separator character; one more token than there are
/// separators, so consecutive separators give empty tokens.
pub open spec fn spec_split(s: Seq<char>) -> Seq<Seq<char>>
    decreases s.len(),
{
    if s.len() == 0 {
        seq![s]
    } else if is_sep(s[0]) {
        seq![Seq::<char>::empty()] + spec_split(s.drop_first())
    } else {
        let rest = spec_split(s.drop_first());
        seq![seq![s[0]] + rest[0]] + rest.drop_first()
    }
}

/// Splitting always yields at least one token.
pub proof fn lemma_split_nonempty(s: Seq<char>)
    ensures
        spec_split(s).len() >= 1,
    decreases s.len(),
{
    if s.len() > 0 {
        lemma_split_nonempty(s.drop_first());
    }
}

/// A sequence without separators is a single token.
proof fn lemma_split_no_sep(s: Seq<char>)
    requires
        forall|j: int| 0 <= j < s.len() ==> !is_sep(#[trigger] s[j]),
    ensures
        spec_split(s) == seq![s],
    decreases s.len(),
{
    if s.len() > 0 {
        lemma_split_no_sep(s.drop_first());
        assert(seq![s[0]] + s.drop_first() =~= s);
        assert(spec_split(s) =~= seq![s]);
    }
}

/// Splitting at the first separator: the prefix is the first token.
proof fn lemma_split_first_sep(s: Seq<char>, k: int)
    requires
        0 <= k < s.len(),
        is_sep(s[k]),
        forall|j: int| 0 <= j < k ==> !is_sep(#[trigger] s[j]),
    ensures
        spec_split(s) == seq![s.take(k)] + spec_split(s.skip(k + 1)),
    decreases k,
{
    if k == 0 {
        assert(s.take(0) =~= Seq::<char>::empty());
        assert(s.drop_first() =~= s.skip(1));
        assert(spec_split(s) =~= seq![s.take(0)] + spec_split(s.skip(1)));
    } else {
        let d = s.drop_first();
        lemma_split_first_sep(d, k - 1);
        lemma_split_nonempty(d.skip(k));
        assert(d.skip(k) =~= s.skip(k + 1));
        let rest = spec_split(d);
        assert(rest == seq![d.take(k - 1)] + spec_split(s.skip(k + 1)));
        assert(rest[0] == d.take(k - 1));
        assert(seq![s[0]] + d.take(k - 1) =~= s.take(k));
        assert(rest.drop_first() =~= spec_split(s.skip(k + 1)));
        assert(spec_split(s) =~= seq![s.take(k)] + spec_split(s.skip(k + 1)));
    }
}

/// Splits `s` on the separator character.
pub fn split_spaces<'a>(s: &'a str) -> (r: Vec<&'a str>)
    ensures
        r@.map_values(|t: &str| t@) == spec_split(s@),
{
    let n = s.unicode_len();
    let mut r: Vec<&'a str> = Vec::new();
    let mut seg_start: usize = 0;
    let mut i: usize = 0;
    proof {
        assert(s@.skip(0) =~= s@);
        assert(r@.map_values(|t: &str| t@) + spec_split(s@) =~= spec_split(s@));
    }
    while i < n
        invariant
            0 <= seg_start <= i <= n == s@.len(),
            forall|j: int| seg_start <= j < i ==> !is_sep(#[trigger] s@[j]),
            spec_split(s@) == r@.map_values(|t: &str| t@) + spec_split(s@.skip(seg_start as int)),
        decreases n - i,
    {
        let c = s.get_char(i);
        if c as u32 == 32 {
            let tok = s.substring_char(seg_start, i);
            proof {
                let tail = s@.skip(seg_start as int);
                lemma_split_first_sep(tail, i - seg_start);
                assert(tail.take(i - seg_start) =~= s@.subrange(seg_start as int, i as int));
                assert(tail.skip(i - seg_start + 1) =~= s@.skip(i as int + 1));
                assert((r@ + seq![tok]).map_values(|t: &str| t@) =~= r@.map_values(|t: &str| t@)
                    + seq![tok@]);
                assert(r@.map_values(|t: &str| t@) + (seq![tok@] + spec_split(s@.skip(i as int + 1)))
                    =~= (r@.map_values(|t: &str| t@) + seq![tok@]) + spec_split(
                    s@.skip(i as int + 1),
                ));
                assert(r@.push(tok) =~= r@ + seq![tok]);
            }
            r.push(tok);
            seg_start = i + 1;
        }
        i = i + 1;
    }
    let tok = s.substring_char(seg_start, n);
    proof {
        let tail = s@.skip(seg_start as int);
        lemma_split_no_sep(tail);
        assert(tail =~= s@.subrange(seg_start as int, n as int));
        assert((r@ + seq![tok]).map_values(|t: &str| t@) =~= r@.map_values(|t: &str| t@) + seq![
            tok@,
        ]);
        assert(r@.push(tok) =~= r@ + seq![tok]);
        assert(r@.map_values(|t: &str| t@) + seq![tail] =~= spec_split(s@));
    }
    r.push(tok);
    r
}

/// Strict lexicographic order on character sequences, by code point.
pub open spec fn chars_lt(a: Seq<char>, b: Seq<char>) -> bool
    decreases a.len(),
{
    if b.len() == 0 {
        false
    } else if a.len() == 0 {
        true
    } else if a[0] == b[0] {
        chars_lt(a.drop_first(), b.drop_first())
    } else {
        (a[0] as u32) < (b[0] as u32)
    }
}

/// The three-way lexicographic comparison of two character sequences.
pub open spec fn spec_chars_cmp(a: Seq<char>, b: Seq<char>) -> core::cmp::Ordering {
    if chars_lt(a, b) {
        core::cmp::Ordering::Less
    } else if a == b {
        core::cmp::Ordering::Equal
    } else {
        core::cmp::Ordering::Greater
    }
}

/// A shared prefix does not affect the lexicographic order.
proof fn lemma_chars_lt_skip(a: Seq<char>, b: Seq<char>, i: int)
    requires
        0 <= i <= a.len(),
        i <= b.len(),
        forall|j: int| 0 <= j < i ==> a[j] == b[j],
    ensures
        chars_lt(a, b) == chars_lt(a.skip(i), b.skip(i)),
    decreases i,
{
    if i == 0 {
        assert(a.skip(0) =~= a);
        assert(b.skip(0) =~= b);
    } else {
        assert(a[0] == b[0]);
        assert(a.drop_first() =~= a.skip(1));
        assert(b.drop_first() =~= b.skip(1));
        lemma_chars_lt_skip(a.skip(1), b.skip(1), i - 1);
        assert(a.skip(1).skip(i - 1) =~= a.skip(i));
        assert(b.skip(1).skip(i - 1) =~= b.skip(i));
    }
}

/// Compares two string slices lexicographically by code point.
pub fn chars_cmp(a: &str, b: &str) -> (o: core::cmp::Ordering)
    ensures
        o == spec_chars_cmp(a@, b@),
{
    let na = a.unicode_len();
    let nb = b.unicode_len();
    let shorter = if na < nb {
        na
    } else {
        nb
    };
    let mut i: usize = 0;
    while i < shorter
        invariant
            0 <= i <= shorter,
            na == a@.len(),
            nb == b@.len(),
            shorter <= na,
            shorter <= nb,
            forall|j: int| 0 <= j < i ==> a@[j] == b@[j],
        decreases shorter - i,
    {
        let ca = a.get_char(i) as u32;
        let cb = b.get_char(i) as u32;
        if ca != cb {
            proof {
                lemma_chars_lt_skip(a@, b@, i as int);
                lemma_chars_lt_skip(b@, a@, i as int);
                assert(a@.skip(i as int)[0] == a@[i as int]);
                assert(b@.skip(i as int)[0] == b@[i as int]);
                assert(a@[i as int] != b@[i as int]);
            }
            if ca < cb {
                return core::cmp::Ordering::Less;
            } else {
                return core::cmp::Ordering::Greater;
            }
        }
        i = i + 1;
    }
    proof {
        lemma_chars_lt_skip(a@, b@, shorter as int);
        lemma_chars_lt_skip(b@, a@, shorter as int);
    }
    if na == nb {
        proof {
            assert(a@ =~= b@);
        }
        core::cmp::Ordering::Equal
    } else if na < nb {
        core::cmp::Ordering::Less
    } else {
        proof {
            assert(a@.len() != b@.len());
        }
        core::cmp::Ordering::Greater
    }
}

} // verus!
