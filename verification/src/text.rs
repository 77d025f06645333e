//! Character-sequence utilities shared by the catalog and organizer modules:
//! decimal parsing and formatting, scanning for a character, trimming, and
//! splitting on a separator.

use vstd::prelude::*;

verus! {

/// A decimal digit.
pub open spec fn is_digit(c: char) -> bool {
    '0' <= c && c <= '9'
}

/// Numeric value of one decimal digit character.
pub open spec fn digit_val(c: char) -> nat
    recommends
        is_digit(c),
{
    (c as nat - '0' as nat) as nat
}

/// Every character of `s` is a decimal digit.
pub open spec fn all_digits(s: Seq<char>) -> bool {
    forall|i: int| 0 <= i < s.len() ==> is_digit(#[trigger] s[i])
}

/// The numeric value of a sequence of decimal digits, most significant first.
pub open spec fn digits_val(s: Seq<char>) -> nat
    recommends
        all_digits(s),
    decreases s.len(),
{
    if s.len() == 0 {
        0
    } else {
        digits_val(s.drop_last()) * 10 + digit_val(s.last())
    }
}

/// What parsing a whole character sequence as a `u64` yields: the digits'
/// value when the sequence is a nonempty run of digits whose value fits,
/// nothing otherwise.
pub open spec fn parse_u64_spec(s: Seq<char>) -> Option<u64> {
    if s.len() > 0 && all_digits(s) && digits_val(s) <= u64::MAX {
        Some(digits_val(s) as u64)
    } else {
        None
    }
}

/// A digit prefix's value never shrinks as more digits are appended.
proof fn lemma_digits_val_prefix_grows(s: Seq<char>, i: int, j: int)
    requires
        0 <= i <= j <= s.len(),
    ensures
        digits_val(s.subrange(0, i)) <= digits_val(s.subrange(0, j)),
    decreases j - i,
{
    if i < j {
        lemma_digits_val_prefix_grows(s, i, j - 1);
        let p = s.subrange(0, j);
        assert(p.drop_last() =~= s.subrange(0, j - 1));
        assert(digits_val(p) == digits_val(p.drop_last()) * 10 + digit_val(p.last()));
    } else {
        assert(s.subrange(0, i) =~= s.subrange(0, j));
    }
}

/// Parse the character range `[from, to)` of `s` as an unsigned 64-bit
/// decimal number.
pub fn parse_u64_range(s: &str, from: usize, to: usize) -> (r: Option<u64>)
    requires
        from <= to <= s@.len(),
    ensures
        r == parse_u64_spec(s@.subrange(from as int, to as int)),
{
    let ghost p = s@.subrange(from as int, to as int);
    if from == to {
        return None;
    }
    let mut acc: u64 = 0;
    let mut i: usize = from;
    while i < to
        invariant
            from <= i <= to <= s@.len(),
            p == s@.subrange(from as int, to as int),
            p.len() > 0,
            all_digits(p.subrange(0, i - from)),
            acc == digits_val(p.subrange(0, i - from)),
        decreases to - i,
    {
        let c = s.get_char(i);
        assert(p[i - from] == s@[i as int]);
        if !('0' <= c && c <= '9') {
            assert(!all_digits(p));
            return None;
        }
        let d: u64 = (c as u32 - '0' as u32) as u64;
        assert(d == digit_val(c));
        if acc > (u64::MAX - d) / 10 {
            proof {
                let k = i + 1 - from;
                assert(p.subrange(0, k).drop_last() =~= p.subrange(0, k - 1));
                assert(digits_val(p.subrange(0, k)) == acc * 10 + d);
                assert(acc * 10 + d > u64::MAX) by (nonlinear_arith)
                    requires
                        acc > (u64::MAX - d) / 10,
                        d < 10,
                ;
                lemma_digits_val_prefix_grows(p, k, p.len() as int);
                assert(p.subrange(0, p.len() as int) =~= p);
                assert(digits_val(p) > u64::MAX);
            }
            return None;
        }
        proof {
            let k = i + 1 - from;
            assert(p.subrange(0, k).drop_last() =~= p.subrange(0, k - 1));
            assert(p.subrange(0, k).last() == c);
            assert(acc * 10 + d <= u64::MAX) by (nonlinear_arith)
                requires
                    acc <= (u64::MAX - d) / 10,
                    d < 10,
            ;
        }
        acc = acc * 10 + d;
        i = i + 1;
    }
    proof {
        assert(p.subrange(0, (to - from) as int) =~= p);
    }
    Some(acc)
}

/// The character for one decimal digit.
pub open spec fn digit_char(d: nat) -> char {
    if d == 0 {
        '0'
    } else if d == 1 {
        '1'
    } else if d == 2 {
        '2'
    } else if d == 3 {
        '3'
    } else if d == 4 {
        '4'
    } else if d == 5 {
        '5'
    } else if d == 6 {
        '6'
    } else if d == 7 {
        '7'
    } else if d == 8 {
        '8'
    } else {
        '9'
    }
}

/// The decimal digits of `n`, most significant first, with no leading zeros
/// except for `n == 0` itself.
pub open spec fn dec_digits(n: nat) -> Seq<char>
    decreases n,
{
    if n < 10 {
        seq![digit_char(n)]
    } else {
        dec_digits(n / 10).push(digit_char(n % 10))
    }
}

pub proof fn lemma_dec_digits_all_digits(n: nat)
    ensures
        all_digits(dec_digits(n)),
        dec_digits(n).len() >= 1,
    decreases n,
{
    if n >= 10 {
        lemma_dec_digits_all_digits(n / 10);
    }
}

/// Formatting a number and reading its digits back yields the number.
pub proof fn lemma_dec_digits_val(n: nat)
    ensures
        digits_val(dec_digits(n)) == n,
    decreases n,
{
    assert forall|d: nat| d < 10 implies digit_val(digit_char(d)) == d by {
        if d == 0 {
            assert(digit_val('0') == 0);
        } else if d == 1 {
            assert(digit_val('1') == 1);
        } else if d == 2 {
            assert(digit_val('2') == 2);
        } else if d == 3 {
            assert(digit_val('3') == 3);
        } else if d == 4 {
            assert(digit_val('4') == 4);
        } else if d == 5 {
            assert(digit_val('5') == 5);
        } else if d == 6 {
            assert(digit_val('6') == 6);
        } else if d == 7 {
            assert(digit_val('7') == 7);
        } else if d == 8 {
            assert(digit_val('8') == 8);
        } else {
            assert(digit_val('9') == 9);
        }
    }
    if n < 10 {
        assert(dec_digits(n).drop_last() =~= Seq::<char>::empty());
        assert(digits_val(dec_digits(n)) == digits_val(Seq::<char>::empty()) * 10 + digit_val(
            digit_char(n),
        ));
    } else {
        lemma_dec_digits_val(n / 10);
        assert(dec_digits(n).drop_last() =~= dec_digits(n / 10));
        assert(dec_digits(n).last() == digit_char(n % 10));
        assert(digits_val(dec_digits(n)) == digits_val(dec_digits(n / 10)) * 10 + digit_val(
            digit_char(n % 10),
        ));
        assert(n == (n / 10) * 10 + n % 10) by (nonlinear_arith);
    }
}

/// Append the character for one decimal digit to `out`.
fn push_digit(out: &mut String, d: u64)
    requires
        d < 10,
    ensures
        final(out)@ == old(out)@.push(digit_char(d as nat)),
{
    if d == 0 {
        out.append("0");
        proof {
            reveal_strlit("0");
        }
    } else if d == 1 {
        out.append("1");
        proof {
            reveal_strlit("1");
        }
    } else if d == 2 {
        out.append("2");
        proof {
            reveal_strlit("2");
        }
    } else if d == 3 {
        out.append("3");
        proof {
            reveal_strlit("3");
        }
    } else if d == 4 {
        out.append("4");
        proof {
            reveal_strlit("4");
        }
    } else if d == 5 {
        out.append("5");
        proof {
            reveal_strlit("5");
        }
    } else if d == 6 {
        out.append("6");
        proof {
            reveal_strlit("6");
        }
    } else if d == 7 {
        out.append("7");
        proof {
            reveal_strlit("7");
        }
    } else if d == 8 {
        out.append("8");
        proof {
            reveal_strlit("8");
        }
    } else {
        out.append("9");
        proof {
            reveal_strlit("9");
        }
    }
    assert(out@ =~= old(out)@.push(digit_char(d as nat)));
}

/// Append the decimal digits of `n` to `out`.
pub fn append_decimal(out: &mut String, n: u64)
    ensures
        final(out)@ == old(out)@ + dec_digits(n as nat),
    decreases n,
{
    if n < 10 {
        push_digit(out, n);
        assert(old(out)@.push(digit_char(n as nat)) =~= old(out)@ + dec_digits(n as nat));
    } else {
        append_decimal(out, n / 10);
        push_digit(out, n % 10);
        assert((old(out)@ + dec_digits(n as nat / 10)).push(digit_char((n % 10) as nat)) =~= old(
            out,
        )@ + dec_digits(n as nat));
    }
}

/// Index of the first occurrence of `c` in `s` at or after `i`; `s.len()`
/// when there is none.
pub open spec fn find_from(s: Seq<char>, c: char, i: int) -> int
    decreases s.len() - i when 0 <= i <= s.len()
{
    if i >= s.len() {
        s.len() as int
    } else if s[i] == c {
        i
    } else {
        find_from(s, c, i + 1)
    }
}

pub proof fn lemma_find_from(s: Seq<char>, c: char, i: int)
    requires
        0 <= i <= s.len(),
    ensures
        i <= find_from(s, c, i) <= s.len(),
        find_from(s, c, i) < s.len() ==> s[find_from(s, c, i)] == c,
        forall|j: int| i <= j < find_from(s, c, i) ==> s[j] != c,
    decreases s.len() - i,
{
    if i < s.len() && s[i] != c {
        lemma_find_from(s, c, i + 1);
    }
}

/// Find the first occurrence of `c` in `s` at or after character index `from`.
pub fn find_char(s: &str, c: char, from: usize) -> (r: usize)
    requires
        from <= s@.len(),
    ensures
        r == find_from(s@, c, from as int),
        from <= r <= s@.len(),
{
    proof {
        lemma_find_from(s@, c, from as int);
    }
    let n = s.unicode_len();
    let mut i = from;
    while i < n
        invariant
            from <= i <= n == s@.len(),
            find_from(s@, c, from as int) == find_from(s@, c, i as int),
        decreases n - i,
    {
        if s.get_char(i) == c {
            return i;
        }
        i = i + 1;
    }
    i
}

/// Index of the first character of `s` at or after `i` that is not `c`.
pub open spec fn skip_char_idx(s: Seq<char>, c: char, i: int) -> int
    decreases s.len() - i when 0 <= i <= s.len()
{
    if i >= s.len() {
        s.len() as int
    } else if s[i] == c {
        skip_char_idx(s, c, i + 1)
    } else {
        i
    }
}

pub proof fn lemma_skip_char_idx(s: Seq<char>, c: char, i: int)
    requires
        0 <= i <= s.len(),
    ensures
        i <= skip_char_idx(s, c, i) <= s.len(),
    decreases s.len() - i,
{
    if i < s.len() && s[i] == c {
        lemma_skip_char_idx(s, c, i + 1);
    }
}

/// Skip every leading occurrence of `c` in `s`.
pub fn skip_leading(s: &str, c: char) -> (r: usize)
    ensures
        r == skip_char_idx(s@, c, 0),
        r <= s@.len(),
{
    proof {
        lemma_skip_char_idx(s@, c, 0);
    }
    let n = s.unicode_len();
    let mut i: usize = 0;
    while i < n && s.get_char(i) == c
        invariant
            0 <= i <= n == s@.len(),
            skip_char_idx(s@, c, 0) == skip_char_idx(s@, c, i as int),
        decreases n - i,
    {
        i = i + 1;
    }
    i
}

/// Whitespace for the purpose of trimming a manifest or config line.
pub open spec fn is_space(c: char) -> bool {
    c == ' ' || c == '\t' || c == '\r'
}

/// Index of the first non-space character of `s` at or after `i`.
pub open spec fn trim_start_idx(s: Seq<char>, i: int) -> int
    decreases s.len() - i when 0 <= i <= s.len()
{
    if i >= s.len() {
        s.len() as int
    } else if is_space(s[i]) {
        trim_start_idx(s, i + 1)
    } else {
        i
    }
}

/// One past the last non-space character of `s` before `j`, stopping at `lo`.
pub open spec fn trim_end_idx(s: Seq<char>, j: int, lo: int) -> int
    decreases j - lo when 0 <= lo <= j <= s.len()
{
    if j <= lo {
        lo
    } else if is_space(s[j - 1]) {
        trim_end_idx(s, j - 1, lo)
    } else {
        j
    }
}

/// `s` with leading and trailing whitespace removed.
pub open spec fn trim_spec(s: Seq<char>) -> Seq<char> {
    let a = trim_start_idx(s, 0);
    let b = trim_end_idx(s, s.len() as int, a);
    s.subrange(a, b)
}

/// Remove leading and trailing whitespace from `line`.
pub fn trim_str(line: &str) -> (r: &str)
    ensures
        r@ == trim_spec(line@),
{
    let n = line.unicode_len();
    let mut a: usize = 0;
    while a < n && is_space_char(line.get_char(a))
        invariant
            0 <= a <= n == line@.len(),
            trim_start_idx(line@, 0) == trim_start_idx(line@, a as int),
        decreases n - a,
    {
        a = a + 1;
    }
    assert(trim_start_idx(line@, a as int) == a);
    let mut b: usize = n;
    while b > a && is_space_char(line.get_char(b - 1))
        invariant
            a <= b <= n == line@.len(),
            trim_end_idx(line@, n as int, a as int) == trim_end_idx(line@, b as int, a as int),
        decreases b,
    {
        b = b - 1;
    }
    assert(trim_end_idx(line@, b as int, a as int) == b);
    line.substring_char(a, b)
}

/// Whether `c` counts as whitespace when trimming.
pub fn is_space_char(c: char) -> (r: bool)
    ensures
        r == is_space(c),
{
    c == ' ' || c == '\t' || c == '\r'
}

/// `s` begins with `k`.
pub open spec fn starts_with_spec(s: Seq<char>, k: Seq<char>) -> bool {
    s.len() >= k.len() && s.subrange(0, k.len() as int) == k
}

/// `s` ends with `k`.
pub open spec fn ends_with_spec(s: Seq<char>, k: Seq<char>) -> bool {
    s.len() >= k.len() && s.subrange(s.len() - k.len(), s.len() as int) == k
}

/// Does `s` begin with `k`?
pub fn starts_with_str(s: &str, k: &str) -> (r: bool)
    ensures
        r == starts_with_spec(s@, k@),
{
    let n = s.unicode_len();
    let m = k.unicode_len();
    if n < m {
        return false;
    }
    let mut i: usize = 0;
    while i < m
        invariant
            0 <= i <= m == k@.len(),
            m <= n == s@.len(),
            forall|j: int| 0 <= j < i ==> s@[j] == k@[j],
        decreases m - i,
    {
        if s.get_char(i) != k.get_char(i) {
            assert(s@.subrange(0, m as int)[i as int] != k@[i as int]);
            return false;
        }
        i = i + 1;
    }
    assert(s@.subrange(0, m as int) =~= k@);
    true
}

/// Does `s` end with `k`?
pub fn ends_with_str(s: &str, k: &str) -> (r: bool)
    ensures
        r == ends_with_spec(s@, k@),
{
    let n = s.unicode_len();
    let m = k.unicode_len();
    if n < m {
        return false;
    }
    let off = n - m;
    let mut i: usize = 0;
    while i < m
        invariant
            0 <= i <= m == k@.len(),
            m <= n == s@.len(),
            off == n - m,
            forall|j: int| 0 <= j < i ==> s@[off + j] == k@[j],
        decreases m - i,
    {
        if s.get_char(off + i) != k.get_char(i) {
            assert(s@.subrange(off as int, n as int)[i as int] != k@[i as int]);
            return false;
        }
        i = i + 1;
    }
    assert(s@.subrange(off as int, n as int) =~= k@);
    true
}

/// The segments of `s` between occurrences of the separator `c`; splitting
/// the empty sequence yields one empty segment, as `str::split` does.
pub open spec fn split_chr(s: Seq<char>, c: char) -> Seq<Seq<char>>
    decreases s.len(),
{
    if s.len() == 0 {
        seq![Seq::<char>::empty()]
    } else if s[0] == c {
        seq![Seq::<char>::empty()] + split_chr(s.drop_first(), c)
    } else {
        let rest = split_chr(s.drop_first(), c);
        seq![seq![s[0]] + rest[0]] + rest.drop_first()
    }
}

pub proof fn lemma_split_chr_len(s: Seq<char>, c: char)
    ensures
        split_chr(s, c).len() >= 1,
    decreases s.len(),
{
    if s.len() > 0 {
        lemma_split_chr_len(s.drop_first(), c);
    }
}

proof fn lemma_find_from_shift(s: Seq<char>, c: char, i: int)
    requires
        0 <= i <= s.len() - 1,
        s.len() > 0,
    ensures
        find_from(s, c, i + 1) == 1 + find_from(s.drop_first(), c, i),
    decreases s.len() - i,
{
    if i + 1 >= s.len() {
        assert(s.drop_first().len() == s.len() - 1);
    } else if s[i + 1] == c {
        assert(s.drop_first()[i] == c);
    } else {
        lemma_find_from_shift(s, c, i + 1);
    }
}

/// The first segment of a split is the prefix up to the first separator, and
/// the remaining segments split the suffix after it.
pub proof fn lemma_split_chr_first(s: Seq<char>, c: char)
    ensures
        split_chr(s, c)[0] == s.subrange(0, find_from(s, c, 0)),
        find_from(s, c, 0) < s.len() ==> split_chr(s, c) == seq![
            s.subrange(0, find_from(s, c, 0)),
        ] + split_chr(s.subrange(find_from(s, c, 0) + 1, s.len() as int), c),
        find_from(s, c, 0) == s.len() ==> split_chr(s, c) == seq![s],
    decreases s.len(),
{
    lemma_find_from(s, c, 0);
    let e = find_from(s, c, 0);
    if s.len() == 0 {
        assert(s.subrange(0, 0) =~= s);
        assert(s =~= Seq::<char>::empty());
        assert(split_chr(s, c) =~= seq![s]);
    } else if s[0] == c {
        assert(e == 0);
        assert(s.subrange(0, 0) =~= Seq::<char>::empty());
        assert(s.subrange(1, s.len() as int) =~= s.drop_first());
    } else {
        let t = s.drop_first();
        lemma_split_chr_first(t, c);
        lemma_find_from_shift(s, c, 0);
        let e2 = find_from(t, c, 0);
        assert(e == 1 + e2);
        lemma_find_from(t, c, 0);
        assert(split_chr(s, c)[0] == seq![s[0]] + split_chr(t, c)[0]);
        assert(seq![s[0]] + t.subrange(0, e2) =~= s.subrange(0, e));
        if e < s.len() {
            assert(t.subrange(e2 + 1, t.len() as int) =~= s.subrange(e + 1, s.len() as int));
            assert(split_chr(t, c) == seq![t.subrange(0, e2)] + split_chr(
                t.subrange(e2 + 1, t.len() as int),
                c,
            ));
            assert(split_chr(t, c).drop_first() =~= split_chr(
                s.subrange(e + 1, s.len() as int),
                c,
            ));
            assert(split_chr(s, c) =~= seq![s.subrange(0, e)] + split_chr(
                s.subrange(e + 1, s.len() as int),
                c,
            ));
        } else {
            assert(e2 == t.len());
            assert(split_chr(t, c) == seq![t]);
            assert(split_chr(t, c).drop_first() =~= Seq::<Seq<char>>::empty());
            assert(seq![s[0]] + t =~= s);
            assert(split_chr(s, c) =~= seq![s]);
        }
    }
}

} // verus!
