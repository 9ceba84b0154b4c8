//! Character-sequence utilities shared by the parser, the formatter and the
//! text helpers: blank-character classification, trimming, scanning, substring
//! search, replacement and unsigned-integer reading.

use vstd::prelude::*;

verus! {

/// The blank characters recognized when text is trimmed: the code points
/// with the White_Space property, the same set the standard library's
/// trimming drops.
pub open spec fn is_blank(c: char) -> bool {
    ||| c == '\t' || c == '\n' || c == '\u{b}' || c == '\u{c}' || c == '\r' || c == ' '
    ||| c == '\u{85}' || c == '\u{a0}' || c == '\u{1680}'
    ||| ('\u{2000}' as u32) <= (c as u32) && (c as u32) <= ('\u{200a}' as u32)
    ||| c == '\u{2028}' || c == '\u{2029}' || c == '\u{202f}' || c == '\u{205f}'
    ||| c == '\u{3000}'
}

/// Exec mirror of [`is_blank`].
pub fn blank_char(c: char) -> (r: bool)
    ensures
        r == is_blank(c),
{
    let v = c as u32;
    c == '\t' || c == '\n' || c == '\u{b}' || c == '\u{c}' || c == '\r' || c == ' '
        || c == '\u{85}' || c == '\u{a0}' || c == '\u{1680}' || (('\u{2000}' as u32) <= v && v
        <= ('\u{200a}' as u32)) || c == '\u{2028}' || c == '\u{2029}' || c == '\u{202f}'
        || c == '\u{205f}' || c == '\u{3000}'
}

/// First index at or after `i` whose character satisfies `p`, or the length of
/// `s` when none does.
pub open spec fn scan(s: Seq<char>, i: int, p: spec_fn(char) -> bool) -> int
    decreases s.len() - i,
{
    if i < 0 {
        0
    } else if i >= s.len() {
        s.len() as int
    } else if p(s[i]) {
        i
    } else {
        scan(s, i + 1, p)
    }
}

/// Drop the blank characters at the front of `s`.
pub open spec fn trim_front(s: Seq<char>) -> Seq<char>
    decreases s.len(),
{
    if s.len() > 0 && is_blank(s[0]) {
        trim_front(s.drop_first())
    } else {
        s
    }
}

/// Drop the blank characters at the back of `s`.
pub open spec fn trim_back(s: Seq<char>) -> Seq<char>
    decreases s.len(),
{
    if s.len() > 0 && is_blank(s[s.len() - 1]) {
        trim_back(s.drop_last())
    } else {
        s
    }
}

/// Drop the blank characters at both ends of `s`.
pub open spec fn trim(s: Seq<char>) -> Seq<char> {
    trim_back(trim_front(s))
}

/// Relies on `String::from_iter`: the returned string holds exactly the
/// characters of `v`, in order.
#[verifier::external_body]
pub fn chars_to_string(v: &Vec<char>) -> (r: String)
    ensures
        r@ == v@,
{
    String::from_iter(v.iter().copied())
}

/// Relies on `str::chars`: the returned vector holds exactly the characters
/// of `s`, in order.
#[verifier::external_body]
pub fn str_to_chars(s: &str) -> (r: Vec<char>)
    ensures
        r@ == s@,
{
    s.chars().collect()
}

/// The characters of `s` in the range `[from, to)`, with the blanks at both
/// ends dropped, as a `String`.
pub fn capture_trimmed(s: &Vec<char>, from: usize, to: usize) -> (r: String)
    requires
        from <= to <= s@.len(),
    ensures
        r@ == trim(s@.subrange(from as int, to as int)),
{
    let mut lo: usize = from;
    while lo < to && blank_char(s[lo])
        invariant
            from <= lo <= to <= s@.len(),
            trim_front(s@.subrange(from as int, to as int)) == trim_front(
                s@.subrange(lo as int, to as int),
            ),
        decreases to - lo,
    {
        proof {
            assert(s@.subrange(lo as int, to as int).drop_first() =~= s@.subrange(
                lo + 1,
                to as int,
            ));
        }
        lo = lo + 1;
    }
    let mut hi: usize = to;
    while hi > lo && blank_char(s[hi - 1])
        invariant
            from <= lo <= hi <= to <= s@.len(),
            trim_front(s@.subrange(from as int, to as int)) == s@.subrange(lo as int, to as int),
            trim_back(s@.subrange(lo as int, to as int)) == trim_back(
                s@.subrange(lo as int, hi as int),
            ),
        decreases hi,
    {
        proof {
            assert(s@.subrange(lo as int, hi as int).drop_last() =~= s@.subrange(
                lo as int,
                hi - 1,
            ));
        }
        hi = hi - 1;
    }
    let mut out: Vec<char> = Vec::new();
    let mut i: usize = lo;
    while i < hi
        invariant
            lo <= i <= hi <= s@.len(),
            out@ == s@.subrange(lo as int, i as int),
        decreases hi - i,
    {
        out.push(s[i]);
        proof {
            assert(s@.subrange(lo as int, i + 1) =~= s@.subrange(lo as int, i as int).push(
                s@[i as int],
            ));
        }
        i = i + 1;
    }
    proof {
        let mid = s@.subrange(lo as int, hi as int);
        assert(trim_back(mid) == mid);
    }
    chars_to_string(&out)
}

/// The text carries no blank at either end, so trimming leaves it alone.
pub open spec fn is_trimmed(t: Seq<char>) -> bool {
    t.len() == 0 || (!is_blank(t[0]) && !is_blank(t[t.len() - 1]))
}

/// Trimming a trimmed text changes nothing.
pub proof fn lemma_trim_identity(t: Seq<char>)
    requires
        is_trimmed(t),
    ensures
        trim(t) == t,
{
}

/// `n` occurs in `h` starting at index `i`.
pub open spec fn occurs_at(h: Seq<char>, n: Seq<char>, i: int) -> bool {
    0 <= i && i + n.len() <= h.len() && h.subrange(i, i + n.len()) == n
}

/// `n` occurs somewhere in `h`.
pub open spec fn contains_seq(h: Seq<char>, n: Seq<char>) -> bool {
    exists|i: int| occurs_at(h, n, i)
}

/// Whether `n@` occurs in `h@` starting at `i`.
pub fn matches_at(h: &Vec<char>, n: &Vec<char>, i: usize) -> (r: bool)
    requires
        i <= h@.len(),
    ensures
        r == occurs_at(h@, n@, i as int),
{
    if n.len() > h.len() - i {
        return false;
    }
    let mut j: usize = 0;
    while j < n.len()
        invariant
            i + n@.len() <= h@.len(),
            h@.len() <= usize::MAX,
            0 <= j <= n@.len(),
            forall|k: int| 0 <= k < j ==> h@[i + k] == n@[k],
        decreases n@.len() - j,
    {
        if h[i + j] != n[j] {
            proof {
                assert(h@.subrange(i as int, i + n@.len())[j as int] == h@[i + j]);
            }
            return false;
        }
        j = j + 1;
    }
    proof {
        assert(h@.subrange(i as int, i + n@.len()) =~= n@);
    }
    true
}

/// Naive substring search.
pub fn contains_chars(h: &Vec<char>, n: &Vec<char>) -> (r: bool)
    ensures
        r == contains_seq(h@, n@),
{
    if n.len() > h.len() {
        proof {
            assert(forall|i: int| !occurs_at(h@, n@, i));
        }
        return false;
    }
    if n.len() == 0 {
        proof {
            assert(h@.subrange(0, 0) =~= n@);
            assert(occurs_at(h@, n@, 0));
        }
        return true;
    }
    let mut i: usize = 0;
    loop
        invariant
            1 <= n@.len() <= h@.len(),
            0 <= i <= h@.len() - n@.len() + 1,
            forall|k: int| 0 <= k < i ==> !occurs_at(h@, n@, k),
        decreases h@.len() - i,
    {
        if i > h.len() - n.len() {
            proof {
                assert(forall|k: int| occurs_at(h@, n@, k) ==> 0 <= k <= h@.len() - n@.len());
            }
            return false;
        }
        if matches_at(h, n, i) {
            return true;
        }
        i = i + 1;
    }
}

/// Whether the text of `n` occurs inside the text of `h`.
pub fn str_contains(h: &str, n: &str) -> (r: bool)
    ensures
        r == contains_seq(h@, n@),
{
    let hv = str_to_chars(h);
    let nv = str_to_chars(n);
    contains_chars(&hv, &nv)
}

/// Every occurrence of `pat` in `s`, scanned left to right without overlap,
/// replaced by `rep`. A `pat` longer than the rest of the text, or empty,
/// leaves the text as it stands.
pub open spec fn spec_replace(s: Seq<char>, pat: Seq<char>, rep: Seq<char>) -> Seq<char>
    decreases s.len(),
{
    if pat.len() == 0 || s.len() < pat.len() {
        s
    } else if s.subrange(0, pat.len() as int) == pat {
        rep + spec_replace(s.skip(pat.len() as int), pat, rep)
    } else {
        seq![s[0]] + spec_replace(s.drop_first(), pat, rep)
    }
}

/// Replace every occurrence of `pat` in `s` by `rep`, left to right.
pub fn replace_chars(s: &Vec<char>, pat: &Vec<char>, rep: &Vec<char>) -> (r: Vec<char>)
    ensures
        r@ == spec_replace(s@, pat@, rep@),
{
    let mut out: Vec<char> = Vec::new();
    let mut i: usize = 0;
    if pat.len() == 0 {
        while i < s.len()
            invariant
                0 <= i <= s@.len(),
                out@ == s@.subrange(0, i as int),
                pat@.len() == 0,
            decreases s@.len() - i,
        {
            out.push(s[i]);
            proof {
                assert(s@.subrange(0, i + 1) =~= s@.subrange(0, i as int).push(s@[i as int]));
            }
            i = i + 1;
        }
        proof {
            assert(s@.subrange(0, s@.len() as int) =~= s@);
        }
        return out;
    }
    proof {
        assert(s@.skip(0) =~= s@);
        assert(out@ + spec_replace(s@, pat@, rep@) =~= spec_replace(s@, pat@, rep@));
    }
    while i < s.len()
        invariant
            0 <= i <= s@.len(),
            pat@.len() > 0,
            spec_replace(s@, pat@, rep@) == out@ + spec_replace(s@.skip(i as int), pat@, rep@),
        decreases s@.len() - i,
    {
        let ghost rest = s@.skip(i as int);
        if matches_at(s, pat, i) {
            proof {
                assert(rest.subrange(0, pat@.len() as int) =~= s@.subrange(
                    i as int,
                    i + pat@.len(),
                ));
                assert(rest.skip(pat@.len() as int) =~= s@.skip(i + pat@.len()));
            }
            let mut j: usize = 0;
            let ghost out0 = out@;
            while j < rep.len()
                invariant
                    0 <= j <= rep@.len(),
                    out@ == out0 + rep@.subrange(0, j as int),
                decreases rep@.len() - j,
            {
                out.push(rep[j]);
                proof {
                    assert(rep@.subrange(0, j + 1) =~= rep@.subrange(0, j as int).push(
                        rep@[j as int],
                    ));
                }
                j = j + 1;
            }
            proof {
                assert(rep@.subrange(0, rep@.len() as int) =~= rep@);
                assert(out@ + spec_replace(s@.skip(i + pat@.len()), pat@, rep@) =~= out0 + (rep@
                    + spec_replace(rest.skip(pat@.len() as int), pat@, rep@)));
            }
            i = i + pat.len();
        } else {
            proof {
                if rest.len() >= pat@.len() {
                    assert(rest.subrange(0, pat@.len() as int) =~= s@.subrange(
                        i as int,
                        i + pat@.len(),
                    ));
                }
                assert(rest.drop_first() =~= s@.skip(i + 1));
            }
            out.push(s[i]);
            proof {
                assert(out@ + spec_replace(s@.skip(i + 1), pat@, rep@) =~= (out@.drop_last()
                    + (seq![rest[0]] + spec_replace(rest.drop_first(), pat@, rep@))));
            }
            i = i + 1;
        }
    }
    proof {
        assert(s@.skip(i as int) =~= Seq::<char>::empty());
        assert(out@ + spec_replace(s@.skip(i as int), pat@, rep@) =~= out@);
    }
    out
}

/// A decimal digit.
pub open spec fn is_digit(c: char) -> bool {
    48 <= c as u32 <= 57
}

/// The value of a run of decimal digits, most significant first.
pub open spec fn digits_val(s: Seq<char>) -> int
    decreases s.len(),
{
    if s.len() == 0 {
        0
    } else {
        digits_val(s.drop_last()) * 10 + (s.last() as u32 - 48)
    }
}

/// Every character of `s` is a decimal digit.
pub open spec fn all_digits(s: Seq<char>) -> bool {
    forall|i: int| 0 <= i < s.len() ==> #[trigger] is_digit(s[i])
}

/// The characters `s` are accepted by an unsigned decimal read: an optional
/// leading `+`, then one or more digits, with a value that fits in 64 bits.
pub open spec fn is_u64_text(s: Seq<char>) -> bool {
    let d = if s.len() > 0 && s[0] == '+' {
        s.drop_first()
    } else {
        s
    };
    d.len() > 0 && all_digits(d) && digits_val(d) <= u64::MAX
}

/// The value read by an unsigned decimal read of `s`.
pub open spec fn u64_text_val(s: Seq<char>) -> int {
    if s.len() > 0 && s[0] == '+' {
        digits_val(s.drop_first())
    } else {
        digits_val(s)
    }
}

proof fn lemma_digits_val_bounds(s: Seq<char>)
    requires
        all_digits(s),
    ensures
        0 <= digits_val(s),
    decreases s.len(),
{
    if s.len() > 0 {
        assert(is_digit(s[s.len() - 1]));
        assert(all_digits(s.drop_last())) by {
            assert(forall|i: int|
                0 <= i < s.len() - 1 ==> #[trigger] is_digit(s.drop_last()[i]) == is_digit(
                    s[i],
                ));
        }
        lemma_digits_val_bounds(s.drop_last());
    }
}

/// Read the characters of `s` in `[from, to)` as an unsigned decimal number,
/// as a `u64` read of that text would.
pub fn parse_u64_range(s: &Vec<char>, from: usize, to: usize) -> (r: Option<u64>)
    requires
        from <= to <= s@.len(),
    ensures
        r is Some <==> is_u64_text(s@.subrange(from as int, to as int)),
        r is Some ==> r->0 == u64_text_val(s@.subrange(from as int, to as int)),
{
    let ghost whole = s@.subrange(from as int, to as int);
    let mut i: usize = from;
    if i < to && s[i] == '+' {
        i = i + 1;
    }
    let ghost digits = s@.subrange(i as int, to as int);
    proof {
        if whole.len() > 0 && whole[0] == '+' {
            assert(whole.drop_first() =~= digits);
        } else {
            assert(whole =~= digits);
        }
    }
    if i == to {
        return None;
    }
    let ghost dstart = i as int;
    let mut val: u64 = 0;
    while i < to
        invariant
            from <= i <= to <= s@.len(),
            0 <= dstart <= i,
            dstart < to,
            whole == s@.subrange(from as int, to as int),
            digits == s@.subrange(dstart, to as int),
            digits == (if whole.len() > 0 && whole[0] == '+' {
                whole.drop_first()
            } else {
                whole
            }),
            digits.len() == to - dstart,
            forall|k: int| 0 <= k < i - dstart ==> #[trigger] is_digit(digits[k]),
            val == digits_val(digits.subrange(0, i - dstart)),
        decreases to - i,
    {
        let c = s[i];
        let cv = c as u32;
        proof {
            assert(digits[i - dstart] == s@[i as int]);
        }
        if cv < 48 || cv > 57 {
            proof {
                assert(!all_digits(digits)) by {
                    assert(!is_digit(digits[i - dstart]));
                }
            }
            return None;
        }
        let d: u64 = (cv - 48) as u64;
        proof {
            let p = digits.subrange(0, i - dstart + 1);
            assert(p.drop_last() =~= digits.subrange(0, i - dstart));
            assert(p.last() == digits[i - dstart]);
            assert(is_digit(digits[i - dstart]));
            assert(all_digits(digits.subrange(0, i - dstart))) by {
                assert(forall|k: int|
                    0 <= k < i - dstart ==> #[trigger] is_digit(digits.subrange(0, i - dstart)[k])
                        == is_digit(digits[k]));
            }
            lemma_digits_val_bounds(p.drop_last());
            assert(digits_val(p) == val * 10 + d);
        }
        if val > (u64::MAX - d) / 10 {
            proof {
                assert(val * 10 + d > u64::MAX) by (nonlinear_arith)
                    requires
                        val > (u64::MAX - d) / 10,
                        d <= 9,
                        val >= 0,
                ;
                lemma_digits_prefix_monotone(digits, i - dstart + 1);
            }
            return None;
        }
        proof {
            assert(val * 10 + d <= u64::MAX) by (nonlinear_arith)
                requires
                    val <= (u64::MAX - d) / 10,
                    d <= 9,
                    val >= 0,
            ;
        }
        val = val * 10 + d;
        i = i + 1;
    }
    proof {
        assert(digits.subrange(0, digits.len() as int) =~= digits);
        lemma_digits_val_bounds(digits);
    }
    Some(val)
}

/// What lower-casing a text yields. The result depends on the characters
/// alone.
pub uninterp spec fn lower_of(s: Seq<char>) -> Seq<char>;

/// Relies on `str::to_lowercase`: the result depends on the characters of
/// `s` alone.
#[verifier::external_body]
pub fn lowercase(s: &str) -> (r: String)
    ensures
        r@ == lower_of(s@),
{
    s.to_lowercase()
}

/// The two texts hold the same characters.
pub fn str_eq(a: &str, b: &str) -> (r: bool)
    ensures
        r == (a@ == b@),
{
    let av = str_to_chars(a);
    let bv = str_to_chars(b);
    if av.len() != bv.len() {
        return false;
    }
    let mut i: usize = 0;
    while i < av.len()
        invariant
            av@ == a@,
            bv@ == b@,
            av@.len() == bv@.len(),
            0 <= i <= av@.len(),
            forall|k: int| 0 <= k < i ==> av@[k] == bv@[k],
        decreases av@.len() - i,
    {
        if av[i] != bv[i] {
            return false;
        }
        i = i + 1;
    }
    proof {
        assert(a@ =~= b@);
    }
    true
}

/// The first dot at or after `i`, or the length of `s`.
pub open spec fn dot_scan(s: Seq<char>, i: int) -> int {
    scan(s, i, |c: char| c == '.')
}

/// Exec mirror of [`dot_scan`].
pub fn find_dot(s: &Vec<char>, from: usize) -> (r: usize)
    requires
        from <= s@.len(),
    ensures
        r == dot_scan(s@, from as int),
        from <= r <= s@.len(),
{
    let mut i: usize = from;
    loop
        invariant
            from <= i <= s@.len(),
            dot_scan(s@, from as int) == dot_scan(s@, i as int),
        decreases s@.len() - i,
    {
        if i == s.len() {
            return i;
        }
        if s[i] == '.' {
            return i;
        }
        i = i + 1;
    }
}

/// The characters of `s` in the range `[from, to)`.
pub fn copy_range(s: &Vec<char>, from: usize, to: usize) -> (r: Vec<char>)
    requires
        from <= to <= s@.len(),
    ensures
        r@ == s@.subrange(from as int, to as int),
{
    let mut out: Vec<char> = Vec::new();
    let mut i: usize = from;
    while i < to
        invariant
            from <= i <= to <= s@.len(),
            out@ == s@.subrange(from as int, i as int),
        decreases to - i,
    {
        out.push(s[i]);
        proof {
            assert(s@.subrange(from as int, i + 1) =~= s@.subrange(from as int, i as int).push(
                s@[i as int],
            ));
        }
        i = i + 1;
    }
    out
}

/// The character for the digit `d`.
pub open spec fn digit_char(d: int) -> char {
    ((d + 48) as u8) as char
}

/// The decimal text of the number `v`, most significant digit first, with no
/// leading zero.
pub open spec fn u64_digits(v: int) -> Seq<char>
    decreases v,
{
    if v < 10 {
        seq![digit_char(v)]
    } else {
        u64_digits(v / 10).push(digit_char(v % 10))
    }
}

/// Append the decimal text of `v` to `out`.
pub fn push_u64_digits(out: &mut Vec<char>, v: u64)
    ensures
        final(out)@ == old(out)@ + u64_digits(v as int),
    decreases v,
{
    if v < 10 {
        out.push(((v as u8) + 48) as char);
        proof {
            assert(old(out)@ + u64_digits(v as int) =~= old(out)@.push(digit_char(v as int)));
        }
    } else {
        proof {
            assert(v / 10 < v && v / 10 >= 1) by (nonlinear_arith)
                requires
                    v >= 10,
            ;
        }
        push_u64_digits(out, v / 10);
        out.push((((v % 10) as u8) + 48) as char);
        proof {
            assert(old(out)@ + u64_digits(v as int) =~= (old(out)@ + u64_digits(v as int / 10))
                .push(digit_char(v as int % 10)));
        }
    }
}

/// The decimal text of `v` as a `String`.
pub fn u64_to_string(v: u64) -> (r: String)
    ensures
        r@ == u64_digits(v as int),
{
    let mut out: Vec<char> = Vec::new();
    push_u64_digits(&mut out, v);
    proof {
        assert(Seq::<char>::empty() + u64_digits(v as int) =~= u64_digits(v as int));
    }
    chars_to_string(&out)
}

/// A longer all-digit run reads to at least as large a value; in particular a
/// run whose prefix already exceeds the 64-bit range exceeds it too.
proof fn lemma_digits_prefix_monotone(s: Seq<char>, k: int)
    requires
        0 <= k <= s.len(),
        forall|i: int| 0 <= i < k ==> #[trigger] is_digit(s[i]),
    ensures
        all_digits(s) ==> digits_val(s) >= digits_val(s.subrange(0, k)),
    decreases s.len() - k,
{
    if k < s.len() {
        if all_digits(s) {
            let p = s.subrange(0, k + 1);
            assert(p.drop_last() =~= s.subrange(0, k));
            assert(all_digits(s.subrange(0, k))) by {
                assert(forall|i: int|
                    0 <= i < k ==> #[trigger] is_digit(s.subrange(0, k)[i]) == is_digit(s[i]));
            }
            lemma_digits_val_bounds(s.subrange(0, k));
            assert(is_digit(s[k]));
            assert(p.last() == s[k]);
            assert(digits_val(p) == digits_val(s.subrange(0, k)) * 10 + (s[k] as u32 - 48));
            assert(digits_val(s.subrange(0, k)) * 10 >= digits_val(s.subrange(0, k)))
                by (nonlinear_arith)
                requires
                    digits_val(s.subrange(0, k)) >= 0,
            ;
            lemma_digits_prefix_monotone(s, k + 1);
        }
    } else {
        assert(s.subrange(0, k) =~= s);
    }
}

} // verus!
