use vstd::prelude::*;
use crate::strbuf::push_char;

verus! {

use vstd::string::StrSliceExecFns;

// A scanned number literal is one or more characters, each a decimal digit
// or '.', starting with a digit. It is a valid literal when it holds at
// most one dot; the canonical form drops leading zeros of the integer part
// (keeping at least one digit) and trailing zeros of the fraction, and
// drops the dot when no fraction is left.

pub open spec fn is_digit_char(c: char) -> bool {
    '0' as u32 <= c as u32 && c as u32 <= '9' as u32
}

pub open spec fn num_shape(s: Seq<char>) -> bool {
    &&& s.len() > 0
    &&& is_digit_char(s[0])
    &&& forall|i: int| 0 <= i < s.len() ==> is_digit_char(#[trigger] s[i]) || s[i] == '.'
}

pub open spec fn count_dots(s: Seq<char>) -> int
    decreases s.len(),
{
    if s.len() == 0 {
        0
    } else {
        count_dots(s.drop_last()) + if s.last() == '.' { 1int } else { 0int }
    }
}

/// The shape the host-language float parser accepts for digit-and-dot text.
pub open spec fn valid_number(s: Seq<char>) -> bool {
    num_shape(s) && count_dots(s) <= 1
}

/// Index of the first dot at or after `i`, or the length when there is none.
pub open spec fn dot_pos_from(s: Seq<char>, i: int) -> int
    decreases s.len() - i,
{
    if i < 0 || i >= s.len() {
        s.len() as int
    } else if s[i] == '.' {
        i
    } else {
        dot_pos_from(s, i + 1)
    }
}

pub open spec fn int_part(s: Seq<char>) -> Seq<char> {
    s.subrange(0, dot_pos_from(s, 0))
}

pub open spec fn frac_part(s: Seq<char>) -> Seq<char> {
    let d = dot_pos_from(s, 0);
    if d >= s.len() {
        Seq::empty()
    } else {
        s.subrange(d + 1, s.len() as int)
    }
}

/// First index from `i` whose character is not '0', stopping one short of
/// the end so that at least one digit remains.
pub open spec fn lead_start(s: Seq<char>, i: int) -> int
    decreases s.len() - i,
{
    if i + 1 >= s.len() {
        i
    } else if s[i] == '0' {
        lead_start(s, i + 1)
    } else {
        i
    }
}

/// Length of `s` once trailing '0' characters are removed.
pub open spec fn trim_len(s: Seq<char>) -> int
    decreases s.len(),
{
    if s.len() == 0 {
        0
    } else if s.last() == '0' {
        trim_len(s.drop_last())
    } else {
        s.len() as int
    }
}

/// The canonical rendering of a valid number literal.
pub open spec fn canon_num(s: Seq<char>) -> Seq<char> {
    let ip = int_part(s);
    let fp = frac_part(s);
    let ci = ip.subrange(lead_start(ip, 0), ip.len() as int);
    let cf = fp.subrange(0, trim_len(fp));
    if cf.len() == 0 {
        ci
    } else {
        ci + seq!['.'] + cf
    }
}

pub open spec fn digit_val(c: char) -> int {
    c as u32 - '0' as u32
}

/// The integer a digit string denotes.
pub open spec fn digits_val(s: Seq<char>) -> int
    decreases s.len(),
{
    if s.len() == 0 {
        0
    } else {
        digits_val(s.drop_last()) * 10 + digit_val(s.last())
    }
}

pub open spec fn pow10(n: nat) -> int
    decreases n,
{
    if n == 0 {
        1
    } else {
        10 * pow10((n - 1) as nat)
    }
}

/// Two decimal literals denote the same rational number: cross-multiplied
/// scaled values agree.
pub open spec fn num_equiv(a: Seq<char>, b: Seq<char>) -> bool {
    digits_val(int_part(a) + frac_part(a)) * pow10(frac_part(b).len())
        == digits_val(int_part(b) + frac_part(b)) * pow10(frac_part(a).len())
}

proof fn lemma_dot_pos_bounds(s: Seq<char>, i: int)
    requires
        0 <= i <= s.len(),
    ensures
        i <= dot_pos_from(s, i) <= s.len(),
        forall|k: int| i <= k < dot_pos_from(s, i) ==> s[k] != '.',
        dot_pos_from(s, i) < s.len() ==> s[dot_pos_from(s, i)] == '.',
    decreases s.len() - i,
{
    if i < s.len() && s[i] != '.' {
        lemma_dot_pos_bounds(s, i + 1);
    }
}

proof fn lemma_lead_start_bounds(s: Seq<char>, i: int)
    requires
        0 <= i,
        i < s.len(),
    ensures
        i <= lead_start(s, i) < s.len(),
        forall|k: int| i <= k < lead_start(s, i) ==> s[k] == '0',
    decreases s.len() - i,
{
    if i + 1 < s.len() && s[i] == '0' {
        lemma_lead_start_bounds(s, i + 1);
    }
}

proof fn lemma_trim_len_bounds(s: Seq<char>)
    ensures
        0 <= trim_len(s) <= s.len(),
        forall|k: int| trim_len(s) <= k < s.len() ==> s[k] == '0',
        trim_len(s) > 0 ==> s[trim_len(s) - 1] != '0',
    decreases s.len(),
{
    if s.len() > 0 && s.last() == '0' {
        lemma_trim_len_bounds(s.drop_last());
        assert forall|k: int| trim_len(s) <= k < s.len() implies s[k] == '0' by {
            if k < s.len() - 1 {
                assert(s.drop_last()[k] == s[k]);
            }
        }
    }
}

proof fn lemma_count_dots_concat(a: Seq<char>, b: Seq<char>)
    ensures
        count_dots(a + b) == count_dots(a) + count_dots(b),
    decreases b.len(),
{
    if b.len() == 0 {
        assert(a + b =~= a);
    } else {
        lemma_count_dots_concat(a, b.drop_last());
        assert((a + b).drop_last() =~= a + b.drop_last());
        assert((a + b).last() == b.last());
    }
}

proof fn lemma_count_dots_zero(s: Seq<char>)
    requires
        count_dots(s) == 0,
        forall|i: int| 0 <= i < s.len() ==> is_digit_char(#[trigger] s[i]) || s[i] == '.',
    ensures
        forall|i: int| 0 <= i < s.len() ==> is_digit_char(#[trigger] s[i]),
    decreases s.len(),
{
    if s.len() > 0 {
        assert(count_dots(s.drop_last()) >= 0) by {
            lemma_count_dots_nonneg(s.drop_last());
        }
        lemma_count_dots_zero(s.drop_last());
        assert forall|i: int| 0 <= i < s.len() implies is_digit_char(s[i]) by {
            if i < s.len() - 1 {
                assert(s.drop_last()[i] == s[i]);
            } else {
                assert(s.last() != '.');
            }
        }
    }
}

proof fn lemma_count_dots_nonneg(s: Seq<char>)
    ensures
        count_dots(s) >= 0,
    decreases s.len(),
{
    if s.len() > 0 {
        lemma_count_dots_nonneg(s.drop_last());
    }
}

/// Stripping a prefix of '0' digits does not change the denoted integer.
proof fn lemma_strip_leading_zeros(u: Seq<char>, t: Seq<char>)
    requires
        forall|k: int| 0 <= k < u.len() ==> u[k] == '0',
    ensures
        digits_val(u + t) == digits_val(t),
    decreases t.len(), u.len(),
{
    if t.len() == 0 {
        if u.len() == 0 {
            assert(u + t =~= Seq::<char>::empty());
        } else {
            assert((u + t).drop_last() =~= u.drop_last() + t);
            lemma_strip_leading_zeros(u.drop_last(), t);
            assert((u + t).last() == u.last());
            assert(digit_val('0') == 0);
        }
    } else {
        assert((u + t).drop_last() =~= u + t.drop_last());
        lemma_strip_leading_zeros(u, t.drop_last());
        assert((u + t).last() == t.last());
    }
}

proof fn lemma_pow10_adds(a: nat, b: nat)
    ensures
        pow10(a + b) == pow10(a) * pow10(b),
    decreases b,
{
    if b == 0 {
        assert(pow10(a + 0) == pow10(a) * 1) by {
            assert(pow10(0) == 1);
        }
    } else {
        lemma_pow10_adds(a, (b - 1) as nat);
        assert(pow10(a + b) == 10 * pow10((a + b - 1) as nat));
        assert((a + b - 1) as nat == a + (b - 1) as nat);
        assert(pow10(a + b) == 10 * (pow10(a) * pow10((b - 1) as nat)));
        assert(10 * (pow10(a) * pow10((b - 1) as nat)) == pow10(a) * (10 * pow10(
            (b - 1) as nat,
        ))) by (nonlinear_arith);
    }
}

/// Removing trailing '0' digits multiplies down by a power of ten.
proof fn lemma_strip_trailing_zeros(x: Seq<char>, f: Seq<char>, m: int)
    requires
        0 <= m <= f.len(),
        forall|k: int| m <= k < f.len() ==> f[k] == '0',
    ensures
        digits_val(x + f) == digits_val(x + f.subrange(0, m)) * pow10((f.len() - m) as nat),
    decreases f.len() - m,
{
    if m == f.len() {
        assert(f.subrange(0, m) =~= f);
        assert(pow10(0) == 1);
    } else {
        assert(f.last() == '0');
        assert((x + f).drop_last() =~= x + f.drop_last());
        assert forall|k: int| m <= k < f.drop_last().len() implies f.drop_last()[k] == '0' by {
            assert(f.drop_last()[k] == f[k]);
        }
        lemma_strip_trailing_zeros(x, f.drop_last(), m);
        assert(f.drop_last().subrange(0, m) =~= f.subrange(0, m));
        assert((x + f).last() == '0');
        assert(digit_val('0') == 0);
        let v = digits_val(x + f.subrange(0, m));
        let k = (f.len() - 1 - m) as nat;
        assert(digits_val(x + f) == (v * pow10(k)) * 10);
        assert((v * pow10(k)) * 10 == v * (pow10(k) * 10)) by (nonlinear_arith);
        assert(pow10(k + 1) == 10 * pow10(k));
        assert((f.len() - m) as nat == k + 1);
    }
}

/// The canonical form of a valid literal splits back into its stripped
/// integer and fraction parts.
proof fn lemma_canon_parts(s: Seq<char>)
    requires
        valid_number(s),
    ensures
        int_part(canon_num(s)) =~= int_part(s).subrange(lead_start(int_part(s), 0), int_part(s).len() as int),
        frac_part(canon_num(s)) =~= frac_part(s).subrange(0, trim_len(frac_part(s))),
{
    let ip = int_part(s);
    let fp = frac_part(s);
    lemma_dot_pos_bounds(s, 0);
    let d = dot_pos_from(s, 0);
    lemma_lead_start_bounds(ip, 0);
    lemma_trim_len_bounds(fp);
    let ci = ip.subrange(lead_start(ip, 0), ip.len() as int);
    let cf = fp.subrange(0, trim_len(fp));
    let c = canon_num(s);
    // no dot inside ci
    assert(forall|k: int| 0 <= k < ci.len() ==> ci[k] != '.');
    // no dot inside cf: the dots of s are exactly one, at position d
    if d < s.len() {
        assert(s =~= ip + seq!['.'] + fp);
        lemma_count_dots_concat(ip + seq!['.'], fp);
        lemma_count_dots_concat(ip, seq!['.']);
        lemma_count_dots_nonneg(ip);
        lemma_count_dots_nonneg(fp);
        assert(count_dots(seq!['.']) == 1) by {
            assert(seq!['.'].drop_last() =~= Seq::<char>::empty());
            assert(count_dots(Seq::<char>::empty()) == 0);
            assert(seq!['.'].last() == '.');
        }
        assert(count_dots(fp) == 0);
        assert(forall|i: int| 0 <= i < fp.len() ==> is_digit_char(#[trigger] fp[i]) || fp[i] == '.');
        lemma_count_dots_zero(fp);
        assert(forall|k: int| 0 <= k < cf.len() ==> cf[k] != '.');
    } else {
        assert(fp =~= Seq::<char>::empty());
        assert(cf.len() == 0);
    }
    if cf.len() == 0 {
        assert(c =~= ci);
        lemma_dot_pos_bounds(c, 0);
        assert(dot_pos_from(c, 0) == c.len()) by {
            if dot_pos_from(c, 0) < c.len() {
                assert(c[dot_pos_from(c, 0)] == '.');
            }
        }
        assert(int_part(c) =~= ci);
        assert(frac_part(c) =~= Seq::<char>::empty());
    } else {
        assert(c =~= ci + seq!['.'] + cf);
        lemma_dot_pos_bounds(c, 0);
        assert(c[ci.len() as int] == '.');
        assert(dot_pos_from(c, 0) == ci.len()) by {
            let dc = dot_pos_from(c, 0);
            if dc < ci.len() {
                assert(c[dc] == ci[dc]);
            }
            if dc > ci.len() {
                assert(forall|k: int| 0 <= k < dc ==> c[k] != '.');
            }
        }
        assert(int_part(c) =~= ci);
        assert(frac_part(c) =~= cf);
    }
}

/// Canonicalizing a valid number literal preserves the denoted value:
/// for every literal of the accepted shape, the text the code generator
/// will render is numerically equivalent to the source text.
pub proof fn lemma_canon_num_equiv(s: Seq<char>)
    requires
        valid_number(s),
    ensures
        num_equiv(canon_num(s), s),
{
    let ip = int_part(s);
    let fp = frac_part(s);
    lemma_dot_pos_bounds(s, 0);
    lemma_lead_start_bounds(ip, 0);
    lemma_trim_len_bounds(fp);
    let z = lead_start(ip, 0);
    let m = trim_len(fp);
    let ci = ip.subrange(z, ip.len() as int);
    let cf = fp.subrange(0, m);
    lemma_canon_parts(s);
    let c = canon_num(s);
    // value of the source literal, with leading zeros stripped
    assert(ip + fp =~= ip.subrange(0, z) + (ci + fp));
    lemma_strip_leading_zeros(ip.subrange(0, z), ci + fp);
    // trailing zeros of the fraction scale by a power of ten
    lemma_strip_trailing_zeros(ci, fp, m);
    let k = (fp.len() - m) as nat;
    assert(digits_val(ip + fp) == digits_val(ci + cf) * pow10(k)) by {
        assert(digits_val(ci + fp) == digits_val(ci + fp.subrange(0, m)) * pow10(k));
        assert(fp.subrange(0, m) =~= cf);
    }
    lemma_pow10_adds(m as nat, k);
    assert(int_part(c) + frac_part(c) =~= ci + cf);
    assert(frac_part(c).len() == m);
    // cross-multiplied equality
    let v = digits_val(ci + cf);
    assert(digits_val(ip + fp) * pow10(m as nat) == (v * pow10(k)) * pow10(m as nat));
    assert(v * pow10(fp.len() as nat) == v * (pow10(m as nat) * pow10(k))) by {
        assert(fp.len() as nat == m as nat + k);
    }
    assert(v * (pow10(m as nat) * pow10(k)) == (v * pow10(k)) * pow10(m as nat))
        by (nonlinear_arith);
}

/// Counts the '.' characters of `s`.
pub fn dots_in(s: &String) -> (n: usize)
    requires
        s@.len() < usize::MAX,
    ensures
        n as int == count_dots(s@),
{
    let len = s.as_str().unicode_len();
    let mut n: usize = 0;
    let mut i: usize = 0;
    while i < len
        invariant
            0 <= i <= len,
            len == s@.len() < usize::MAX,
            n as int == count_dots(s@.subrange(0, i as int)),
            n <= i,
        decreases len - i,
    {
        let c = s.as_str().get_char(i);
        proof {
            assert(s@.subrange(0, i + 1).drop_last() =~= s@.subrange(0, i as int));
            assert(s@.subrange(0, i + 1).last() == s@[i as int]);
        }
        if c == '.' {
            n = n + 1;
        }
        i = i + 1;
    }
    proof {
        assert(s@.subrange(0, len as int) =~= s@);
    }
    n
}

/// Renders a valid number literal in canonical form: leading zeros and
/// trailing fraction zeros dropped, the dot dropped with an empty fraction.
pub fn canon_number(s: &String) -> (r: String)
    requires
        valid_number(s@),
        s@.len() < usize::MAX,
    ensures
        r@ == canon_num(s@),
{
    let len = s.as_str().unicode_len();
    proof {
        lemma_dot_pos_bounds(s@, 0);
    }
    // find the dot
    let mut d: usize = 0;
    while d < len && s.as_str().get_char(d) != '.'
        invariant
            0 <= d <= len,
            len == s@.len() < usize::MAX,
            dot_pos_from(s@, 0) == dot_pos_from(s@, d as int),
        decreases len - d,
    {
        d = d + 1;
    }
    proof {
        assert(dot_pos_from(s@, 0) == d as int);
    }
    // strip leading zeros of the integer part, keeping the last digit
    let ghost ip = int_part(s@);
    proof {
        lemma_lead_start_bounds(ip, 0);
        assert(forall|k: int| 0 <= k < d ==> ip[k] == s@[k]);
    }
    let mut z: usize = 0;
    while z + 1 < d && s.as_str().get_char(z) == '0'
        invariant
            0 <= z <= d,
            d as int == dot_pos_from(s@, 0),
            d <= len,
            len == s@.len() < usize::MAX,
            lead_start(ip, 0) == lead_start(ip, z as int),
            ip =~= s@.subrange(0, d as int),
        decreases d - z,
    {
        z = z + 1;
    }
    proof {
        assert(lead_start(ip, 0) == z as int) by {
            if z < d {
            }
        }
    }
    // trim trailing zeros of the fraction part
    let ghost fp = frac_part(s@);
    let mut m: usize = if d < len {
        len - (d + 1)
    } else {
        0
    };
    proof {
        lemma_trim_len_bounds(fp);
        assert(m as int == fp.len());
        assert(fp.subrange(0, fp.len() as int) =~= fp);
    }
    while m > 0 && s.as_str().get_char(d + m) == '0'
        invariant
            0 <= m as int <= fp.len(),
            d as int == dot_pos_from(s@, 0),
            d < len || m == 0,
            len == s@.len() < usize::MAX,
            fp.len() == if d < len { len - d - 1 } else { 0int },
            forall|k: int| 0 <= k < fp.len() ==> fp[k] == s@[d + 1 + k],
            trim_len(fp) == trim_len(fp.subrange(0, m as int)),
        decreases m,
    {
        proof {
            assert(fp.subrange(0, m as int).drop_last() =~= fp.subrange(0, m - 1));
            assert(fp.subrange(0, m as int).last() == s@[d + m]);
        }
        m = m - 1;
    }
    proof {
        let fm = fp.subrange(0, m as int);
        if m > 0 {
            assert(fm.last() == s@[d + m]);
            assert(trim_len(fm) == m as int);
        } else {
            assert(fm =~= Seq::<char>::empty());
        }
        assert(trim_len(fp) == m as int);
    }
    // assemble
    let mut r = String::new();
    let mut i: usize = z;
    while i < d
        invariant
            z <= i <= d,
            d <= len,
            len == s@.len() < usize::MAX,
            r@ =~= s@.subrange(z as int, i as int),
        decreases d - i,
    {
        let c = s.as_str().get_char(i);
        push_char(&mut r, c);
        proof {
            assert(s@.subrange(z as int, i + 1) =~= s@.subrange(z as int, i as int).push(s@[i as int]));
        }
        i = i + 1;
    }
    let ghost ci = ip.subrange(z as int, ip.len() as int);
    proof {
        assert(r@ =~= ci);
    }
    if m > 0 {
        push_char(&mut r, '.');
        let mut j: usize = 0;
        while j < m
            invariant
                0 <= j <= m,
                d + 1 + m <= len,
                len == s@.len() < usize::MAX,
                r@ =~= ci + seq!['.'] + s@.subrange(d + 1, d + 1 + j as int),
            decreases m - j,
        {
            let c = s.as_str().get_char(d + 1 + j);
            push_char(&mut r, c);
            proof {
                assert(s@.subrange(d + 1, d + 1 + (j + 1)) =~= s@.subrange(d + 1, d + 1 + j as int).push(s@[d + 1 + j]));
            }
            j = j + 1;
        }
        proof {
            let cf = fp.subrange(0, m as int);
            assert(s@.subrange(d + 1, d + 1 + m as int) =~= cf);
            assert(r@ =~= ci + seq!['.'] + cf);
            assert(canon_num(s@) == ci + seq!['.'] + cf);
        }
    } else {
        proof {
            assert(canon_num(s@) == ci);
        }
    }
    r
}

} // verus!
