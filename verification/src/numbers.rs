//! Decimal text: validation, canonical form, and integer conversion.
//!
//! Numeric exposure fields (focal length, aperture, exposure compensation)
//! are carried as validated decimal text and canonicalized, and the ISO
//! value as a machine integer; nothing here does unit conversion.

use vstd::prelude::*;

verus! {

/// A decimal digit.
pub open spec fn is_digit(c: char) -> bool {
    48 <= (c as u32) && (c as u32) <= 57
}

/// The numeric value of a digit character.
pub open spec fn digit_val(c: char) -> int {
    (c as u32) - 48
}

/// The digit character of a value below ten.
pub open spec fn digit_char(d: int) -> char {
    if d == 0 { '0' }
    else if d == 1 { '1' }
    else if d == 2 { '2' }
    else if d == 3 { '3' }
    else if d == 4 { '4' }
    else if d == 5 { '5' }
    else if d == 6 { '6' }
    else if d == 7 { '7' }
    else if d == 8 { '8' }
    else { '9' }
}

pub open spec fn all_digits(s: Seq<char>) -> bool {
    forall|i: int| 0 <= i < s.len() ==> is_digit(#[trigger] s[i])
}

/// The value of a digit string, most significant digit first.
pub open spec fn dec_uval(s: Seq<char>) -> int
    decreases s.len(),
{
    if s.len() == 0 {
        0
    } else {
        dec_uval(s.drop_last()) * 10 + digit_val(s.last())
    }
}

/// The decimal digits of a non-negative value, without leading zeros.
pub open spec fn dec_digits(n: int) -> Seq<char>
    decreases n,
{
    if n < 10 {
        seq![digit_char(n)]
    } else {
        dec_digits(n / 10).push(digit_char(n % 10))
    }
}

/// The text an integer prints as: a minus sign for negatives, then digits.
pub open spec fn int_text(n: int) -> Seq<char> {
    if n < 0 {
        seq!['-'] + dec_digits(-n)
    } else {
        dec_digits(n)
    }
}

/// Whether `s` is integer text: an optional sign, then one or more digits.
pub open spec fn int_text_ok(s: Seq<char>) -> bool {
    let t = if s.len() > 0 && (s[0] == '+' || s[0] == '-') { s.drop_first() } else { s };
    t.len() > 0 && all_digits(t)
}

/// The value integer text denotes.
pub open spec fn int_text_value(s: Seq<char>) -> int {
    if s.len() > 0 && s[0] == '-' {
        -dec_uval(s.drop_first())
    } else if s.len() > 0 && s[0] == '+' {
        dec_uval(s.drop_first())
    } else {
        dec_uval(s)
    }
}

proof fn lemma_dec_uval_nonneg(s: Seq<char>)
    requires
        all_digits(s),
    ensures
        dec_uval(s) >= 0,
    decreases s.len(),
{
    if s.len() > 0 {
        assert(all_digits(s.drop_last()));
        lemma_dec_uval_nonneg(s.drop_last());
    }
}

/// A digit string's value never shrinks as digits are appended.
proof fn lemma_dec_uval_prefix(s: Seq<char>, k: int)
    requires
        all_digits(s),
        0 <= k <= s.len(),
    ensures
        dec_uval(s.take(k)) <= dec_uval(s),
    decreases s.len() - k,
{
    if k < s.len() {
        assert(all_digits(s.take(k + 1)));
        assert(s.take(k + 1).drop_last() =~= s.take(k));
        assert(all_digits(s.take(k)));
        lemma_dec_uval_nonneg(s.take(k));
        assert(dec_uval(s.take(k + 1)) == dec_uval(s.take(k)) * 10 + digit_val(s.take(k + 1).last()));
        lemma_dec_uval_prefix(s, k + 1);
    } else {
        assert(s.take(k) =~= s);
    }
}

/// A one-character string for each digit value.
pub fn digit_str(d: u8) -> (r: &'static str)
    requires
        d < 10,
    ensures
        r@ =~= seq![digit_char(d as int)],
{
    proof {
        reveal_strlit("0");
        reveal_strlit("1");
        reveal_strlit("2");
        reveal_strlit("3");
        reveal_strlit("4");
        reveal_strlit("5");
        reveal_strlit("6");
        reveal_strlit("7");
        reveal_strlit("8");
        reveal_strlit("9");
    }
    match d {
        0 => "0",
        1 => "1",
        2 => "2",
        3 => "3",
        4 => "4",
        5 => "5",
        6 => "6",
        7 => "7",
        8 => "8",
        _ => "9",
    }
}

/// The digits collected least-significant first, read back in print order.
spec fn rev_chars(rev: Seq<u8>) -> Seq<char> {
    Seq::new(rev.len(), |i: int| digit_char(rev[rev.len() - 1 - i] as int))
}

/// Prints an integer as decimal text, as the tagging arguments need it.
#[verifier::loop_isolation(false)]
pub fn format_i32(n: i32) -> (r: String)
    ensures
        r@ == int_text(n as int),
{
    let neg: bool = n < 0;
    let wide: i64 = n as i64;
    let mut m: u32 = if neg { (-wide) as u32 } else { n as u32 };
    let ghost mag: int = m as int;
    let mut rev: Vec<u8> = Vec::new();
    proof {
        assert(dec_digits(mag) =~= dec_digits(m as int) + rev_chars(rev@));
    }
    while m >= 10
        invariant
            dec_digits(mag) =~= dec_digits(m as int) + rev_chars(rev@),
            forall|k: int| 0 <= k < rev@.len() ==> #[trigger] rev@[k] < 10,
        decreases m,
    {
        let d: u8 = (m % 10) as u8;
        let ghost old_m = m as int;
        let ghost old_rev = rev@;
        rev.push(d);
        m = m / 10;
        proof {
            assert(rev_chars(rev@) =~= seq![digit_char(d as int)] + rev_chars(old_rev));
            assert(dec_digits(old_m) == dec_digits(old_m / 10).push(digit_char(old_m % 10)));
            assert(dec_digits(m as int) + rev_chars(rev@) =~= dec_digits(old_m) + rev_chars(
                old_rev,
            ));
        }
    }
    let mut out = String::new();
    if neg {
        out.append("-");
        proof {
            reveal_strlit("-");
            assert(out@ =~= seq!['-']);
        }
    }
    out.append(digit_str(m as u8));
    let mut j: usize = 0;
    proof {
        assert(seq![digit_char(m as int)] + rev_chars(rev@).take(0) =~= seq![
            digit_char(m as int),
        ]);
    }
    while j < rev.len()
        invariant
            j <= rev@.len(),
            m < 10,
            out@ =~= (if neg { seq!['-'] } else { Seq::<char>::empty() }) + seq![
                digit_char(m as int),
            ] + rev_chars(rev@).take(j as int),
        decreases rev@.len() - j,
    {
        let idx: usize = rev.len() - 1 - j;
        out.append(digit_str(rev[idx]));
        proof {
            assert(rev_chars(rev@).take(j + 1) =~= rev_chars(rev@).take(j as int).push(
                digit_char(rev@[rev@.len() - 1 - j] as int),
            ));
        }
        j = j + 1;
    }
    proof {
        assert(rev_chars(rev@).take(rev@.len() as int) =~= rev_chars(rev@));
        assert(dec_digits(mag) =~= seq![digit_char(m as int)] + rev_chars(rev@));
        if neg {
            assert(mag == -(n as int));
            assert(out@ =~= seq!['-'] + dec_digits(mag));
        } else {
            assert(out@ =~= dec_digits(mag));
        }
    }
    out
}

/// Reads integer text, as the ISO column is read: an optional sign and
/// digits, rejecting anything else and any value outside the `i32` range.
#[verifier::loop_isolation(false)]
pub fn parse_i32(s: &str) -> (r: Option<i32>)
    ensures
        r is Some <==> int_text_ok(s@) && -2147483648 <= int_text_value(s@) <= 2147483647,
        r matches Some(v) ==> v as int == int_text_value(s@),
{
    let len = s.unicode_len();
    let mut start: usize = 0;
    let mut neg: bool = false;
    if len > 0 {
        let c0 = s.get_char(0);
        if c0 == '-' {
            neg = true;
            start = 1;
        } else if c0 == '+' {
            start = 1;
        }
    }
    if start >= len {
        return None;
    }
    let ghost t: Seq<char> = s@.skip(start as int);
    proof {
        assert(start == 1 ==> t =~= s@.drop_first());
        assert(start == 0 ==> t =~= s@);
    }
    let mut acc: u64 = 0;
    let mut i: usize = start;
    proof {
        assert(t.take(0) =~= Seq::<char>::empty());
    }
    while i < len
        invariant
            start <= i <= len,
            start < len,
            len == s@.len(),
            t =~= s@.skip(start as int),
            all_digits(t.take(i - start)),
            acc <= 2147483648,
            acc as int == dec_uval(t.take(i - start)),
        decreases len - i,
    {
        let c = s.get_char(i);
        let code: u32 = c as u32;
        if code < 48 || code > 57 {
            proof {
                assert(t[i - start] == c);
                assert(!is_digit(t[i - start]));
                assert(!all_digits(t));
            }
            return None;
        }
        let d: u64 = (code - 48) as u64;
        let ghost prev = t.take(i - start);
        proof {
            assert(t.take(i - start + 1).drop_last() =~= prev);
            assert(t.take(i - start + 1).last() == c);
        }
        acc = acc * 10 + d;
        i = i + 1;
        if acc > 2147483648 {
            proof {
                if all_digits(t) {
                    lemma_dec_uval_prefix(t, i - start);
                    assert(dec_uval(t) >= acc as int > 2147483648);
                    assert(s@[0] == '-' ==> int_text_value(s@) == -dec_uval(t));
                    assert(s@[0] == '+' ==> int_text_value(s@) == dec_uval(t));
                    assert(start == 0 ==> int_text_value(s@) == dec_uval(t));
                }
            }
            return None;
        }
    }
    proof {
        assert(t.take(i - start) =~= t);
        assert(int_text_ok(s@));
        lemma_dec_uval_nonneg(t);
    }
    if neg {
        let v: i64 = -(acc as i64);
        proof {
            assert(int_text_value(s@) == -dec_uval(t));
        }
        Some(v as i32)
    } else {
        if acc > 2147483647 {
            proof {
                assert(int_text_value(s@) == dec_uval(t));
            }
            return None;
        }
        Some(acc as i32)
    }
}

/// The unsigned part of numeric text: the text without a leading sign.
pub open spec fn unsigned_part(s: Seq<char>) -> Seq<char> {
    if s.len() > 0 && (s[0] == '+' || s[0] == '-') {
        s.drop_first()
    } else {
        s
    }
}

/// The index of the first dot of `t`, or its length when it has none.
pub open spec fn dot_index(t: Seq<char>) -> int
    decreases t.len(),
{
    if t.len() == 0 {
        0
    } else if t[0] == '.' {
        0
    } else {
        1 + dot_index(t.drop_first())
    }
}

pub open spec fn int_digits(t: Seq<char>) -> Seq<char> {
    t.take(dot_index(t))
}

pub open spec fn frac_digits(t: Seq<char>) -> Seq<char> {
    if dot_index(t) == t.len() {
        Seq::empty()
    } else {
        t.skip(dot_index(t) + 1)
    }
}

/// Whether `s` is decimal text: an optional sign, then digits with at most
/// one dot, with at least one digit on one side of it.
pub open spec fn is_number_text(s: Seq<char>) -> bool {
    let t = unsigned_part(s);
    &&& all_digits(int_digits(t))
    &&& all_digits(frac_digits(t))
    &&& int_digits(t).len() + frac_digits(t).len() > 0
}

pub proof fn lemma_dot_index_bounds(t: Seq<char>)
    ensures
        0 <= dot_index(t) <= t.len(),
        dot_index(t) < t.len() ==> t[dot_index(t)] == '.',
        forall|i: int| 0 <= i < dot_index(t) ==> t[i] != '.',
    decreases t.len(),
{
    if t.len() > 0 && t[0] != '.' {
        lemma_dot_index_bounds(t.drop_first());
        assert forall|i: int| 0 <= i < dot_index(t) implies t[i] != '.' by {
            if i > 0 {
                assert(t.drop_first()[i - 1] != '.');
            }
        }
    }
}

/// The first-dot index is pinned by what stands before and at it.
pub proof fn lemma_dot_index_at(t: Seq<char>, k: int)
    requires
        0 <= k <= t.len(),
        forall|i: int| 0 <= i < k ==> t[i] != '.',
        k == t.len() || t[k] == '.',
    ensures
        dot_index(t) == k,
    decreases t.len(),
{
    if t.len() > 0 && t[0] != '.' {
        lemma_dot_index_at(t.drop_first(), k - 1);
    }
}

/// How many leading zeros a digit string sheds when printed; the last
/// character always stays.
pub open spec fn lead_zeros(d: Seq<char>) -> int
    decreases d.len(),
{
    if d.len() <= 1 || d[0] != '0' {
        0
    } else {
        1 + lead_zeros(d.drop_first())
    }
}

/// A digit string as it prints: leading zeros shed, empty printing as "0".
pub open spec fn canon_int_digits(d: Seq<char>) -> Seq<char> {
    if d.len() == 0 {
        seq!['0']
    } else {
        d.skip(lead_zeros(d))
    }
}

pub proof fn lemma_lead_zeros_at(d: Seq<char>, z: int)
    requires
        0 <= z,
        d.len() == 0 ==> z == 0,
        d.len() > 0 ==> z < d.len(),
        forall|i: int| 0 <= i < z ==> d[i] == '0',
        z == d.len() - 1 || d.len() == 0 || d[z] != '0',
    ensures
        lead_zeros(d) == z,
    decreases d.len(),
{
    if d.len() > 1 && d[0] == '0' && z > 0 {
        lemma_lead_zeros_at(d.drop_first(), z - 1);
    }
}

/// A digit-value string incremented by one, carrying into a new leading
/// digit when every digit was nine.
pub open spec fn inc_vals(v: Seq<int>) -> Seq<int>
    decreases v.len(),
{
    if v.len() == 0 {
        seq![1]
    } else if v.last() < 9 {
        v.drop_last().push(v.last() + 1)
    } else {
        inc_vals(v.drop_last()).push(0)
    }
}

/// Digit values rendered as characters.
pub open spec fn chars_of_vals(v: Seq<int>) -> Seq<char> {
    Seq::new(v.len(), |i: int| digit_char(v[i]))
}

pub open spec fn digit_vals(d: Seq<char>) -> Seq<int> {
    d.map_values(|c: char| digit_val(c))
}

proof fn lemma_inc_vals_bounds(v: Seq<int>)
    requires
        forall|i: int| 0 <= i < v.len() ==> 0 <= #[trigger] v[i] <= 9,
    ensures
        inc_vals(v).len() == v.len() || inc_vals(v).len() == v.len() + 1,
        inc_vals(v).len() > 0,
        forall|i: int| 0 <= i < inc_vals(v).len() ==> 0 <= #[trigger] inc_vals(v)[i] <= 9,
    decreases v.len(),
{
    if v.len() > 0 && v.last() >= 9 {
        lemma_inc_vals_bounds(v.drop_last());
    }
}

/// A digit character survives the round trip through its value.
pub proof fn lemma_digit_roundtrip(c: char)
    requires
        is_digit(c),
    ensures
        0 <= digit_val(c) <= 9,
        digit_char(digit_val(c)) == c,
{
    vstd::utf8::char_u32_cast(c, c as u32);
    vstd::utf8::char_u32_cast('0', '0' as u32);
    vstd::utf8::char_u32_cast('1', '1' as u32);
    vstd::utf8::char_u32_cast('2', '2' as u32);
    vstd::utf8::char_u32_cast('3', '3' as u32);
    vstd::utf8::char_u32_cast('4', '4' as u32);
    vstd::utf8::char_u32_cast('5', '5' as u32);
    vstd::utf8::char_u32_cast('6', '6' as u32);
    vstd::utf8::char_u32_cast('7', '7' as u32);
    vstd::utf8::char_u32_cast('8', '8' as u32);
    vstd::utf8::char_u32_cast('9', '9' as u32);
}

/// The digit values of decimal text cut to two decimals, the third decimal
/// digit rounding the second up; the last two values are the decimals.
pub open spec fn comp_vals_rounded(s: Seq<char>) -> Seq<int> {
    let t = unsigned_part(s);
    let f = frac_digits(t);
    let f0: int = if f.len() > 0 { digit_val(f[0]) } else { 0 };
    let f1: int = if f.len() > 1 { digit_val(f[1]) } else { 0 };
    let roundup = f.len() > 2 && digit_val(f[2]) >= 5;
    let comb = digit_vals(int_digits(t)) + seq![f0, f1];
    if roundup {
        inc_vals(comb)
    } else {
        comb
    }
}

/// Exposure compensation printed to exactly two decimal places, the third
/// decimal digit rounding the second up.
pub open spec fn comp_2dp(s: Seq<char>) -> Seq<char> {
    let sign: Seq<char> = if s.len() > 0 && s[0] == '-' { seq!['-'] } else { Seq::empty() };
    let comb2 = comp_vals_rounded(s);
    let ilen = comb2.len() - 2;
    sign + canon_int_digits(chars_of_vals(comb2.take(ilen))) + seq!['.'] + chars_of_vals(
        comb2.skip(ilen),
    )
}

/// Adds one to a little-endian-carried digit vector, in print order.
#[verifier::loop_isolation(false)]
fn inc_digit_vec(vals: &mut Vec<u8>)
    requires
        forall|k: int| 0 <= k < old(vals)@.len() ==> #[trigger] old(vals)@[k] <= 9,
    ensures
        final(vals)@.map_values(|x: u8| x as int) == inc_vals(
            old(vals)@.map_values(|x: u8| x as int),
        ),
        forall|k: int| 0 <= k < final(vals)@.len() ==> #[trigger] final(vals)@[k] <= 9,
        final(vals)@.len() >= old(vals)@.len(),
{
    let ghost orig: Seq<int> = vals@.map_values(|x: u8| x as int);
    let mut j: usize = vals.len();
    proof {
        assert(orig.take(j as int) =~= orig);
        assert(inc_vals(orig) =~= inc_vals(orig.take(j as int)) + Seq::new(
            (orig.len() - j) as nat,
            |k: int| 0,
        ));
    }
    loop
        invariant
            j <= vals@.len(),
            vals@.len() == orig.len(),
            forall|k: int| 0 <= k < orig.len() ==> 0 <= #[trigger] orig[k] <= 9,
            forall|k: int| 0 <= k < j ==> #[trigger] vals@[k] as int == orig[k],
            forall|k: int| j <= k < vals@.len() ==> #[trigger] vals@[k] == 0,
            inc_vals(orig) =~= inc_vals(orig.take(j as int)) + Seq::new(
                (orig.len() - j) as nat,
                |k: int| 0,
            ),
        decreases j,
    {
        if j == 0 {
            vals.insert(0, 1);
            proof {
                assert(inc_vals(orig.take(0)) =~= seq![1int]);
                assert(vals@.map_values(|x: u8| x as int) =~= inc_vals(orig));
            }
            break;
        }
        let d: u8 = vals[j - 1];
        let ghost oldj = j as int;
        if d < 9 {
            vals[j - 1] = d + 1;
            proof {
                assert(orig.take(oldj).drop_last() =~= orig.take(oldj - 1));
                assert(inc_vals(orig.take(oldj)) =~= orig.take(oldj - 1).push(d + 1));
                assert(vals@.map_values(|x: u8| x as int) =~= inc_vals(orig));
            }
            break;
        }
        vals[j - 1] = 0;
        j = j - 1;
        proof {
            assert(orig.take(oldj).drop_last() =~= orig.take(oldj - 1));
            assert(inc_vals(orig.take(oldj)) =~= inc_vals(orig.take(oldj - 1)).push(0));
            assert(inc_vals(orig) =~= inc_vals(orig.take(j as int)) + Seq::new(
                (orig.len() - j) as nat,
                |k: int| 0,
            ));
        }
    }
    proof {
        lemma_inc_vals_bounds(orig);
        assert(vals@.map_values(|x: u8| x as int) =~= inc_vals(orig));
    }
}

/// Collects the rounded two-decimal digit values of decimal text.
#[verifier::loop_isolation(false)]
#[verifier::rlimit(60)]
fn comp_digit_vec(s: &str) -> (vals: Vec<u8>)
    requires
        is_number_text(s@),
    ensures
        vals@.map_values(|x: u8| x as int) == comp_vals_rounded(s@),
        forall|k: int| 0 <= k < vals@.len() ==> #[trigger] vals@[k] <= 9,
        vals@.len() >= 2,
{
    let len = s.unicode_len();
    let mut start: usize = 0;
    if len > 0 {
        let c0 = s.get_char(0);
        if c0 == '-' || c0 == '+' {
            start = 1;
        }
    }
    let ghost t: Seq<char> = s@.skip(start as int);
    proof {
        assert(t =~= unsigned_part(s@));
        lemma_dot_index_bounds(t);
    }
    // Find the dot, if any.
    let mut dotabs: usize = start;
    while dotabs < len && s.get_char(dotabs) != '.'
        invariant
            start <= dotabs <= len,
            forall|k: int| 0 <= k < dotabs - start ==> #[trigger] t[k] != '.',
        decreases len - dotabs,
    {
        dotabs = dotabs + 1;
    }
    let ghost dix: int = dotabs - start;
    proof {
        lemma_dot_index_at(t, dix);
    }
    // Collect the integer digits as values.
    let mut vals: Vec<u8> = Vec::new();
    let mut i: usize = start;
    while i < dotabs
        invariant
            start <= i <= dotabs,
            vals@.len() == i - start,
            forall|k: int| 0 <= k < vals@.len() ==> #[trigger] vals@[k] <= 9,
            forall|k: int| 0 <= k < vals@.len() ==> vals@[k] as int == digit_val(
                #[trigger] int_digits(t)[k],
            ),
        decreases dotabs - i,
    {
        let c = s.get_char(i);
        proof {
            assert(int_digits(t)[i - start] == c);
            assert(is_digit(c));
        }
        vals.push(((c as u32) - 48) as u8);
        i = i + 1;
    }
    // The first two fraction digits, zero-padded, and the rounding digit.
    let fraclen: usize = if dotabs < len { len - dotabs - 1 } else { 0 };
    proof {
        assert(dix < t.len() ==> frac_digits(t) =~= t.skip(dix + 1));
        assert(fraclen == frac_digits(t).len());
    }
    let f0: u8 = if fraclen > 0 {
        let c = s.get_char(dotabs + 1);
        proof {
            assert(frac_digits(t)[0] == c);
        }
        ((c as u32) - 48) as u8
    } else {
        0
    };
    let f1: u8 = if fraclen > 1 {
        let c = s.get_char(dotabs + 2);
        proof {
            assert(frac_digits(t)[1] == c);
        }
        ((c as u32) - 48) as u8
    } else {
        0
    };
    let roundup: bool = if fraclen > 2 {
        let c = s.get_char(dotabs + 3);
        proof {
            assert(frac_digits(t)[2] == c);
            assert(is_digit(c));
        }
        (c as u32) >= 53
    } else {
        false
    };
    vals.push(f0);
    vals.push(f1);
    let ghost comb: Seq<int> = digit_vals(int_digits(t)) + seq![f0 as int, f1 as int];
    proof {
        assert(vals@.map_values(|x: u8| x as int) =~= comb);
    }
    if roundup {
        inc_digit_vec(&mut vals);
    }
    proof {
        assert(vals@.map_values(|x: u8| x as int) =~= comp_vals_rounded(s@));
    }
    vals
}

/// Prints decimal text to exactly two decimal places, rounding the second
/// decimal digit up on a third digit of five or more.
#[verifier::loop_isolation(false)]
#[verifier::rlimit(60)]
pub fn format_comp_2dp(s: &str) -> (r: String)
    requires
        is_number_text(s@),
    ensures
        r@ == comp_2dp(s@),
{
    let len = s.unicode_len();
    let mut neg: bool = false;
    if len > 0 {
        let c0 = s.get_char(0);
        if c0 == '-' {
            neg = true;
        }
    }
    let vals = comp_digit_vec(s);
    let ghost comb2: Seq<int> = comp_vals_rounded(s@);
    proof {
        assert(vals@.len() >= 2);
    }
    let ilen: usize = vals.len() - 2;
    // Shed leading zeros of the integer part.
    let mut z: usize = 0;
    while z + 1 < ilen && vals[z] == 0
        invariant
            0 <= z <= ilen,
            ilen > 0 ==> z < ilen,
            forall|k: int| 0 <= k < z ==> #[trigger] vals@[k] == 0,
        decreases ilen - z,
    {
        z = z + 1;
    }
    let ghost ichars: Seq<char> = chars_of_vals(comb2.take(ilen as int));
    proof {
        if ilen > 0 {
            assert forall|k: int| 0 <= k < z implies #[trigger] ichars[k] == '0' by {
                assert(vals@[k] == 0);
            }
            lemma_lead_zeros_at(ichars, z as int);
        }
    }
    let mut out = String::new();
    if neg {
        out.append("-");
    }
    proof {
        reveal_strlit("-");
        reveal_strlit("0");
        reveal_strlit(".");
        assert(out@ =~= (if s@.len() > 0 && s@[0] == '-' { seq!['-'] } else { Seq::<char>::empty() }));
    }
    let ghost sign: Seq<char> = out@;
    if ilen == 0 {
        out.append("0");
        proof {
            assert(canon_int_digits(ichars) =~= seq!['0']);
            assert(out@ =~= sign + canon_int_digits(ichars));
        }
    } else {
        let mut p: usize = z;
        while p < ilen
            invariant
                z <= p <= ilen,
                out@ =~= sign + ichars.subrange(z as int, p as int),
            decreases ilen - p,
        {
            out.append(digit_str(vals[p]));
            proof {
                assert(ichars.subrange(z as int, p + 1) =~= ichars.subrange(z as int, p as int).push(
                    digit_char(comb2[p as int]),
                ));
            }
            p = p + 1;
        }
        proof {
            assert(ichars.subrange(z as int, ilen as int) =~= ichars.skip(z as int));
            assert(canon_int_digits(ichars) =~= ichars.skip(lead_zeros(ichars)));
            assert(out@ =~= sign + canon_int_digits(ichars));
        }
    }
    let ghost head: Seq<char> = out@;
    out.append(".");
    out.append(digit_str(vals[ilen]));
    out.append(digit_str(vals[ilen + 1]));
    proof {
        assert(chars_of_vals(comb2.skip(ilen as int)) =~= seq![
            digit_char(comb2[ilen as int]),
            digit_char(comb2[ilen + 1]),
        ]);
        assert(out@ =~= head + seq!['.'] + chars_of_vals(comb2.skip(ilen as int)));
        assert(out@ =~= comp_2dp(s@));
    }
    out
}

/// Checks that text is decimal: an optional sign, digits around at most one
/// dot, and at least one digit.
#[verifier::loop_isolation(false)]
pub fn check_number_text(s: &str) -> (r: bool)
    ensures
        r == is_number_text(s@),
{
    let len = s.unicode_len();
    let mut start: usize = 0;
    if len > 0 {
        let c0 = s.get_char(0);
        if c0 == '-' || c0 == '+' {
            start = 1;
        }
    }
    let ghost t: Seq<char> = s@.skip(start as int);
    proof {
        assert(t =~= unsigned_part(s@));
        lemma_dot_index_bounds(t);
    }
    let mut i: usize = start;
    let mut seen_dot: bool = false;
    let mut digits: usize = 0;
    let ghost mut dotpos: int = t.len() as int;
    while i < len
        invariant
            start <= i <= len,
            len == s@.len(),
            seen_dot <==> dotpos < i - start,
            0 <= dotpos <= t.len(),
            !seen_dot ==> dotpos == t.len(),
            seen_dot ==> t[dotpos] == '.',
            forall|k: int| 0 <= k < i - start && k != dotpos ==> is_digit(#[trigger] t[k]),
            forall|k: int| 0 <= k < i - start && k < dotpos ==> #[trigger] t[k] != '.',
            digits <= i,
            digits > 0 <==> (exists|k: int| 0 <= k < i - start && is_digit(#[trigger] t[k])),
        decreases len - i,
    {
        let c = s.get_char(i);
        let code: u32 = c as u32;
        if c == '.' {
            if seen_dot {
                proof {
                    lemma_dot_index_at(t, dotpos);
                    assert(frac_digits(t)[i - start - dotpos - 1] == c);
                    assert(!all_digits(frac_digits(t)));
                }
                return false;
            }
            seen_dot = true;
            proof {
                dotpos = i - start;
            }
        } else if code < 48 || code > 57 {
            proof {
                if i - start < dotpos {
                    lemma_dot_index_bounds(t);
                    assert(dot_index(t) >= 0);
                    if dot_index(t) > i - start {
                        assert(int_digits(t)[i - start] == c);
                        assert(!all_digits(int_digits(t)));
                    } else {
                        assert(forall|k: int| 0 <= k < dot_index(t) ==> #[trigger] t[k] != '.');
                        assert(dot_index(t) < t.len() ==> t[dot_index(t)] == '.');
                        assert(dot_index(t) == t.len() || t[dot_index(t)] == '.');
                        assert(false);
                    }
                } else {
                    lemma_dot_index_at(t, dotpos);
                    assert(frac_digits(t)[i - start - dotpos - 1] == c);
                    assert(!all_digits(frac_digits(t)));
                }
            }
            return false;
        } else {
            digits = digits + 1;
            proof {
                assert(is_digit(t[i - start]));
            }
        }
        i = i + 1;
    }
    proof {
        lemma_dot_index_at(t, dotpos);
    }
    if digits == 0 {
        proof {
            assert(forall|k: int| 0 <= k < int_digits(t).len() ==> !is_digit(
                #[trigger] int_digits(t)[k],
            ) || false);
            if int_digits(t).len() + frac_digits(t).len() > 0 {
                if int_digits(t).len() > 0 {
                    assert(t[0] == int_digits(t)[0]);
                } else {
                    assert(t[dotpos + 1] == frac_digits(t)[0]);
                }
            }
        }
        return false;
    }
    proof {
        assert(all_digits(int_digits(t)));
        assert(all_digits(frac_digits(t)));
        let k = choose|k: int| 0 <= k < t.len() && is_digit(#[trigger] t[k]);
        if k < dotpos {
            assert(int_digits(t).len() > 0);
        } else {
            assert(k > dotpos);
            assert(frac_digits(t).len() > 0);
        }
    }
    true
}

} // verus!
