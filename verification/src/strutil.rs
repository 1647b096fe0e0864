//! Verified string utilities: equality and prefix tests, canonical decimal
//! printing and parsing, comma splitting and lowercase hex encoding. These are
//! the character-level operations the codec, the rule tables and the metadata
//! store build on.

use vstd::prelude::*;
use vstd::string::StrSliceExecFns;
use vstd::string::StringExecFns;

verus! {

/// Character equality test for two string slices.
pub fn str_eq(a: &str, b: &str) -> (r: bool)
    ensures
        r == (a@ == b@),
{
    let sa: String = a.to_owned();
    let sb: String = b.to_owned();
    sa == sb
}

/// `p` is a prefix of `s`.
pub open spec fn is_prefix(p: Seq<char>, s: Seq<char>) -> bool {
    p.len() <= s.len() && p == s.subrange(0, p.len() as int)
}

pub fn starts_with_str(s: &str, p: &str) -> (r: bool)
    ensures
        r == is_prefix(p@, s@),
{
    let sl = s.unicode_len();
    let pl = p.unicode_len();
    if pl > sl {
        return false;
    }
    str_eq(s.substring_char(0, pl), p)
}

/// The decimal digit characters.
pub open spec fn is_digit(c: char) -> bool {
    '0' <= c && c <= '9'
}

pub open spec fn digit_char(d: int) -> char {
    ((48 + d) as u8) as char
}

/// Canonical decimal rendering of a natural number (no sign, no leading
/// zeros).
pub open spec fn dec_str_of(n: nat) -> Seq<char>
    decreases n,
{
    if n < 10 {
        seq![digit_char(n as int)]
    } else {
        dec_str_of(n / 10).push(digit_char((n % 10) as int))
    }
}

/// Value of a digit string, most significant digit first.
pub open spec fn digits_val(s: Seq<char>) -> int
    decreases s.len(),
{
    if s.len() == 0 {
        0
    } else {
        digits_val(s.drop_last()) * 10 + (s.last() as int - 48)
    }
}

/// The strings that `dec_str_of` produces: at least one digit, and no leading
/// zero unless the string is exactly "0".
pub open spec fn is_canonical_dec(s: Seq<char>) -> bool {
    &&& s.len() > 0
    &&& forall|i: int| 0 <= i < s.len() ==> is_digit(#[trigger] s[i])
    &&& (s.len() > 1 ==> s[0] != '0')
}

pub proof fn lemma_dec_str_of_canonical(n: nat)
    ensures
        is_canonical_dec(dec_str_of(n)),
        digits_val(dec_str_of(n)) == n,
        n < 10 <==> dec_str_of(n).len() == 1,
    decreases n,
{
    if n < 10 {
        let s = dec_str_of(n);
        assert(s =~= seq![digit_char(n as int)]);
        lemma_digit_char_val(n as int);
        assert(s.drop_last() =~= Seq::<char>::empty());
        assert(digits_val(Seq::<char>::empty()) == 0);
        assert(digits_val(s) == s.last() as int - 48);
    } else {
        lemma_dec_str_of_canonical(n / 10);
        lemma_digit_char_val((n % 10) as int);
        let s = dec_str_of(n);
        let p = dec_str_of(n / 10);
        assert(s =~= p.push(digit_char((n % 10) as int)));
        assert(s.drop_last() =~= p);
        assert(digits_val(s) == digits_val(p) * 10 + (s.last() as int - 48));
        assert(forall|i: int| 0 <= i < s.len() ==> is_digit(#[trigger] s[i])) by {
            assert(forall|i: int|
                0 <= i < p.len() ==> #[trigger] s[i] == p[i] && is_digit(p[i]));
            assert(is_digit(s[s.len() - 1]));
        }
    }
}

/// The code point of a digit character is 48 plus its value.
proof fn lemma_digit_char_val(d: int)
    requires
        0 <= d < 10,
    ensures
        digit_char(d) as int == 48 + d,
        is_digit(digit_char(d)),
        d != 0 ==> digit_char(d) != '0',
{
}

pub proof fn lemma_canonical_is_dec_str(s: Seq<char>)
    requires
        is_canonical_dec(s),
    ensures
        digits_val(s) >= 0,
        s =~= dec_str_of(digits_val(s) as nat),
        s.len() > 1 ==> digits_val(s) >= 10,
    decreases s.len(),
{
    if s.len() == 1 {
        assert(s.drop_last() =~= Seq::<char>::empty());
        assert(digits_val(Seq::<char>::empty()) == 0);
        assert(s.last() == s[0]);
        assert(digits_val(s) == s[0] as int - 48);
        assert(0 <= digits_val(s) < 10);
        assert(dec_str_of(digits_val(s) as nat) =~= seq![digit_char(digits_val(s))]);
        assert(digit_char(digits_val(s)) == s[0]);
        assert(s =~= seq![s[0]]);
    } else {
        let p = s.drop_last();
        assert(is_canonical_dec(p)) by {
            assert(forall|i: int| 0 <= i < p.len() ==> #[trigger] p[i] == s[i]);
        }
        lemma_canonical_is_dec_str(p);
        let v = digits_val(s);
        let pv = digits_val(p);
        assert(is_digit(s.last()));
        assert(v == pv * 10 + (s.last() as int - 48));
        assert(pv >= 1) by {
            if p.len() == 1 {
                assert(p.drop_last() =~= Seq::<char>::empty());
                assert(digits_val(Seq::<char>::empty()) == 0);
                assert(p.last() == p[0]);
                assert(pv == p[0] as int - 48);
                assert(p[0] != '0' && is_digit(p[0]));
            }
        }
        assert(v >= 10);
        assert(dec_str_of(v as nat) == dec_str_of((v as nat) / 10).push(
            digit_char(((v as nat) % 10) as int),
        ));
        assert(v / 10 == pv && v % 10 == s.last() as int - 48);
        assert(digit_char(s.last() as int - 48) == s.last());
        assert(s =~= p.push(s.last()));
    }
}

/// A digit string's value only grows as more digits are appended.
pub proof fn lemma_digits_val_take_le(s: Seq<char>, j: int)
    requires
        0 <= j <= s.len(),
        forall|i: int| 0 <= i < s.len() ==> is_digit(#[trigger] s[i]),
    ensures
        0 <= digits_val(s.take(j)) <= digits_val(s),
    decreases s.len() - j,
{
    if j == s.len() {
        assert(s.take(j) =~= s);
        lemma_digits_val_nonneg(s);
    } else {
        lemma_digits_val_take_le(s, j + 1);
        let t = s.take(j + 1);
        assert(t.drop_last() =~= s.take(j));
        assert(digits_val(t) == digits_val(s.take(j)) * 10 + (s[j] as int - 48));
        lemma_digits_val_nonneg(s.take(j));
    }
}

pub proof fn lemma_digits_val_nonneg(s: Seq<char>)
    requires
        forall|i: int| 0 <= i < s.len() ==> is_digit(#[trigger] s[i]),
    ensures
        digits_val(s) >= 0,
    decreases s.len(),
{
    if s.len() > 0 {
        assert(forall|i: int|
            0 <= i < s.drop_last().len() ==> is_digit(#[trigger] s.drop_last()[i]));
        lemma_digits_val_nonneg(s.drop_last());
    }
}

/// One-character string for a decimal digit.
pub fn digit_str(d: u8) -> (r: &'static str)
    requires
        d < 10,
    ensures
        r@ =~= seq![digit_char(d as int)],
{
    proof {
        reveal_strlit("0");
        reveal_strlit("1");
        reveal_strlit("2");
        reveal_strlit("3");
        reveal_strlit("4");
        reveal_strlit("5");
        reveal_strlit("6");
        reveal_strlit("7");
        reveal_strlit("8");
        reveal_strlit("9");
    }
    match d {
        0 => "0",
        1 => "1",
        2 => "2",
        3 => "3",
        4 => "4",
        5 => "5",
        6 => "6",
        7 => "7",
        8 => "8",
        _ => "9",
    }
}

/// Canonical decimal rendering of `n`.
pub fn usize_to_string(n: usize) -> (r: String)
    ensures
        r@ == dec_str_of(n as nat),
    decreases n,
{
    if n < 10 {
        digit_str(n as u8).to_owned()
    } else {
        let front = usize_to_string(n / 10);
        front.concat(digit_str((n % 10) as u8))
    }
}

/// Parses a canonical decimal string. Returns `None` for the empty string,
/// any non-digit character, a leading zero, or a value over `usize::MAX`.
pub fn parse_dec(s: &str) -> (r: Option<usize>)
    ensures
        match r {
            Some(i) => s@ == dec_str_of(i as nat),
            None => forall|i: nat| i <= usize::MAX ==> s@ != dec_str_of(i),
        },
{
    let n = s.unicode_len();
    if n == 0 {
        proof {
            lemma_not_canonical(s@);
        }
        return None;
    }
    let first = s.get_char(0);
    if n > 1 && first == '0' {
        proof {
            lemma_not_canonical(s@);
        }
        return None;
    }
    let mut acc: usize = 0;
    let mut i: usize = 0;
    while i < n
        invariant
            0 <= i <= n,
            n == s@.len(),
            forall|j: int| 0 <= j < i ==> is_digit(#[trigger] s@[j]),
            acc == digits_val(s@.take(i as int)),
            n > 1 ==> s@[0] != '0',
        decreases n - i,
    {
        let c = s.get_char(i);
        if c < '0' || c > '9' {
            proof {
                lemma_not_canonical(s@);
            }
            return None;
        }
        let d = (c as u32 - 48) as usize;
        proof {
            assert(s@.take(i + 1).drop_last() =~= s@.take(i as int));
            assert(digits_val(s@.take(i + 1)) == acc * 10 + d);
        }
        if acc > usize::MAX / 10 || (acc == usize::MAX / 10 && d > usize::MAX % 10) {
            proof {
                lemma_overflow_no_fit(s@, i as int);
            }
            return None;
        }
        acc = acc * 10 + d;
        i = i + 1;
    }
    proof {
        assert(s@.take(n as int) =~= s@);
        lemma_canonical_is_dec_str(s@);
    }
    Some(acc)
}

/// A non-canonical string differs from every `dec_str_of` rendering.
proof fn lemma_not_canonical(s: Seq<char>)
    requires
        !is_canonical_dec(s),
    ensures
        forall|i: nat| s != dec_str_of(i),
{
    assert forall|i: nat| s != dec_str_of(i) by {
        lemma_dec_str_of_canonical(i);
    }
}

/// If the value of an all-digit prefix (with no leading zero) already
/// overflows, no representable number renders to `s`.
proof fn lemma_overflow_no_fit(s: Seq<char>, i: int)
    requires
        0 <= i < s.len(),
        forall|j: int| 0 <= j <= i ==> is_digit(#[trigger] s[j]),
        s.len() > 1 ==> s[0] != '0',
        digits_val(s.take(i + 1)) > usize::MAX,
    ensures
        forall|k: nat| k <= usize::MAX ==> s != dec_str_of(k),
{
    assert forall|k: nat| k <= usize::MAX implies s != dec_str_of(k) by {
        if s == dec_str_of(k) {
            lemma_dec_str_of_canonical(k);
            lemma_digits_val_take_le(s, i + 1);
        }
    }
}

/// Splitting a character sequence on a separator, keeping empty segments, as
/// `str::split` does: the empty input yields one empty segment.
pub open spec fn split_on(s: Seq<char>, sep: char) -> Seq<Seq<char>>
    decreases s.len(),
{
    if s.len() == 0 {
        seq![Seq::<char>::empty()]
    } else if s.first() == sep {
        seq![Seq::<char>::empty()] + split_on(s.drop_first(), sep)
    } else {
        let rest = split_on(s.drop_first(), sep);
        seq![seq![s.first()] + rest.first()] + rest.drop_first()
    }
}

pub proof fn lemma_split_on_len(s: Seq<char>, sep: char)
    ensures
        split_on(s, sep).len() >= 1,
    decreases s.len(),
{
    if s.len() > 0 {
        lemma_split_on_len(s.drop_first(), sep);
    }
}

/// Splits on commas, exactly as the comma-separated client header lists are
/// read: no trimming, empty segments kept.
pub fn split_commas(s: &str) -> (r: Vec<String>)
    ensures
        r.deep_view() == split_on(s@, ','),
{
    let n = s.unicode_len();
    let mut out: Vec<String> = Vec::new();
    let mut cur: String = String::new();
    let mut i: usize = 0;
    proof {
        lemma_split_on_len(s@, ',');
        let whole = split_on(s@, ',');
        assert(s@.skip(0) =~= s@);
        assert(out.deep_view() =~= Seq::<Seq<char>>::empty());
        assert(cur@ + whole.first() =~= whole.first());
        assert(out.deep_view() + seq![cur@ + whole.first()] + whole.drop_first() =~= whole);
    }
    while i < n
        invariant
            0 <= i <= n,
            n == s@.len(),
            split_on(s@, ',') == out.deep_view() + seq![cur@ + split_on(s@.skip(i as int), ',').first()]
                + split_on(s@.skip(i as int), ',').drop_first(),
        decreases n - i,
    {
        let ghost rem = s@.skip(i as int);
        let ghost rest = split_on(s@.skip(i + 1), ',');
        let ghost out0 = out.deep_view();
        let ghost cur0 = cur@;
        let c = s.get_char(i);
        proof {
            assert(rem.len() > 0 && rem.first() == s@[i as int]);
            assert(rem.drop_first() =~= s@.skip(i + 1));
            lemma_split_on_len(s@.skip(i + 1), ',');
        }
        if c == ',' {
            proof {
                assert(split_on(rem, ',') == seq![Seq::<char>::empty()] + rest);
            }
            out.push(cur);
            cur = String::new();
            proof {
                assert(out.deep_view() =~= out0.push(cur0));
                assert(split_on(rem, ',').first() =~= Seq::<char>::empty());
                assert(split_on(rem, ',').drop_first() =~= rest);
                assert(cur0 + split_on(rem, ',').first() =~= cur0);
                assert(rest =~= seq![rest.first()] + rest.drop_first());
                assert(cur@ + rest.first() =~= rest.first());
                assert(out.deep_view() + seq![cur@ + rest.first()] + rest.drop_first() =~= out0
                    + seq![cur0 + split_on(rem, ',').first()] + split_on(rem, ',').drop_first());
            }
        } else {
            proof {
                assert(split_on(rem, ',') == seq![seq![rem.first()] + rest.first()]
                    + rest.drop_first());
            }
            cur.append(s.substring_char(i, i + 1));
            proof {
                assert(split_on(rem, ',').first() == seq![rem.first()] + rest.first());
                assert(split_on(rem, ',').drop_first() =~= rest.drop_first());
                assert(s@.subrange(i as int, i + 1) =~= seq![s@[i as int]]);
                assert(cur@ =~= cur0 + seq![rem.first()]);
                assert(cur@ + rest.first() =~= cur0 + (seq![rem.first()] + rest.first()));
                assert(out.deep_view() + seq![cur@ + rest.first()] + rest.drop_first() =~= out0
                    + seq![cur0 + split_on(rem, ',').first()] + split_on(rem, ',').drop_first());
            }
        }
        i = i + 1;
    }
    let ghost out0 = out.deep_view();
    let ghost cur0 = cur@;
    proof {
        assert(s@.skip(n as int) =~= Seq::<char>::empty());
        assert(split_on(s@.skip(n as int), ',') == seq![Seq::<char>::empty()]);
        assert(split_on(s@.skip(n as int), ',').first() =~= Seq::<char>::empty());
        assert(split_on(s@.skip(n as int), ',').drop_first() =~= Seq::<Seq<char>>::empty());
        assert(cur0 + Seq::<char>::empty() =~= cur0);
        assert(out0 + seq![cur0] + Seq::<Seq<char>>::empty() =~= out0.push(cur0));
        assert(out0.push(cur0) =~= split_on(s@, ','));
    }
    out.push(cur);
    proof {
        assert(out.deep_view() =~= out0.push(cur0));
    }
    out
}

/// Lowercase hex digit for a value below 16.
pub open spec fn hex_digit_char(d: int) -> char {
    if d < 10 {
        ((48 + d) as u8) as char
    } else {
        ((87 + d) as u8) as char
    }
}

/// Lowercase hex rendering of a byte sequence, two digits per byte.
pub open spec fn hex_of(b: Seq<u8>) -> Seq<char> {
    Seq::new(
        b.len() * 2,
        |i: int|
            if i % 2 == 0 {
                hex_digit_char(b[i / 2] as int / 16)
            } else {
                hex_digit_char(b[i / 2] as int % 16)
            },
    )
}

/// One-character string for a hex digit.
fn hex_digit_str(d: u8) -> (r: &'static str)
    requires
        d < 16,
    ensures
        r@ =~= seq![hex_digit_char(d as int)],
{
    if d < 10 {
        digit_str(d)
    } else {
        proof {
            reveal_strlit("a");
            reveal_strlit("b");
            reveal_strlit("c");
            reveal_strlit("d");
            reveal_strlit("e");
            reveal_strlit("f");
        }
        match d {
            10 => "a",
            11 => "b",
            12 => "c",
            13 => "d",
            14 => "e",
            _ => "f",
        }
    }
}

/// Lowercase hex encoding of a byte slice.
pub fn hex_encode(bytes: &[u8]) -> (r: String)
    ensures
        r@ == hex_of(bytes@),
{
    let n = bytes.len();
    let mut out = String::new();
    let mut i: usize = 0;
    while i < n
        invariant
            0 <= i <= n,
            n == bytes@.len(),
            out@ == hex_of(bytes@.take(i as int)),
        decreases n - i,
    {
        let b = bytes[i];
        let hi = b / 16;
        let lo = b % 16;
        out.append(hex_digit_str(hi));
        out.append(hex_digit_str(lo));
        proof {
            assert(hex_of(bytes@.take(i as int)).push(hex_digit_char(hi as int)).push(
                hex_digit_char(lo as int),
            ) =~= hex_of(bytes@.take(i + 1)));
        }
        i = i + 1;
    }
    proof {
        assert(bytes@.take(n as int) =~= bytes@);
    }
    out
}

} // verus!
