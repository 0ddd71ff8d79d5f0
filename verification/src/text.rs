//! Text-level building blocks: decimal digit strings, whitespace trimming,
//! splitting and joining on a separator character, and lexicographic order
//! on character sequences. Everything here is specified over `Seq<char>`.

use vstd::prelude::*;

verus! {

// ---------------------------------------------------------------------------
// Decimal digits
// ---------------------------------------------------------------------------

/// The numeric value of a decimal digit character, or -1 for any other character.
pub open spec fn digit_val(c: char) -> int {
    if c == '0' {
        0
    } else if c == '1' {
        1
    } else if c == '2' {
        2
    } else if c == '3' {
        3
    } else if c == '4' {
        4
    } else if c == '5' {
        5
    } else if c == '6' {
        6
    } else if c == '7' {
        7
    } else if c == '8' {
        8
    } else if c == '9' {
        9
    } else {
        -1
    }
}

/// The decimal digit character for a value in 0..10.
pub open spec fn digit_char(d: int) -> char {
    if d == 0 {
        '0'
    } else if d == 1 {
        '1'
    } else if d == 2 {
        '2'
    } else if d == 3 {
        '3'
    } else if d == 4 {
        '4'
    } else if d == 5 {
        '5'
    } else if d == 6 {
        '6'
    } else if d == 7 {
        '7'
    } else if d == 8 {
        '8'
    } else {
        '9'
    }
}

pub open spec fn is_digit_char(c: char) -> bool {
    digit_val(c) >= 0
}

pub open spec fn all_digits(s: Seq<char>) -> bool {
    forall|i: int| 0 <= i < s.len() ==> is_digit_char(#[trigger] s[i])
}

/// The number denoted by a sequence of decimal digits (most significant first).
pub open spec fn dec_value(s: Seq<char>) -> int
    decreases s.len(),
{
    if s.len() == 0 {
        0
    } else {
        dec_value(s.drop_last()) * 10 + digit_val(s.last())
    }
}

/// The canonical (shortest, no leading zero except for 0 itself) decimal
/// rendering of a natural number.
pub open spec fn dec_digits(n: nat) -> Seq<char>
    decreases n,
    via dec_digits_decreases
{
    if n < 10 {
        seq![digit_char(n as int)]
    } else {
        dec_digits(n / 10).push(digit_char((n % 10) as int))
    }
}

#[via_fn]
proof fn dec_digits_decreases(n: nat) {
    assert(n >= 10 ==> n / 10 < n) by (nonlinear_arith);
}

/// A digit string is canonical when it is nonempty, all digits, and has no
/// leading zero (unless it is exactly "0").
pub open spec fn canonical_digits(s: Seq<char>) -> bool {
    &&& s.len() > 0
    &&& all_digits(s)
    &&& (s[0] != '0' || s.len() == 1)
}

pub proof fn lemma_dec_value_nonneg(s: Seq<char>)
    requires
        all_digits(s),
    ensures
        dec_value(s) >= 0,
    decreases s.len(),
{
    if s.len() > 0 {
        assert(all_digits(s.drop_last())) by {
            assert(forall|i: int|
                0 <= i < s.drop_last().len() ==> s.drop_last()[i] == s[i]);
        }
        lemma_dec_value_nonneg(s.drop_last());
    }
}

/// The canonical rendering consists of digits, is nonempty, and starts with
/// '0' only for the number 0 itself.
pub proof fn lemma_dec_digits_shape(n: nat)
    ensures
        dec_digits(n).len() > 0,
        all_digits(dec_digits(n)),
        dec_digits(n)[0] == '0' <==> n == 0,
        n == 0 ==> dec_digits(n).len() == 1,
        canonical_digits(dec_digits(n)),
    decreases n,
{
    if n < 10 {
    } else {
        assert(n / 10 < n && n / 10 >= 1 && n % 10 < 10) by (nonlinear_arith)
            requires n >= 10;
        lemma_dec_digits_shape(n / 10);
    }
}

/// Reading a canonical digit string and rendering the value gives the string
/// back unchanged.
pub proof fn lemma_dec_digits_of_dec_value(s: Seq<char>)
    requires
        canonical_digits(s),
    ensures
        dec_value(s) >= 0,
        dec_digits(dec_value(s) as nat) == s,
    decreases s.len(),
{
    lemma_dec_value_nonneg(s);
    let v = dec_value(s) as nat;
    if s.len() == 1 {
        assert(s.drop_last() =~= Seq::<char>::empty());
        assert(dec_value(s) == dec_value(s.drop_last()) * 10 + digit_val(s.last()));
        assert(dec_value(s.drop_last()) == 0);
        assert(digit_val(s.last()) >= 0 && digit_val(s.last()) < 10) by {
            assert(is_digit_char(s[0]));
            assert(s.last() == s[0]);
        }
        assert(v < 10);
        assert(digit_char(digit_val(s.last())) == s.last());
        assert(dec_digits(v) =~= s);
    } else {
        let t = s.drop_last();
        assert(all_digits(t)) by {
            assert(forall|i: int| 0 <= i < t.len() ==> t[i] == s[i]);
        }
        assert(t[0] == s[0] && t.len() == s.len() - 1);
        assert(canonical_digits(t));
        lemma_dec_value_nonneg(t);
        lemma_dec_digits_of_dec_value(t);
        let tv = dec_value(t) as nat;
        assert(tv >= 1) by {
            if tv == 0 {
                // a canonical string of value 0 is exactly "0"
                assert(dec_digits(0nat) == t);
                assert(dec_digits(0nat).len() == 1) by {
                    lemma_dec_digits_shape(0nat);
                }
                assert(t[0] == '0') by {
                    lemma_dec_digits_shape(0nat);
                }
                assert(false);
            }
        }
        let d = digit_val(s.last());
        assert(0 <= d < 10);
        assert(v == tv * 10 + d);
        assert(v >= 10) by (nonlinear_arith)
            requires v == tv * 10 + d, tv >= 1, d >= 0;
        assert(v / 10 == tv && v % 10 == d) by (nonlinear_arith)
            requires v == tv * 10 + d, 0 <= d < 10, tv >= 0;
        assert(dec_digits(v) =~= dec_digits(tv).push(digit_char(d)));
        assert(digit_char(d) == s.last());
        assert(dec_digits(v) =~= s);
    }
}

/// A longer digit string never denotes a smaller number: the value of a
/// proper digit prefix is at most the value of the whole.
pub proof fn lemma_dec_value_prefix(s: Seq<char>, k: int)
    requires
        all_digits(s),
        0 <= k <= s.len(),
    ensures
        dec_value(s.take(k)) <= dec_value(s),
    decreases s.len() - k,
{
    if k < s.len() {
        lemma_dec_value_prefix(s, k + 1);
        let t = s.take(k + 1);
        assert(t.drop_last() =~= s.take(k));
        assert(all_digits(s.take(k))) by {
            assert(forall|i: int| 0 <= i < k ==> s.take(k)[i] == s[i]);
        }
        lemma_dec_value_nonneg(s.take(k));
        let p = dec_value(s.take(k));
        assert(dec_value(t) == p * 10 + digit_val(t.last()));
        assert(p * 10 >= p) by (nonlinear_arith)
            requires p >= 0;
        assert(digit_val(t.last()) >= 0) by {
            assert(t.last() == s[k]);
        }
    } else {
        assert(s.take(k) =~= s);
    }
}

// ---------------------------------------------------------------------------
// Executable digit conversions
// ---------------------------------------------------------------------------

/// The one-character string for a decimal digit value.
pub fn digit_str(d: u32) -> (r: &'static str)
    requires
        d < 10,
    ensures
        r@ =~= seq![digit_char(d as int)],
{
    if d == 0 {
        proof { reveal_strlit("0"); }
        "0"
    } else if d == 1 {
        proof { reveal_strlit("1"); }
        "1"
    } else if d == 2 {
        proof { reveal_strlit("2"); }
        "2"
    } else if d == 3 {
        proof { reveal_strlit("3"); }
        "3"
    } else if d == 4 {
        proof { reveal_strlit("4"); }
        "4"
    } else if d == 5 {
        proof { reveal_strlit("5"); }
        "5"
    } else if d == 6 {
        proof { reveal_strlit("6"); }
        "6"
    } else if d == 7 {
        proof { reveal_strlit("7"); }
        "7"
    } else if d == 8 {
        proof { reveal_strlit("8"); }
        "8"
    } else {
        proof { reveal_strlit("9"); }
        "9"
    }
}

/// Renders a number in canonical decimal form.
pub fn u32_to_string(n: u32) -> (r: String)
    ensures
        r@ == dec_digits(n as nat),
    decreases n,
{
    if n < 10 {
        let r = digit_str(n).to_owned();
        assert(r@ =~= dec_digits(n as nat));
        r
    } else {
        proof {
            assert(n / 10 < n) by (nonlinear_arith)
                requires n >= 10;
        }
        let mut r = u32_to_string(n / 10);
        r.append(digit_str(n % 10));
        assert(r@ =~= dec_digits(n as nat));
        r
    }
}

/// Renders a store size in canonical decimal form.
pub fn usize_to_string(n: usize) -> (r: String)
    ensures
        r@ == dec_digits(n as nat),
    decreases n,
{
    if n < 10 {
        let r = digit_str(n as u32).to_owned();
        assert(r@ =~= dec_digits(n as nat));
        r
    } else {
        proof {
            assert(n / 10 < n) by (nonlinear_arith)
                requires n >= 10;
        }
        let mut r = usize_to_string(n / 10);
        r.append(digit_str((n % 10) as u32));
        assert(r@ =~= dec_digits(n as nat));
        r
    }
}

/// The digit value of a character, if it is a decimal digit.
pub fn char_digit(c: char) -> (r: Option<u32>)
    ensures
        r is Some <==> is_digit_char(c),
        r is Some ==> r.unwrap() == digit_val(c),
{
    if c == '0' {
        Some(0)
    } else if c == '1' {
        Some(1)
    } else if c == '2' {
        Some(2)
    } else if c == '3' {
        Some(3)
    } else if c == '4' {
        Some(4)
    } else if c == '5' {
        Some(5)
    } else if c == '6' {
        Some(6)
    } else if c == '7' {
        Some(7)
    } else if c == '8' {
        Some(8)
    } else if c == '9' {
        Some(9)
    } else {
        None
    }
}

/// Reads an unsigned number from a digit string. Succeeds exactly on
/// nonempty all-digit strings whose value fits in a `u32`.
pub fn parse_u32(s: &str) -> (r: Option<u32>)
    ensures
        r is Some <==> s@.len() > 0 && all_digits(s@) && dec_value(s@) <= u32::MAX,
        r is Some ==> r.unwrap() == dec_value(s@),
{
    let len = s.unicode_len();
    if len == 0 {
        return None;
    }
    let mut acc: u32 = 0;
    let mut i: usize = 0;
    while i < len
        invariant
            0 <= i <= len,
            len == s@.len(),
            all_digits(s@.take(i as int)),
            acc == dec_value(s@.take(i as int)),
        decreases len - i,
    {
        let c = s.get_char(i);
        match char_digit(c) {
            None => {
                assert(!all_digits(s@)) by {
                    assert(s@[i as int] == c);
                }
                return None;
            },
            Some(d) => {
                proof {
                    lemma_dec_value_nonneg(s@.take(i as int));
                }
                if acc > (u32::MAX - d) / 10 {
                    // the prefix up to and including this digit already
                    // overflows, so the whole string does too
                    assert(dec_value(s@) > u32::MAX || !all_digits(s@)) by {
                        if all_digits(s@) {
                            let t = s@.take(i as int + 1);
                            assert(t.drop_last() =~= s@.take(i as int));
                            assert(t.last() == c);
                            assert(dec_value(t) == acc * 10 + d);
                            assert(acc * 10 + d > u32::MAX) by (nonlinear_arith)
                                requires
                                    acc > (u32::MAX - d) / 10,
                                    0 <= d < 10,
                                    acc >= 0;
                            lemma_dec_value_prefix(s@, i as int + 1);
                        }
                    }
                    return None;
                }
                proof {
                    assert(acc * 10 + d <= u32::MAX) by (nonlinear_arith)
                        requires
                            acc <= (u32::MAX - d) / 10,
                            0 <= d < 10,
                            acc >= 0;
                }
                let next: u32 = acc * 10 + d;
                proof {
                    let t = s@.take(i as int + 1);
                    assert(t.drop_last() =~= s@.take(i as int));
                    assert(t.last() == c);
                    assert(all_digits(t)) by {
                        assert(forall|j: int|
                            0 <= j < i as int ==> t[j] == s@.take(i as int)[j]);
                    }
                }
                acc = next;
                i = i + 1;
            },
        }
    }
    assert(s@.take(len as int) =~= s@);
    Some(acc)
}

/// A signed decimal text: digits, or a minus sign followed by digits, whose
/// value fits in an `i32`.
pub open spec fn valid_i32_text(s: Seq<char>) -> bool {
    if s.len() > 0 && s[0] == '-' {
        let m = s.drop_first();
        m.len() > 0 && all_digits(m) && dec_value(m) <= 0x8000_0000
    } else {
        s.len() > 0 && all_digits(s) && dec_value(s) <= i32::MAX
    }
}

/// The value a signed decimal text denotes.
pub open spec fn i32_value(s: Seq<char>) -> int {
    if s.len() > 0 && s[0] == '-' {
        -dec_value(s.drop_first())
    } else {
        dec_value(s)
    }
}

/// Reads a signed number. Succeeds exactly on texts accepted by
/// [`valid_i32_text`].
pub fn parse_i32(s: &str) -> (r: Option<i32>)
    ensures
        r is Some <==> valid_i32_text(s@),
        r is Some ==> r.unwrap() == i32_value(s@),
{
    let len = s.unicode_len();
    if len > 0 && s.get_char(0) == '-' {
        let rest = s.substring_char(1, len);
        proof {
            assert(rest@ =~= s@.drop_first());
        }
        match parse_u32(rest) {
            Some(v) if v <= 0x8000_0000 => {
                if v == 0x8000_0000 {
                    Some(i32::MIN)
                } else {
                    Some(-(v as i32))
                }
            },
            _ => None,
        }
    } else {
        match parse_u32(s) {
            Some(v) if v <= 0x7fff_ffff => Some(v as i32),
            _ => None,
        }
    }
}

// ---------------------------------------------------------------------------
// Whitespace trimming
// ---------------------------------------------------------------------------

/// Whitespace for the purpose of trimming line ends: the ASCII space,
/// horizontal and vertical tab, line feed, form feed and carriage return.
pub open spec fn is_space(c: char) -> bool {
    c == ' ' || c == '\t' || c == '\n' || c == '\r' || c == '\u{b}' || c == '\u{c}'
}

/// The sequence with all trailing whitespace removed.
pub open spec fn trim_end_spec(s: Seq<char>) -> Seq<char>
    decreases s.len(),
{
    if s.len() == 0 {
        s
    } else if is_space(s.last()) {
        trim_end_spec(s.drop_last())
    } else {
        s
    }
}

pub fn is_space_char(c: char) -> (r: bool)
    ensures
        r == is_space(c),
{
    c == ' ' || c == '\t' || c == '\n' || c == '\r' || c == '\u{b}' || c == '\u{c}'
}

/// Removes trailing whitespace.
pub fn trim_end_of(s: &str) -> (r: &str)
    ensures
        r@ == trim_end_spec(s@),
{
    let len = s.unicode_len();
    let mut n: usize = len;
    proof {
        assert(s@.take(len as int) =~= s@);
    }
    while n > 0 && is_space_char(s.get_char(n - 1))
        invariant
            0 <= n <= len,
            len == s@.len(),
            trim_end_spec(s@) == trim_end_spec(s@.take(n as int)),
        decreases n,
    {
        proof {
            let t = s@.take(n as int);
            assert(t.last() == s@[n - 1]);
            assert(t.drop_last() =~= s@.take(n as int - 1));
        }
        n = n - 1;
    }
    proof {
        let t = s@.take(n as int);
        if n > 0 {
            assert(t.last() == s@[n - 1]);
            assert(!is_space(t.last()));
        }
        assert(trim_end_spec(t) == t);
    }
    s.substring_char(0, n)
}

// ---------------------------------------------------------------------------
// Splitting and joining on a separator character
// ---------------------------------------------------------------------------

/// The index of the first occurrence of `sep`, or -1 when there is none.
pub open spec fn index_of_first(s: Seq<char>, sep: char) -> int
    decreases s.len(),
{
    if s.len() == 0 {
        -1
    } else if s[0] == sep {
        0
    } else {
        let r = index_of_first(s.drop_first(), sep);
        if r < 0 {
            -1
        } else {
            r + 1
        }
    }
}

pub proof fn lemma_index_of_first(s: Seq<char>, sep: char)
    ensures
        -1 <= index_of_first(s, sep) < s.len(),
        index_of_first(s, sep) >= 0 ==> s[index_of_first(s, sep)] == sep,
        forall|j: int| 0 <= j < index_of_first(s, sep) ==> s[j] != sep,
        index_of_first(s, sep) == -1 ==> forall|j: int| 0 <= j < s.len() ==> s[j] != sep,
    decreases s.len(),
{
    if s.len() > 0 && s[0] != sep {
        lemma_index_of_first(s.drop_first(), sep);
        let idx = index_of_first(s, sep);
        assert forall|j: int| 0 <= j < idx implies s[j] != sep by {
            if j > 0 {
                assert(s.drop_first()[j - 1] == s[j]);
            }
        }
        if idx == -1 {
            assert forall|j: int| 0 <= j < s.len() implies s[j] != sep by {
                if j > 0 {
                    assert(s.drop_first()[j - 1] == s[j]);
                }
            }
        }
    }
}

/// Splits on every occurrence of `sep`; always yields at least one part.
pub open spec fn split_char(s: Seq<char>, sep: char) -> Seq<Seq<char>>
    decreases s.len(),
    via split_char_decreases
{
    let i = index_of_first(s, sep);
    if i < 0 {
        seq![s]
    } else {
        seq![s.take(i)] + split_char(s.skip(i + 1), sep)
    }
}

#[via_fn]
proof fn split_char_decreases(s: Seq<char>, sep: char) {
    lemma_index_of_first(s, sep);
}

/// Splits on `sep` into at most `n` parts; the last part keeps any further
/// separators. Always yields at least one part when `n >= 1`.
pub open spec fn splitn_char(s: Seq<char>, sep: char, n: nat) -> Seq<Seq<char>>
    decreases n,
    via splitn_char_decreases
{
    if n <= 1 {
        seq![s]
    } else {
        let i = index_of_first(s, sep);
        if i < 0 {
            seq![s]
        } else {
            seq![s.take(i)] + splitn_char(s.skip(i + 1), sep, (n - 1) as nat)
        }
    }
}

#[via_fn]
proof fn splitn_char_decreases(s: Seq<char>, sep: char, n: nat) {
    lemma_index_of_first(s, sep);
}

/// Joins parts with `sep` between them: the inverse of splitting.
pub open spec fn join_char(parts: Seq<Seq<char>>, sep: char) -> Seq<char>
    decreases parts.len(),
{
    if parts.len() == 0 {
        Seq::empty()
    } else if parts.len() == 1 {
        parts[0]
    } else {
        parts[0] + seq![sep] + join_char(parts.drop_first(), sep)
    }
}

/// Joining what splitting produced gives the original sequence back.
pub proof fn lemma_split_join(s: Seq<char>, sep: char)
    ensures
        join_char(split_char(s, sep), sep) == s,
    decreases s.len(),
{
    lemma_index_of_first(s, sep);
    let i = index_of_first(s, sep);
    if i < 0 {
        assert(join_char(split_char(s, sep), sep) == s);
    } else {
        let rest = split_char(s.skip(i + 1), sep);
        assert(rest.len() >= 1);
        let parts = seq![s.take(i)] + rest;
        assert(parts.len() >= 2);
        assert(parts[0] == s.take(i));
        assert(parts.drop_first() =~= rest);
        lemma_split_join(s.skip(i + 1), sep);
        assert(join_char(parts, sep) == s.take(i) + seq![sep] + s.skip(i + 1));
        assert(s.take(i) + seq![sep] + s.skip(i + 1) =~= s);
    }
}

/// Joining what bounded splitting produced gives the original sequence back.
pub proof fn lemma_splitn_join(s: Seq<char>, sep: char, n: nat)
    requires
        n >= 1,
    ensures
        join_char(splitn_char(s, sep, n), sep) == s,
    decreases n,
{
    lemma_index_of_first(s, sep);
    let i = index_of_first(s, sep);
    if n <= 1 || i < 0 {
    } else {
        let rest = splitn_char(s.skip(i + 1), sep, (n - 1) as nat);
        assert(rest.len() >= 1);
        let parts = seq![s.take(i)] + rest;
        assert(parts.len() >= 2);
        assert(parts[0] == s.take(i));
        assert(parts.drop_first() =~= rest);
        lemma_splitn_join(s.skip(i + 1), sep, (n - 1) as nat);
        assert(join_char(parts, sep) == s.take(i) + seq![sep] + s.skip(i + 1));
        assert(s.take(i) + seq![sep] + s.skip(i + 1) =~= s);
    }
}

/// The index of the first occurrence of `sep` in a string.
pub fn find_char(s: &str, sep: char) -> (r: Option<usize>)
    ensures
        r is Some <==> index_of_first(s@, sep) >= 0,
        r is Some ==> r.unwrap() == index_of_first(s@, sep),
{
    proof {
        lemma_index_of_first(s@, sep);
    }
    let len = s.unicode_len();
    let mut i: usize = 0;
    while i < len
        invariant
            0 <= i <= len,
            len == s@.len(),
            forall|j: int| 0 <= j < i ==> s@[j] != sep,
            -1 <= index_of_first(s@, sep) < s@.len(),
            index_of_first(s@, sep) >= 0 ==> s@[index_of_first(s@, sep)] == sep,
            forall|j: int| 0 <= j < index_of_first(s@, sep) ==> s@[j] != sep,
            index_of_first(s@, sep) == -1 ==> forall|j: int|
                0 <= j < s@.len() ==> s@[j] != sep,
        decreases len - i,
    {
        let c = s.get_char(i);
        if c == sep {
            proof {
                let idx = index_of_first(s@, sep);
                assert(idx != -1);
                assert(idx >= i as int);
                assert(idx <= i as int);
            }
            return Some(i);
        }
        i = i + 1;
    }
    proof {
        let idx = index_of_first(s@, sep);
        if idx >= 0 {
            assert(s@[idx] == sep);
            assert(false);
        }
    }
    None
}

/// Splits a string on `sep` into at most `n` parts.
pub fn splitn_str(s: &str, sep: char, n: usize) -> (r: Vec<String>)
    requires
        n >= 1,
    ensures
        r.deep_view() == splitn_char(s@, sep, n as nat),
    decreases n,
{
    if n > 1 {
        if let Some(i) = find_char(s, sep) {
            proof {
                lemma_index_of_first(s@, sep);
            }
            let len = s.unicode_len();
            let head = s.substring_char(0, i).to_owned();
            let tail = s.substring_char(i + 1, len);
            let mut out: Vec<String> = Vec::new();
            out.push(head);
            let mut rest = splitn_str(tail, sep, n - 1);
            let ghost rest_parts = rest.deep_view();
            out.append(&mut rest);
            proof {
                let parts = splitn_char(s@, sep, n as nat);
                assert(parts == seq![s@.take(i as int)]
                    + splitn_char(s@.skip(i as int + 1), sep, (n - 1) as nat));
                assert(out.deep_view() =~~= parts);
            }
            return out;
        }
    }
    let whole = s.to_owned();
    let mut out: Vec<String> = Vec::new();
    out.push(whole);
    proof {
        assert(out.deep_view() =~~= splitn_char(s@, sep, n as nat));
    }
    out
}

/// Splits a string on every occurrence of `sep`.
pub fn split_str(s: &str, sep: char) -> (r: Vec<String>)
    ensures
        r.deep_view() == split_char(s@, sep),
    decreases s@.len(),
{
    if let Some(i) = find_char(s, sep) {
        proof {
            lemma_index_of_first(s@, sep);
        }
        let len = s.unicode_len();
        let head = s.substring_char(0, i).to_owned();
        let tail = s.substring_char(i + 1, len);
        let mut out: Vec<String> = Vec::new();
        out.push(head);
        let mut rest = split_str(tail, sep);
        let ghost rest_parts = rest.deep_view();
        out.append(&mut rest);
        proof {
            let parts = split_char(s@, sep);
            assert(parts == seq![s@.take(i as int)]
                + split_char(s@.skip(i as int + 1), sep));
            assert(out.deep_view() =~~= parts);
        }
        out
    } else {
        let whole = s.to_owned();
        let mut out: Vec<String> = Vec::new();
        out.push(whole);
        proof {
            assert(out.deep_view() =~~= split_char(s@, sep));
        }
        out
    }
}

// ---------------------------------------------------------------------------
// Lexicographic order on character sequences
// ---------------------------------------------------------------------------

/// Lexicographic "less than or equal" by Unicode code point, the order in
/// which Rust compares strings.
pub open spec fn lex_le(a: Seq<char>, b: Seq<char>) -> bool
    decreases a.len(),
{
    if a.len() == 0 {
        true
    } else if b.len() == 0 {
        false
    } else if (a[0] as u32) < (b[0] as u32) {
        true
    } else if (a[0] as u32) > (b[0] as u32) {
        false
    } else {
        lex_le(a.drop_first(), b.drop_first())
    }
}

/// Any two sequences are comparable.
pub proof fn lemma_lex_le_total(a: Seq<char>, b: Seq<char>)
    ensures
        lex_le(a, b) || lex_le(b, a),
    decreases a.len(),
{
    if a.len() > 0 && b.len() > 0 && (a[0] as u32) == (b[0] as u32) {
        lemma_lex_le_total(a.drop_first(), b.drop_first());
    }
}

pub proof fn lemma_lex_le_trans(a: Seq<char>, b: Seq<char>, c: Seq<char>)
    requires
        lex_le(a, b),
        lex_le(b, c),
    ensures
        lex_le(a, c),
    decreases a.len(),
{
    if a.len() > 0 {
        assert(b.len() > 0);
        assert(c.len() > 0);
        if (a[0] as u32) == (b[0] as u32) && (b[0] as u32) == (c[0] as u32) {
            lemma_lex_le_trans(a.drop_first(), b.drop_first(), c.drop_first());
        }
    }
}

/// Dropping an equal prefix does not change the comparison.
proof fn lemma_lex_le_skip(a: Seq<char>, b: Seq<char>, i: int)
    requires
        0 <= i <= a.len(),
        0 <= i <= b.len(),
        forall|j: int| 0 <= j < i ==> (a[j] as u32) == (b[j] as u32),
    ensures
        lex_le(a, b) == lex_le(a.skip(i), b.skip(i)),
    decreases i,
{
    if i > 0 {
        assert(a.len() > 0 && b.len() > 0);
        assert((a[0] as u32) == (b[0] as u32));
        assert(forall|j: int|
            0 <= j < i - 1 ==> (a.drop_first()[j] as u32) == (b.drop_first()[j] as u32));
        lemma_lex_le_skip(a.drop_first(), b.drop_first(), i - 1);
        assert(a.drop_first().skip(i - 1) =~= a.skip(i));
        assert(b.drop_first().skip(i - 1) =~= b.skip(i));
    } else {
        assert(a.skip(0) =~= a);
        assert(b.skip(0) =~= b);
    }
}

/// Compares two strings in lexicographic code-point order.
pub fn str_le(a: &str, b: &str) -> (r: bool)
    ensures
        r == lex_le(a@, b@),
{
    let alen = a.unicode_len();
    let blen = b.unicode_len();
    let mut i: usize = 0;
    while i < alen && i < blen
        invariant
            0 <= i <= alen,
            0 <= i <= blen,
            alen == a@.len(),
            blen == b@.len(),
            forall|j: int| 0 <= j < i ==> (a@[j] as u32) == (b@[j] as u32),
        decreases alen - i,
    {
        let ca = a.get_char(i);
        let cb = b.get_char(i);
        if (ca as u32) < (cb as u32) {
            proof {
                lemma_lex_le_skip(a@, b@, i as int);
                assert(a@.skip(i as int)[0] == a@[i as int]);
                assert(b@.skip(i as int)[0] == b@[i as int]);
            }
            return true;
        }
        if (ca as u32) > (cb as u32) {
            proof {
                lemma_lex_le_skip(a@, b@, i as int);
                assert(a@.skip(i as int)[0] == a@[i as int]);
                assert(b@.skip(i as int)[0] == b@[i as int]);
            }
            return false;
        }
        i = i + 1;
    }
    proof {
        lemma_lex_le_skip(a@, b@, i as int);
    }
    i >= alen
}

} // verus!
