use vstd::prelude::*;

verus! {

/// Lexicographic strict order on character sequences.
pub open spec fn lex_lt(a: Seq<char>, b: Seq<char>) -> bool
    decreases a.len(),
{
    if b.len() == 0 {
        false
    } else if a.len() == 0 {
        true
    } else if a[0] != b[0] {
        (a[0] as int) < (b[0] as int)
    } else {
        lex_lt(a.skip(1), b.skip(1))
    }
}

/// Lexicographic reflexive order on character sequences.
pub open spec fn lex_le(a: Seq<char>, b: Seq<char>) -> bool {
    lex_lt(a, b) || a == b
}

/// `lex_lt` is total: two sequences are ordered one way or the other, or equal.
pub proof fn lemma_lex_total(a: Seq<char>, b: Seq<char>)
    ensures
        lex_lt(a, b) || lex_lt(b, a) || a == b,
    decreases a.len(),
{
    if b.len() == 0 {
        if a.len() == 0 {
            assert(a =~= b);
        }
    } else if a.len() == 0 {
    } else if a[0] != b[0] {
    } else {
        lemma_lex_total(a.skip(1), b.skip(1));
        if a.skip(1) == b.skip(1) {
            assert(a.skip(1).len() == a.len() - 1);
            assert(b.skip(1).len() == b.len() - 1);
            assert(a.len() == b.len());
            assert forall|i: int| 0 <= i < a.len() implies a[i] == b[i] by {
                if i > 0 {
                    assert(a.skip(1)[i - 1] == a[i]);
                    assert(b.skip(1)[i - 1] == b[i]);
                }
            }
            assert(a =~= b);
        }
    }
}

/// `lex_lt` is asymmetric (and hence irreflexive).
pub proof fn lemma_lex_asym(a: Seq<char>, b: Seq<char>)
    requires
        lex_lt(a, b),
    ensures
        !lex_lt(b, a),
    decreases a.len(),
{
    if b.len() == 0 {
    } else if a.len() == 0 {
    } else if a[0] != b[0] {
    } else {
        lemma_lex_asym(a.skip(1), b.skip(1));
    }
}

/// `lex_lt` is transitive.
pub proof fn lemma_lex_trans(a: Seq<char>, b: Seq<char>, c: Seq<char>)
    requires
        lex_lt(a, b),
        lex_lt(b, c),
    ensures
        lex_lt(a, c),
    decreases a.len(),
{
    if c.len() == 0 {
    } else if b.len() == 0 {
    } else if a.len() == 0 {
    } else {
        if a[0] == b[0] && b[0] == c[0] {
            lemma_lex_trans(a.skip(1), b.skip(1), c.skip(1));
        }
    }
}

/// Compares two strings in lexicographic order of their characters,
/// by code point.
pub fn str_lex_lt(a: &str, b: &str) -> (r: bool)
    ensures
        r == lex_lt(a@, b@),
{
    let a_len = a.unicode_len();
    let b_len = b.unicode_len();
    let mut i: usize = 0;
    proof {
        assert(a@.skip(0) =~= a@);
        assert(b@.skip(0) =~= b@);
    }
    loop
        invariant
            i <= a_len,
            i <= b_len,
            a_len == a@.len(),
            b_len == b@.len(),
            forall|j: int| 0 <= j < i ==> a@[j] == b@[j],
            lex_lt(a@, b@) == lex_lt(a@.skip(i as int), b@.skip(i as int)),
        decreases a_len - i,
    {
        if i == b_len {
            proof {
                assert(b@.skip(i as int).len() == 0);
            }
            return false;
        }
        if i == a_len {
            proof {
                assert(a@.skip(i as int).len() == 0);
                assert(b@.skip(i as int).len() > 0);
            }
            return true;
        }
        let ca = a.get_char(i);
        let cb = b.get_char(i);
        proof {
            let sa = a@.skip(i as int);
            let sb = b@.skip(i as int);
            assert(sa[0] == a@[i as int]);
            assert(sb[0] == b@[i as int]);
            assert(sa.skip(1) =~= a@.skip(i + 1));
            assert(sb.skip(1) =~= b@.skip(i + 1));
        }
        if ca != cb {
            return ca < cb;
        }
        i = i + 1;
    }
}

/// The index of the first occurrence of `c`, or -1 if there is none.
pub open spec fn spec_find_char(s: Seq<char>, c: char) -> int
    decreases s.len(),
{
    if s.len() == 0 {
        -1
    } else if s[0] == c {
        0
    } else if spec_find_char(s.skip(1), c) < 0 {
        -1
    } else {
        1 + spec_find_char(s.skip(1), c)
    }
}

pub proof fn lemma_find_char_range(s: Seq<char>, c: char)
    ensures
        -1 <= spec_find_char(s, c) < s.len(),
        spec_find_char(s, c) >= 0 ==> s[spec_find_char(s, c)] == c,
        forall|j: int| 0 <= j < spec_find_char(s, c) ==> s[j] != c,
        spec_find_char(s, c) == -1 ==> forall|j: int| 0 <= j < s.len() ==> s[j] != c,
    decreases s.len(),
{
    if s.len() > 0 && s[0] != c {
        lemma_find_char_range(s.skip(1), c);
        let f = spec_find_char(s.skip(1), c);
        if f >= 0 {
            assert(s.skip(1)[f] == s[f + 1]);
            assert forall|j: int| 0 <= j < f + 1 implies s[j] != c by {
                if j > 0 {
                    assert(s.skip(1)[j - 1] == s[j]);
                }
            }
        } else {
            assert forall|j: int| 0 <= j < s.len() implies s[j] != c by {
                if j > 0 {
                    assert(s.skip(1)[j - 1] == s[j]);
                }
            }
        }
    }
}

/// The converse: a first occurrence at `i` pins `spec_find_char`.
pub proof fn lemma_find_char_at(s: Seq<char>, c: char, i: int)
    requires
        0 <= i < s.len(),
        s[i] == c,
        forall|j: int| 0 <= j < i ==> s[j] != c,
    ensures
        spec_find_char(s, c) == i,
    decreases i,
{
    if i > 0 {
        assert(forall|j: int| 0 <= j < s.skip(1).len() ==> s.skip(1)[j] == s[j + 1]);
        lemma_find_char_at(s.skip(1), c, i - 1);
    }
}

/// Finds the first occurrence of a character.
pub fn find_char(s: &str, c: char) -> (r: Option<usize>)
    ensures
        match r {
            Some(i) => spec_find_char(s@, c) == i as int,
            None => spec_find_char(s@, c) == -1,
        },
{
    let len = s.unicode_len();
    let mut i: usize = 0;
    while i < len
        invariant
            i <= len,
            len == s@.len(),
            forall|j: int| 0 <= j < i ==> s@[j] != c,
        decreases len - i,
    {
        if s.get_char(i) == c {
            proof {
                lemma_find_char_at(s@, c, i as int);
            }
            return Some(i);
        }
        i = i + 1;
    }
    proof {
        lemma_find_char_range(s@, c);
        if spec_find_char(s@, c) >= 0 {
            assert(s@[spec_find_char(s@, c)] == c);
        }
    }
    None
}

/// Splits a string at the first occurrence of `c`: the part before it
/// and the part after it.
pub fn split_at_char(s: &str, c: char) -> (r: Option<(String, String)>)
    ensures
        match r {
            Some(p) => spec_find_char(s@, c) >= 0
                && p.0@ == s@.take(spec_find_char(s@, c))
                && p.1@ == s@.skip(spec_find_char(s@, c) + 1),
            None => spec_find_char(s@, c) == -1,
        },
{
    match find_char(s, c) {
        None => None,
        Some(i) => {
            proof {
                lemma_find_char_range(s@, c);
            }
            let len = s.unicode_len();
            let before = s.substring_char(0, i);
            let after = s.substring_char(i + 1, len);
            proof {
                assert(before@ =~= s@.take(i as int));
                assert(after@ =~= s@.skip(i + 1));
            }
            Some((before.to_owned(), after.to_owned()))
        },
    }
}

/// Whether `s` begins with `prefix`.
pub fn starts_with(s: &str, prefix: &str) -> (r: bool)
    ensures
        r == (s@.len() >= prefix@.len() && s@.take(prefix@.len() as int) == prefix@),
{
    let n = prefix.unicode_len();
    let len = s.unicode_len();
    if len < n {
        return false;
    }
    let mut i: usize = 0;
    while i < n
        invariant
            i <= n,
            n == prefix@.len(),
            len == s@.len(),
            n <= len,
            forall|j: int| 0 <= j < i ==> s@[j] == prefix@[j],
        decreases n - i,
    {
        if s.get_char(i) != prefix.get_char(i) {
            proof {
                assert(s@.take(n as int)[i as int] != prefix@[i as int]);
            }
            return false;
        }
        i = i + 1;
    }
    proof {
        assert(s@.take(n as int) =~= prefix@);
    }
    true
}

/// The decimal digit character for a value below ten.
pub open spec fn digit_char(d: int) -> char {
    if d == 0 { '0' }
    else if d == 1 { '1' }
    else if d == 2 { '2' }
    else if d == 3 { '3' }
    else if d == 4 { '4' }
    else if d == 5 { '5' }
    else if d == 6 { '6' }
    else if d == 7 { '7' }
    else if d == 8 { '8' }
    else { '9' }
}

/// The numeric value of a decimal digit character, or -1 for any other character.
pub open spec fn digit_val(c: char) -> int {
    if c == '0' { 0 }
    else if c == '1' { 1 }
    else if c == '2' { 2 }
    else if c == '3' { 3 }
    else if c == '4' { 4 }
    else if c == '5' { 5 }
    else if c == '6' { 6 }
    else if c == '7' { 7 }
    else if c == '8' { 8 }
    else if c == '9' { 9 }
    else { -1 }
}

pub open spec fn is_digit(c: char) -> bool {
    digit_val(c) >= 0
}

pub proof fn lemma_digit_char_val(d: int)
    requires
        0 <= d <= 9,
    ensures
        digit_val(digit_char(d)) == d,
{
}

/// A one-character string for a decimal digit.
pub fn digit_str(d: u64) -> (r: &'static str)
    requires
        d <= 9,
    ensures
        r@ =~= seq![digit_char(d as int)],
{
    proof {
        reveal_strlit("0");
        reveal_strlit("1");
        reveal_strlit("2");
        reveal_strlit("3");
        reveal_strlit("4");
        reveal_strlit("5");
        reveal_strlit("6");
        reveal_strlit("7");
        reveal_strlit("8");
        reveal_strlit("9");
    }
    match d {
        0 => "0",
        1 => "1",
        2 => "2",
        3 => "3",
        4 => "4",
        5 => "5",
        6 => "6",
        7 => "7",
        8 => "8",
        _ => "9",
    }
}

/// The decimal rendering of a natural number, without leading zeros
/// (a single zero renders as "0").
pub open spec fn dec_string(n: nat) -> Seq<char>
    decreases n,
{
    if n < 10 {
        seq![digit_char(n as int)]
    } else {
        dec_string(n / 10) + seq![digit_char((n % 10) as int)]
    }
}

/// Renders a number in decimal.
pub fn u64_to_string(n: u64) -> (r: String)
    ensures
        r@ == dec_string(n as nat),
    decreases n,
{
    if n < 10 {
        digit_str(n).to_owned()
    } else {
        let prefix = u64_to_string(n / 10);
        let r = prefix.concat(digit_str(n % 10));
        r
    }
}

/// Whether every character of the sequence is a decimal digit.
pub open spec fn all_digits(s: Seq<char>) -> bool {
    forall|i: int| 0 <= i < s.len() ==> is_digit(#[trigger] s[i])
}

/// The numeric value of a digit sequence read in base ten. Only
/// meaningful when `all_digits` holds.
pub open spec fn digits_value(s: Seq<char>) -> int
    decreases s.len(),
{
    if s.len() == 0 {
        0
    } else {
        digits_value(s.drop_last()) * 10 + digit_val(s.last())
    }
}

/// A non-empty string of decimal digits whose value fits in the
/// ordinal type.
pub open spec fn valid_digits(s: Seq<char>) -> bool {
    s.len() > 0 && all_digits(s) && digits_value(s) <= u64::MAX
}

/// The digit part of an index token: unsigned-integer parsing accepts
/// one optional leading plus sign before the digits.
pub open spec fn index_digits(s: Seq<char>) -> Seq<char> {
    if s.len() > 0 && s[0] == '+' {
        s.skip(1)
    } else {
        s
    }
}

/// An index token denotes an ordinal exactly when, after one optional
/// leading plus sign, it is a non-empty string of decimal digits whose
/// value fits in the ordinal type.
pub open spec fn valid_index(s: Seq<char>) -> bool {
    valid_digits(index_digits(s))
}

pub proof fn lemma_digits_value_nonneg(s: Seq<char>)
    requires
        all_digits(s),
    ensures
        digits_value(s) >= 0,
    decreases s.len(),
{
    if s.len() > 0 {
        assert(all_digits(s.drop_last())) by {
            assert(forall|i: int| 0 <= i < s.len() - 1 ==> s.drop_last()[i] == s[i]);
        }
        lemma_digits_value_nonneg(s.drop_last());
    }
}

/// The value of a digit string is at least the value of any of its prefixes.
pub proof fn lemma_digits_value_prefix(s: Seq<char>, i: int)
    requires
        all_digits(s),
        0 <= i <= s.len(),
    ensures
        digits_value(s.take(i)) <= digits_value(s),
    decreases s.len() - i,
{
    if i < s.len() {
        lemma_digits_value_prefix(s, i + 1);
        let t = s.take(i + 1);
        assert(t.drop_last() =~= s.take(i));
        assert(all_digits(s.take(i))) by {
            assert(forall|j: int| 0 <= j < i ==> s.take(i)[j] == s[j]);
        }
        lemma_digits_value_nonneg(s.take(i));
        assert(digit_val(t.last()) >= 0);
        assert(digits_value(t) == digits_value(s.take(i)) * 10 + digit_val(t.last()));
        assert(digits_value(s.take(i)) <= digits_value(s.take(i)) * 10);
    } else {
        assert(s.take(i) =~= s);
    }
}

/// The numeric value of a decimal digit character.
pub fn char_digit(c: char) -> (r: Option<u8>)
    ensures
        match r {
            Some(d) => is_digit(c) && d as int == digit_val(c),
            None => !is_digit(c),
        },
{
    match c {
        '0' => Some(0),
        '1' => Some(1),
        '2' => Some(2),
        '3' => Some(3),
        '4' => Some(4),
        '5' => Some(5),
        '6' => Some(6),
        '7' => Some(7),
        '8' => Some(8),
        '9' => Some(9),
        _ => None,
    }
}

/// Parses a digit string: `Some` exactly when it is non-empty, all
/// digits, and its value fits; then the value read in base ten.
pub fn parse_digits(s: &str) -> (r: Option<u64>)
    ensures
        match r {
            Some(v) => valid_digits(s@) && v as int == digits_value(s@),
            None => !valid_digits(s@),
        },
{
    let len = s.unicode_len();
    if len == 0 {
        return None;
    }
    let mut acc: u64 = 0;
    let mut i: usize = 0;
    while i < len
        invariant
            0 < len == s@.len(),
            0 <= i <= len,
            all_digits(s@.take(i as int)),
            acc as int == digits_value(s@.take(i as int)),
        decreases len - i,
    {
        let c = s.get_char(i);
        match char_digit(c) {
            None => {
                return None;
            },
            Some(d) => {
                proof {
                    assert(s@.take(i + 1).drop_last() =~= s@.take(i as int));
                    assert(s@.take(i + 1).last() == s@[i as int]);
                }
                let shifted = match acc.checked_mul(10) {
                    Some(x) => x.checked_add(d as u64),
                    None => None,
                };
                match shifted {
                    Some(x) => {
                        acc = x;
                    },
                    None => {
                        // The value read so far already exceeds the ordinal
                        // range, so the whole token cannot fit either.
                        proof {
                            if valid_digits(s@) {
                                lemma_digits_value_prefix(s@, i + 1);
                                lemma_digits_value_nonneg(s@.take(i + 1));
                            }
                        }
                        return None;
                    },
                }
                proof {
                    assert(forall|j: int| 0 <= j < i + 1 ==> is_digit(#[trigger] s@.take(i + 1)[j]));
                }
                i = i + 1;
            },
        }
    }
    proof {
        assert(s@.take(len as int) =~= s@);
    }
    Some(acc)
}

/// Parses an index token as unsigned-integer parsing reads it: one
/// optional leading plus sign, then a non-empty digit string. `Some`
/// exactly when the token is such a string and its value fits, and
/// then the value of the digit part read in base ten.
pub fn parse_index_token(s: &str) -> (r: Option<u64>)
    ensures
        match r {
            Some(v) => valid_index(s@) && v as int == digits_value(index_digits(s@)),
            None => !valid_index(s@),
        },
{
    let len = s.unicode_len();
    if len == 0 {
        return parse_digits(s);
    }
    if s.get_char(0) == '+' {
        let rest = s.substring_char(1, len);
        proof {
            assert(rest@ =~= s@.skip(1));
            assert(index_digits(s@) == s@.skip(1));
        }
        parse_digits(rest)
    } else {
        proof {
            assert(index_digits(s@) == s@);
        }
        parse_digits(s)
    }
}

/// A decimal rendering consists of digits and reads back to its value.
pub proof fn lemma_dec_string_value(n: nat)
    ensures
        dec_string(n).len() >= 1,
        all_digits(dec_string(n)),
        digits_value(dec_string(n)) == n,
    decreases n,
{
    if n < 10 {
        lemma_digit_char_val(n as int);
        assert(dec_string(n).drop_last() =~= Seq::<char>::empty());
        assert(digits_value(Seq::<char>::empty()) == 0);
        assert(dec_string(n).last() == digit_char(n as int));
    } else {
        lemma_dec_string_value(n / 10);
        lemma_digit_char_val((n % 10) as int);
        let s = dec_string(n);
        assert(s.drop_last() =~= dec_string(n / 10));
        assert(s.last() == digit_char((n % 10) as int));
        assert forall|i: int| 0 <= i < s.len() implies is_digit(#[trigger] s[i]) by {
            if i < s.len() - 1 {
                assert(s[i] == dec_string(n / 10)[i]);
            }
        }
    }
}

/// A zero-padded rendering consists of digits and reads back to its
/// value: the leading zero does not change what the digits denote.
pub proof fn lemma_padded2_value(n: nat)
    ensures
        padded2_string(n).len() >= 1,
        all_digits(padded2_string(n)),
        digits_value(padded2_string(n)) == n,
{
    lemma_dec_string_value(n);
    if n < 10 {
        let s = padded2_string(n);
        assert(s =~= seq!['0'] + dec_string(n));
        lemma_leading_zero_value(dec_string(n));
        assert forall|i: int| 0 <= i < s.len() implies is_digit(#[trigger] s[i]) by {
            if i > 0 {
                assert(s[i] == dec_string(n)[i - 1]);
            }
        }
    }
}

/// A leading zero leaves a digit string's value unchanged.
pub proof fn lemma_leading_zero_value(s: Seq<char>)
    ensures
        digits_value(seq!['0'] + s) == digits_value(s),
    decreases s.len(),
{
    if s.len() == 0 {
        assert(seq!['0'] + s =~= seq!['0']);
        assert(digits_value(seq!['0']) == digits_value(Seq::<char>::empty()) * 10 + digit_val('0')) by {
            assert(seq!['0'].drop_last() =~= Seq::<char>::empty());
        }
    } else {
        let t = seq!['0'] + s;
        assert(t.last() == s.last());
        assert(t.drop_last() =~= seq!['0'] + s.drop_last());
        lemma_leading_zero_value(s.drop_last());
    }
}

/// Finding a character in a concatenation whose first part does not
/// hold it: the search lands in the second part.
pub proof fn lemma_find_char_concat(a: Seq<char>, b: Seq<char>, c: char)
    requires
        forall|j: int| 0 <= j < a.len() ==> a[j] != c,
    ensures
        spec_find_char(b, c) >= 0
            ==> spec_find_char(a + b, c) == a.len() + spec_find_char(b, c),
        spec_find_char(b, c) < 0 ==> spec_find_char(a + b, c) == -1,
{
    lemma_find_char_range(b, c);
    let f = spec_find_char(b, c);
    if f >= 0 {
        assert((a + b)[a.len() + f] == b[f]);
        assert forall|j: int| 0 <= j < a.len() + f implies (a + b)[j] != c by {
            if j < a.len() {
                assert((a + b)[j] == a[j]);
            } else {
                assert((a + b)[j] == b[j - a.len()]);
            }
        }
        lemma_find_char_at(a + b, c, a.len() + f);
    } else {
        lemma_find_char_range(a + b, c);
        let g = spec_find_char(a + b, c);
        if g >= 0 {
            assert((a + b)[g] == c);
            if g < a.len() {
                assert((a + b)[g] == a[g]);
            } else {
                assert((a + b)[g] == b[g - a.len()]);
            }
        }
    }
}

/// Decimal rendering padded on the left with '0' to at least two characters.
pub open spec fn padded2_string(n: nat) -> Seq<char> {
    if n < 10 {
        seq!['0'] + dec_string(n)
    } else {
        dec_string(n)
    }
}

/// Renders a number in decimal, zero-padded to at least two digits.
pub fn u64_to_padded2_string(n: u64) -> (r: String)
    ensures
        r@ == padded2_string(n as nat),
{
    if n < 10 {
        proof {
            reveal_strlit("0");
        }
        let mut s = ("0").to_owned();
        let d = u64_to_string(n);
        s.append(d.as_str());
        s
    } else {
        u64_to_string(n)
    }
}

} // verus!

