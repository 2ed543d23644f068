//! Verified string utilities: character-level equality, decimal integer
//! formatting and parsing, and splitting on a separator character.

use vstd::prelude::*;
use vstd::string::StrSliceExecFns;
use vstd::string::StringExecFns;

verus! {

/// Relies on String::push: appends exactly one character to the string.
#[verifier::external_body]
pub fn push_char(s: &mut String, c: char)
    ensures
        final(s)@ == old(s)@.push(c),
{
    s.push(c);
}

/// Character-by-character string equality, proved against the views.
pub fn str_eq(a: &str, b: &str) -> (r: bool)
    ensures
        r == (a@ == b@),
{
    let alen = a.unicode_len();
    let blen = b.unicode_len();
    if alen != blen {
        return false;
    }
    let mut i: usize = 0;
    while i < alen
        invariant
            0 <= i <= alen,
            alen == a@.len(),
            alen == b@.len(),
            forall|j: int| 0 <= j < i ==> a@[j] == b@[j],
        decreases alen - i,
    {
        if a.get_char(i) != b.get_char(i) {
            return false;
        }
        i = i + 1;
    }
    proof {
        assert(a@ =~= b@);
    }
    true
}

/// The character for one decimal digit.
pub open spec fn digit_char(d: int) -> char {
    if d == 0 {
        '0'
    } else if d == 1 {
        '1'
    } else if d == 2 {
        '2'
    } else if d == 3 {
        '3'
    } else if d == 4 {
        '4'
    } else if d == 5 {
        '5'
    } else if d == 6 {
        '6'
    } else if d == 7 {
        '7'
    } else if d == 8 {
        '8'
    } else {
        '9'
    }
}

/// Decimal representation of a non-negative integer, most significant digit
/// first, with no leading zeros (the representation of 0 is "0").
pub open spec fn dec_rep(n: nat) -> Seq<char>
    decreases n,
{
    if n < 10 {
        seq![digit_char(n as int)]
    } else {
        dec_rep(n / 10).push(digit_char((n % 10) as int))
    }
}

/// Decimal representation of a signed integer: a leading '-' for negative
/// values, then the magnitude's digits.
pub open spec fn int_rep(n: int) -> Seq<char> {
    if n < 0 {
        seq!['-'] + dec_rep((0 - n) as nat)
    } else {
        dec_rep(n as nat)
    }
}

fn digit_to_char(d: u64) -> (c: char)
    requires
        d < 10,
    ensures
        c == digit_char(d as int),
{
    if d == 0 {
        '0'
    } else if d == 1 {
        '1'
    } else if d == 2 {
        '2'
    } else if d == 3 {
        '3'
    } else if d == 4 {
        '4'
    } else if d == 5 {
        '5'
    } else if d == 6 {
        '6'
    } else if d == 7 {
        '7'
    } else if d == 8 {
        '8'
    } else {
        '9'
    }
}

/// Format a non-negative integer in decimal.
pub fn u64_to_string(n: u64) -> (r: String)
    ensures
        r@ == dec_rep(n as nat),
    decreases n,
{
    if n < 10 {
        let mut s = String::new();
        push_char(&mut s, digit_to_char(n));
        s
    } else {
        let mut s = u64_to_string(n / 10);
        push_char(&mut s, digit_to_char(n % 10));
        s
    }
}

/// Format a signed integer in decimal.
pub fn i64_to_string(n: i64) -> (r: String)
    ensures
        r@ == int_rep(n as int),
{
    if n >= 0 {
        u64_to_string(n as u64)
    } else {
        let mag: u64 = if n == i64::MIN {
            9223372036854775808u64
        } else {
            (-n) as u64
        };
        let mut s = String::new();
        push_char(&mut s, '-');
        let digits = u64_to_string(mag);
        s.append(digits.as_str());
        proof {
            assert(s@ =~= int_rep(n as int));
        }
        s
    }
}

/// The value of a decimal digit character, or -1 for any other character.
pub open spec fn digit_of(c: char) -> int {
    if c == '0' {
        0
    } else if c == '1' {
        1
    } else if c == '2' {
        2
    } else if c == '3' {
        3
    } else if c == '4' {
        4
    } else if c == '5' {
        5
    } else if c == '6' {
        6
    } else if c == '7' {
        7
    } else if c == '8' {
        8
    } else if c == '9' {
        9
    } else {
        -1
    }
}

pub open spec fn is_digit(c: char) -> bool {
    digit_of(c) >= 0
}

/// A non-empty, all-digit character sequence.
pub open spec fn all_digits(s: Seq<char>) -> bool {
    s.len() > 0 && forall|i: int| 0 <= i < s.len() ==> is_digit(#[trigger] s[i])
}

/// The integer value of a digit sequence, most significant digit first.
pub open spec fn digits_val(s: Seq<char>) -> int
    decreases s.len(),
{
    if s.len() == 0 {
        0
    } else {
        digits_val(s.drop_last()) * 10 + digit_of(s.last())
    }
}

/// What a coordinate column must look like to parse: an optional leading
/// '-', then one or more decimal digits, with a value that fits in `i64`.
pub open spec fn parse_i64_spec(s: Seq<char>) -> Option<i64> {
    if s.len() > 0 && s[0] == '-' {
        let d = s.subrange(1, s.len() as int);
        if all_digits(d) && 0 - digits_val(d) >= i64::MIN {
            Some((0 - digits_val(d)) as i64)
        } else {
            None
        }
    } else {
        if all_digits(s) && digits_val(s) <= i64::MAX {
            Some(digits_val(s) as i64)
        } else {
            None
        }
    }
}

proof fn lemma_digits_val_nonneg(s: Seq<char>)
    requires
        forall|i: int| 0 <= i < s.len() ==> is_digit(#[trigger] s[i]),
    ensures
        digits_val(s) >= 0,
    decreases s.len(),
{
    if s.len() > 0 {
        lemma_digits_val_nonneg(s.drop_last());
    }
}

/// Appending one digit multiplies the value by ten and adds the digit.
proof fn lemma_digits_val_push(s: Seq<char>, c: char)
    ensures
        digits_val(s.push(c)) == digits_val(s) * 10 + digit_of(c),
{
    assert(s.push(c).drop_last() =~= s);
    assert(s.push(c).last() == c);
}

fn digit_value(c: char) -> (d: i64)
    ensures
        d == digit_of(c),
{
    if c == '0' {
        0
    } else if c == '1' {
        1
    } else if c == '2' {
        2
    } else if c == '3' {
        3
    } else if c == '4' {
        4
    } else if c == '5' {
        5
    } else if c == '6' {
        6
    } else if c == '7' {
        7
    } else if c == '8' {
        8
    } else if c == '9' {
        9
    } else {
        -1
    }
}

/// Parse the digit run `s[from..]` into a non-negative magnitude no larger
/// than `limit`; `None` exactly when a non-digit occurs, the run is empty,
/// or the value exceeds `limit`.
fn parse_magnitude(s: &str, from: usize, limit: u64) -> (r: Option<u64>)
    requires
        from <= s@.len(),
    ensures
        ({
            let d = s@.subrange(from as int, s@.len() as int);
            match r {
                Some(v) => all_digits(d) && digits_val(d) == v && v <= limit,
                None => !(all_digits(d) && digits_val(d) <= limit),
            }
        }),
{
    let ghost full = s@.subrange(from as int, s@.len() as int);
    let len = s.unicode_len();
    if from == len {
        proof {
            assert(!all_digits(full));
        }
        return None;
    }
    let mut acc: u64 = 0;
    let mut i: usize = from;
    while i < len
        invariant
            from <= i <= len,
            from < len,
            len == s@.len(),
            full == s@.subrange(from as int, s@.len() as int),
            acc <= limit,
            acc == digits_val(s@.subrange(from as int, i as int)),
            forall|j: int| from <= j < i ==> is_digit(#[trigger] s@[j]),
        decreases len - i,
    {
        let ghost part = s@.subrange(from as int, i as int);
        proof {
            assert(forall|k: int| 0 <= k < part.len() ==> part[k] == s@[k + from]);
        }
        let c = s.get_char(i);
        let d = digit_value(c);
        if d < 0 {
            proof {
                assert(full[i - from] == s@[i as int]);
                assert(!all_digits(full));
            }
            return None;
        }
        proof {
            lemma_digits_val_nonneg(part);
            assert(part.push(s@[i as int]) =~= s@.subrange(from as int, i as int + 1));
            lemma_digits_val_push(part, s@[i as int]);
        }
        if acc > limit / 10 || (acc == limit / 10 && (d as u64) > limit % 10) {
            proof {
                let grown = s@.subrange(from as int, i as int + 1);
                assert(digits_val(grown) == acc * 10 + d);
                assert(acc * 10 + d > limit) by (nonlinear_arith)
                    requires
                        acc > limit / 10 || (acc == limit / 10 && d > limit % 10),
                        limit / 10 * 10 + limit % 10 == limit,
                        d >= 0,
                        acc >= 0,
                ;
                if all_digits(full) {
                    lemma_digits_val_prefix_le(full, i + 1 - from);
                    assert(grown =~= full.subrange(0, i + 1 - from));
                    assert(digits_val(full) > limit);
                }
            }
            return None;
        }
        acc = acc * 10 + (d as u64);
        i = i + 1;
    }
    proof {
        assert(s@.subrange(from as int, i as int) =~= full);
        assert(forall|k: int| 0 <= k < full.len() ==> full[k] == s@[k + from]);
        assert(all_digits(full));
    }
    Some(acc)
}

/// For an all-digit sequence, the value of a prefix never exceeds the value
/// of the whole.
proof fn lemma_digits_val_prefix_le(s: Seq<char>, n: int)
    requires
        0 <= n <= s.len(),
        forall|i: int| 0 <= i < s.len() ==> is_digit(#[trigger] s[i]),
    ensures
        digits_val(s.subrange(0, n)) <= digits_val(s),
    decreases s.len() - n,
{
    if n < s.len() {
        lemma_digits_val_prefix_le(s, n + 1);
        let p = s.subrange(0, n);
        let q = s.subrange(0, n + 1);
        assert(p.push(s[n]) =~= q);
        lemma_digits_val_push(p, s[n]);
        lemma_digits_val_nonneg(p);
        assert(digits_val(p) <= digits_val(p) * 10 + digit_of(s[n]));
    } else {
        assert(s.subrange(0, n) =~= s);
    }
}

/// The decimal representation of a non-negative integer is non-empty, all
/// digits, and parses back to the same value.
pub proof fn lemma_dec_rep_digits(n: nat)
    ensures
        dec_rep(n).len() >= 1,
        forall|i: int| 0 <= i < dec_rep(n).len() ==> is_digit(#[trigger] dec_rep(n)[i]),
        digits_val(dec_rep(n)) == n,
    decreases n,
{
    if n < 10 {
        let s = seq![digit_char(n as int)];
        assert(s.drop_last() =~= Seq::<char>::empty());
        assert(s.last() == digit_char(n as int));
        assert(digits_val(Seq::<char>::empty()) == 0);
        assert(digits_val(s) == digit_of(digit_char(n as int)));
    } else {
        lemma_dec_rep_digits(n / 10);
        let p = dec_rep(n / 10);
        let c = digit_char((n % 10) as int);
        lemma_digits_val_push(p, c);
        assert(forall|i: int| 0 <= i < p.len() ==> p.push(c)[i] == p[i]);
        assert(p.push(c)[p.len() as int] == c);
    }
}

/// A formatted integer parses back to itself.
pub proof fn lemma_int_rep_parses(v: int)
    requires
        i64::MIN <= v <= i64::MAX,
    ensures
        parse_i64_spec(int_rep(v)) == Some(v as i64),
{
    if v < 0 {
        lemma_dec_rep_digits((0 - v) as nat);
        let s = int_rep(v);
        assert(s[0] == '-');
        assert(s.subrange(1, s.len() as int) =~= dec_rep((0 - v) as nat));
    } else {
        lemma_dec_rep_digits(v as nat);
        let s = int_rep(v);
        assert(is_digit(s[0]));
        assert(s[0] != '-');
    }
}

/// Parse a decimal integer with an optional leading '-'; `None` exactly on
/// text that is not a well-formed `i64`.
pub fn parse_i64(s: &str) -> (r: Option<i64>)
    ensures
        r == parse_i64_spec(s@),
{
    let len = s.unicode_len();
    if len > 0 && s.get_char(0) == '-' {
        match parse_magnitude(s, 1, 9223372036854775808u64) {
            Some(v) => {
                let r: i64 = if v == 9223372036854775808u64 {
                    i64::MIN
                } else {
                    -(v as i64)
                };
                Some(r)
            },
            None => None,
        }
    } else {
        proof {
            assert(s@.subrange(0, s@.len() as int) =~= s@);
        }
        match parse_magnitude(s, 0, 9223372036854775807u64) {
            Some(v) => Some(v as i64),
            None => None,
        }
    }
}

/// Split a character sequence at every occurrence of `sep`. The result has
/// one piece more than there are separators; pieces do not contain `sep`.
pub open spec fn split_seq(s: Seq<char>, sep: char) -> Seq<Seq<char>>
    decreases s.len(),
{
    if s.len() == 0 {
        seq![Seq::<char>::empty()]
    } else if s[0] == sep {
        seq![Seq::<char>::empty()] + split_seq(s.drop_first(), sep)
    } else {
        let rest = split_seq(s.drop_first(), sep);
        seq![seq![s[0]] + rest[0]] + rest.drop_first()
    }
}

proof fn lemma_split_seq_nonempty(s: Seq<char>, sep: char)
    ensures
        split_seq(s, sep).len() >= 1,
    decreases s.len(),
{
    if s.len() > 0 {
        lemma_split_seq_nonempty(s.drop_first(), sep);
    }
}

/// If the first `sep` in `s` stands at `i` (or there is none and `i` is the
/// length), the split is the piece before `i` followed by the split of what
/// comes after `i`.
proof fn lemma_split_seq_at(s: Seq<char>, sep: char, i: int)
    requires
        0 <= i <= s.len(),
        forall|j: int| 0 <= j < i ==> s[j] != sep,
        i < s.len() ==> s[i] == sep,
    ensures
        i == s.len() ==> split_seq(s, sep) == seq![s],
        i < s.len() ==> split_seq(s, sep) == seq![s.subrange(0, i)] + split_seq(
            s.subrange(i + 1, s.len() as int),
            sep,
        ),
    decreases i,
{
    lemma_split_seq_nonempty(s, sep);
    if i == 0 {
        if s.len() == 0 {
            assert(s =~= Seq::<char>::empty());
            assert(split_seq(s, sep) =~= seq![s]);
        } else {
            assert(s[0] == sep);
            assert(s.subrange(0, 0) =~= Seq::<char>::empty());
            assert(s.subrange(1, s.len() as int) =~= s.drop_first());
            assert(split_seq(s, sep) =~= seq![s.subrange(0, 0)] + split_seq(
                s.subrange(1, s.len() as int),
                sep,
            ));
        }
    } else {
        let t = s.drop_first();
        lemma_split_seq_at(t, sep, i - 1);
        lemma_split_seq_nonempty(t, sep);
        let rest = split_seq(t, sep);
        if i == s.len() {
            assert(rest == seq![t]);
            assert(s[0] != sep);
            assert(seq![s[0]] + rest[0] =~= s);
            assert(rest.drop_first() =~= Seq::<Seq<char>>::empty());
            assert(split_seq(s, sep) == seq![seq![s[0]] + rest[0]] + rest.drop_first());
            assert(split_seq(s, sep) =~= seq![s]);
        } else {
            assert(rest == seq![t.subrange(0, i - 1)] + split_seq(
                t.subrange(i, t.len() as int),
                sep,
            ));
            assert(seq![s[0]] + rest[0] =~= s.subrange(0, i));
            assert(t.subrange(i, t.len() as int) =~= s.subrange(i + 1, s.len() as int));
            assert(rest.drop_first() =~= split_seq(s.subrange(i + 1, s.len() as int), sep));
            assert(split_seq(s, sep) =~= seq![s.subrange(0, i)] + split_seq(
                s.subrange(i + 1, s.len() as int),
                sep,
            ));
        }
    }
}

/// A sequence free of the separator splits to itself alone.
pub proof fn lemma_split_single(a: Seq<char>, sep: char)
    requires
        forall|i: int| 0 <= i < a.len() ==> a[i] != sep,
    ensures
        split_seq(a, sep) == seq![a],
{
    lemma_split_seq_at(a, sep, a.len() as int);
}

/// Splitting at the first separator peels off the piece before it.
pub proof fn lemma_split_prepend(a: Seq<char>, rest: Seq<char>, sep: char)
    requires
        forall|i: int| 0 <= i < a.len() ==> a[i] != sep,
    ensures
        split_seq(a + seq![sep] + rest, sep) == seq![a] + split_seq(rest, sep),
{
    let s = a + seq![sep] + rest;
    assert(forall|i: int| 0 <= i < a.len() ==> s[i] == a[i]);
    assert(s[a.len() as int] == sep);
    lemma_split_seq_at(s, sep, a.len() as int);
    assert(s.subrange(0, a.len() as int) =~= a);
    assert(s.subrange(a.len() as int + 1, s.len() as int) =~= rest);
}

/// Copy `s[from..to]` into an owned string.
pub fn substr_string(s: &str, from: usize, to: usize) -> (r: String)
    requires
        from <= to <= s@.len(),
    ensures
        r@ == s@.subrange(from as int, to as int),
{
    s.substring_char(from, to).to_owned()
}

/// Split a string at every occurrence of `sep`.
pub fn split_on(s: &str, sep: char) -> (r: Vec<String>)
    ensures
        r.deep_view() == split_seq(s@, sep),
{
    let len = s.unicode_len();
    let mut parts: Vec<String> = Vec::new();
    proof {
        assert(s@.subrange(0, len as int) =~= s@);
        assert(parts.deep_view() + split_seq(s@, sep) =~= split_seq(s@, sep));
    }
    let mut start: usize = 0;
    let mut i: usize = 0;
    while i < len
        invariant
            0 <= start <= i <= len,
            len == s@.len(),
            forall|j: int| start <= j < i ==> s@[j] != sep,
            split_seq(s@, sep) == parts.deep_view() + split_seq(
                s@.subrange(start as int, len as int),
                sep,
            ),
        decreases len - i,
    {
        let c = s.get_char(i);
        if c == sep {
            let ghost suffix = s@.subrange(start as int, len as int);
            proof {
                assert(forall|k: int| 0 <= k < suffix.len() ==> suffix[k] == s@[k + start]);
                lemma_split_seq_at(suffix, sep, i - start);
                assert(suffix.subrange(0, i - start) =~= s@.subrange(start as int, i as int));
                assert(suffix.subrange(i - start + 1, suffix.len() as int) =~= s@.subrange(
                    i as int + 1,
                    len as int,
                ));
            }
            let ghost old_dv = parts.deep_view();
            let piece = substr_string(s, start, i);
            parts.push(piece);
            proof {
                assert(parts.deep_view() =~= old_dv.push(piece@));
                assert(parts.deep_view() + split_seq(
                    s@.subrange(i as int + 1, len as int),
                    sep,
                ) =~= split_seq(s@, sep));
            }
            start = i + 1;
        }
        i = i + 1;
    }
    let ghost suffix = s@.subrange(start as int, len as int);
    proof {
        assert(forall|k: int| 0 <= k < suffix.len() ==> suffix[k] == s@[k + start]);
        lemma_split_seq_at(suffix, sep, len - start);
    }
    let ghost old_dv = parts.deep_view();
    let piece = substr_string(s, start, len);
    parts.push(piece);
    proof {
        assert(parts.deep_view() =~= old_dv.push(piece@));
        assert(parts.deep_view() =~= split_seq(s@, sep));
    }
    parts
}

/// The lines of a text: pieces between '\n' characters, except that nothing
/// follows a final '\n' (an empty text has no lines).
pub open spec fn lines_spec(s: Seq<char>) -> Seq<Seq<char>> {
    if s.len() == 0 {
        Seq::empty()
    } else {
        let p = split_seq(s, '\n');
        if p.last().len() == 0 {
            p.drop_last()
        } else {
            p
        }
    }
}

/// Split a text into its lines.
pub fn split_lines(s: &str) -> (r: Vec<String>)
    ensures
        r.deep_view() == lines_spec(s@),
{
    if s.unicode_len() == 0 {
        let r: Vec<String> = Vec::new();
        proof {
            assert(r.deep_view() =~= lines_spec(s@));
        }
        return r;
    }
    let mut parts = split_on(s, '\n');
    proof {
        lemma_split_seq_nonempty(s@, '\n');
    }
    let last_len = parts[parts.len() - 1].as_str().unicode_len();
    if last_len == 0 {
        let ghost old_dv = parts.deep_view();
        parts.pop();
        proof {
            assert(parts.deep_view() =~= old_dv.drop_last());
        }
    }
    proof {
        assert(parts.deep_view() =~= lines_spec(s@));
    }
    parts
}

} // verus!
