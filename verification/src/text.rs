//! Verified text helpers: the lexicographic order on names that the sorter
//! ties by, decimal rendering for diagnostics, file-stem extraction, and
//! display-name trimming.

use vstd::prelude::*;
use vstd::string::*;

verus! {

/// Strict lexicographic order on character sequences, comparing scalar
/// values position by position; a proper prefix sorts first.
pub open spec fn lex_lt(a: Seq<char>, b: Seq<char>) -> bool
    decreases a.len(),
{
    if b.len() == 0 {
        false
    } else if a.len() == 0 {
        true
    } else if a[0] != b[0] {
        (a[0] as u32) < (b[0] as u32)
    } else {
        lex_lt(a.drop_first(), b.drop_first())
    }
}

/// Of two distinct sequences, exactly one sorts strictly first.
pub proof fn lemma_lex_lt_trichotomy(a: Seq<char>, b: Seq<char>)
    ensures
        lex_lt(a, b) || lex_lt(b, a) || a =~= b,
        lex_lt(a, b) ==> !lex_lt(b, a) && !(a =~= b),
        a =~= b ==> !lex_lt(a, b),
    decreases a.len(),
{
    if b.len() == 0 || a.len() == 0 {
    } else if a[0] != b[0] {
        vstd::utf8::char_u32_cast(a[0], (a[0] as u32));
        vstd::utf8::char_u32_cast(b[0], (b[0] as u32));
        assert((a[0] as u32) != (b[0] as u32));
    } else {
        lemma_lex_lt_trichotomy(a.drop_first(), b.drop_first());
        if a.drop_first() =~= b.drop_first() {
            assert forall|i: int| 0 <= i < a.len() implies a[i] == b[i] by {
                if i > 0 {
                    assert(a.drop_first()[i - 1] == b.drop_first()[i - 1]);
                }
            }
            assert(a =~= b);
        }
        if a =~= b {
            assert forall|i: int| 0 <= i < a.drop_first().len() implies a.drop_first()[i]
                == b.drop_first()[i] by {
                assert(a[i + 1] == b[i + 1]);
            }
            assert(a.drop_first() =~= b.drop_first());
        }
    }
}

/// The strict lexicographic order is transitive.
pub proof fn lemma_lex_lt_transitive(a: Seq<char>, b: Seq<char>, c: Seq<char>)
    requires
        lex_lt(a, b),
        lex_lt(b, c),
    ensures
        lex_lt(a, c),
    decreases a.len(),
{
    if c.len() == 0 {
    } else if b.len() == 0 {
    } else if a.len() == 0 {
    } else if a[0] != b[0] {
        if b[0] != c[0] {
        } else {
        }
    } else if b[0] != c[0] {
    } else {
        lemma_lex_lt_transitive(a.drop_first(), b.drop_first(), c.drop_first());
    }
}

/// Compare two names in the lexicographic order.
pub fn str_lt(a: &str, b: &str) -> (r: bool)
    ensures
        r == lex_lt(a@, b@),
{
    let alen = a.unicode_len();
    let blen = b.unicode_len();
    let mut i: usize = 0;
    proof {
        assert(a@.skip(0) =~= a@);
        assert(b@.skip(0) =~= b@);
    }
    loop
        invariant
            alen == a@.len(),
            blen == b@.len(),
            i <= alen,
            i <= blen,
            lex_lt(a@, b@) == lex_lt(a@.skip(i as int), b@.skip(i as int)),
        decreases alen - i,
    {
        if i == alen || i == blen {
            return i == alen && i < blen;
        }
        let ca = a.get_char(i);
        let cb = b.get_char(i);
        if ca != cb {
            proof {
                assert(a@.skip(i as int)[0] == a@[i as int]);
                assert(b@.skip(i as int)[0] == b@[i as int]);
            }
            return (ca as u32) < (cb as u32);
        }
        proof {
            assert(a@.skip(i as int)[0] == a@[i as int]);
            assert(b@.skip(i as int)[0] == b@[i as int]);
            assert(a@.skip(i as int).drop_first() =~= a@.skip(i + 1));
            assert(b@.skip(i as int).drop_first() =~= b@.skip(i + 1));
        }
        i += 1;
    }
}

/// Compare two names for equality, character by character.
pub fn str_eq(a: &str, b: &str) -> (r: bool)
    ensures
        r == (a@ == b@),
{
    let altb = str_lt(a, b);
    let blta = str_lt(b, a);
    proof {
        lemma_lex_lt_trichotomy(a@, b@);
    }
    !altb && !blta
}

/// The character for one decimal digit.
pub open spec fn decimal_digit(d: nat) -> char {
    if d == 0 {
        '0'
    } else if d == 1 {
        '1'
    } else if d == 2 {
        '2'
    } else if d == 3 {
        '3'
    } else if d == 4 {
        '4'
    } else if d == 5 {
        '5'
    } else if d == 6 {
        '6'
    } else if d == 7 {
        '7'
    } else if d == 8 {
        '8'
    } else {
        '9'
    }
}

/// The usual decimal rendering of a number, most significant digit first,
/// without leading zeros (a single zero for zero itself).
pub open spec fn spec_decimal(n: nat) -> Seq<char>
    decreases n,
{
    if n < 10 {
        seq![decimal_digit(n)]
    } else {
        spec_decimal(n / 10).push(decimal_digit(n % 10))
    }
}

fn digit_str(d: u64) -> (r: &'static str)
    requires
        d < 10,
    ensures
        r@ =~= seq![decimal_digit(d as nat)],
{
    proof {
        reveal_strlit("0");
        reveal_strlit("1");
        reveal_strlit("2");
        reveal_strlit("3");
        reveal_strlit("4");
        reveal_strlit("5");
        reveal_strlit("6");
        reveal_strlit("7");
        reveal_strlit("8");
        reveal_strlit("9");
    }
    if d == 0 {
        "0"
    } else if d == 1 {
        "1"
    } else if d == 2 {
        "2"
    } else if d == 3 {
        "3"
    } else if d == 4 {
        "4"
    } else if d == 5 {
        "5"
    } else if d == 6 {
        "6"
    } else if d == 7 {
        "7"
    } else if d == 8 {
        "8"
    } else {
        "9"
    }
}

/// Render a number in decimal.
pub fn u64_to_decimal(n: u64) -> (r: String)
    ensures
        r@ =~= spec_decimal(n as nat),
    decreases n,
{
    if n < 10 {
        digit_str(n).to_owned()
    } else {
        let mut s = u64_to_decimal(n / 10);
        s.append(digit_str(n % 10));
        proof {
            assert(s@ =~= spec_decimal((n / 10) as nat).push(decimal_digit((n % 10) as nat)));
        }
        s
    }
}

/// Index just past the last occurrence of `c` in `s`: 0 when `c` does not
/// occur.
pub open spec fn after_last(s: Seq<char>, c: char) -> int
    decreases s.len(),
{
    if s.len() == 0 {
        0
    } else if s[s.len() - 1] == c {
        s.len() as int
    } else {
        after_last(s.drop_last(), c)
    }
}

/// Length of the stem within a bare file name: everything before the last
/// `.` that is not the first character; the whole name when there is no
/// such `.`, so that a leading `.` alone never starts an extension.
pub open spec fn stem_len(name: Seq<char>) -> int
    decreases name.len(),
{
    if name.len() <= 1 {
        name.len() as int
    } else if name[name.len() - 1] == '.' {
        (name.len() - 1) as int
    } else if stem_len(name.drop_last()) == name.len() - 1 {
        name.len() as int
    } else {
        stem_len(name.drop_last())
    }
}

/// The file stem of a path: the part of its final `/`-separated component
/// before that component's last interior `.`.
pub open spec fn spec_file_stem(path: Seq<char>) -> Seq<char> {
    let name = path.skip(after_last(path, '/'));
    name.take(stem_len(name))
}

fn after_last_exec(s: &str, c: char, end: usize) -> (r: usize)
    requires
        end <= s@.len(),
    ensures
        r == after_last(s@.take(end as int), c),
        r <= end,
    decreases end,
{
    if end == 0 {
        0
    } else if s.get_char(end - 1) == c {
        end
    } else {
        proof {
            assert(s@.take(end as int).drop_last() =~= s@.take(end - 1));
        }
        after_last_exec(s, c, end - 1)
    }
}

fn stem_len_exec(name: &str, end: usize) -> (r: usize)
    requires
        end <= name@.len(),
    ensures
        r == stem_len(name@.take(end as int)),
        r <= end,
    decreases end,
{
    if end <= 1 {
        end
    } else if name.get_char(end - 1) == '.' {
        end - 1
    } else {
        proof {
            assert(name@.take(end as int).drop_last() =~= name@.take(end - 1));
        }
        let inner = stem_len_exec(name, end - 1);
        if inner == end - 1 {
            end
        } else {
            inner
        }
    }
}

/// The file stem of a path, as `spec_file_stem` describes it.
pub fn file_stem(path: &str) -> (r: String)
    ensures
        r@ == spec_file_stem(path@),
{
    let len = path.unicode_len();
    proof {
        assert(path@.take(len as int) =~= path@);
    }
    let sep = after_last_exec(path, '/', len);
    let name = path.substring_char(sep, len);
    proof {
        assert(name@ =~= path@.skip(after_last(path@, '/')));
    }
    let nlen = name.unicode_len();
    proof {
        assert(name@.take(nlen as int) =~= name@);
    }
    let stem_end = stem_len_exec(name, nlen);
    let stem = name.substring_char(0, stem_end);
    proof {
        assert(stem@ =~= name@.take(stem_len(name@)));
    }
    stem.to_owned()
}

/// Copy a byte buffer.
pub fn clone_bytes(v: &Vec<u8>) -> (r: Vec<u8>)
    ensures
        r@ =~= v@,
{
    let mut out: Vec<u8> = Vec::new();
    let n = v.len();
    let mut i: usize = 0;
    while i < n
        invariant
            n == v@.len(),
            i <= n,
            out@ =~= v@.take(i as int),
        decreases n - i,
    {
        out.push(v[i]);
        i += 1;
    }
    proof {
        assert(v@.take(n as int) =~= v@);
    }
    out
}

/// `c` is a decimal digit.
pub open spec fn is_digit_char(c: char) -> bool {
    48 <= (c as u32) && (c as u32) <= 57
}

/// The numeric value of a digit sequence, most significant first.
pub open spec fn digits_value(s: Seq<char>) -> int
    decreases s.len(),
{
    if s.len() == 0 {
        0
    } else {
        digits_value(s.drop_last()) * 10 + ((s.last() as u32) - 48)
    }
}

/// Every character of `s` is a decimal digit.
pub open spec fn all_digits(s: Seq<char>) -> bool {
    forall|i: int| 0 <= i < s.len() ==> is_digit_char(#[trigger] s[i])
}

/// The digits of a number: everything after an optional leading `+`.
pub open spec fn spec_parse_body(s: Seq<char>) -> Seq<char> {
    if s.len() > 0 && s[0] == '+' {
        s.drop_first()
    } else {
        s
    }
}

/// What parsing an unsigned 32-bit number from `s` yields: an optional
/// leading `+`, then at least one digit, with the value in range.
pub open spec fn spec_parse_u32(s: Seq<char>) -> Option<u32> {
    let body = spec_parse_body(s);
    if body.len() > 0 && all_digits(body) && digits_value(body) <= u32::MAX {
        Some(digits_value(body) as u32)
    } else {
        None
    }
}

/// A digit string's value never shrinks as digits are appended.
proof fn lemma_digits_value_monotone(s: Seq<char>, i: int)
    requires
        0 <= i <= s.len(),
        all_digits(s),
    ensures
        digits_value(s.take(i)) <= digits_value(s),
        digits_value(s) >= 0,
    decreases s.len() - i,
{
    if i == s.len() {
        assert(s.take(i) =~= s);
        lemma_digits_value_nonneg(s);
    } else {
        lemma_digits_value_monotone(s, i + 1);
        assert(s.take(i + 1).drop_last() =~= s.take(i));
        assert(s.take(i + 1).last() == s[i]);
        lemma_digits_value_nonneg(s.take(i));
        assert(digits_value(s.take(i)) * 10 >= digits_value(s.take(i))) by (nonlinear_arith)
            requires
                digits_value(s.take(i)) >= 0,
        ;
    }
}

proof fn lemma_digits_value_nonneg(s: Seq<char>)
    ensures
        all_digits(s) ==> digits_value(s) >= 0,
    decreases s.len(),
{
    if s.len() > 0 {
        lemma_digits_value_nonneg(s.drop_last());
        if all_digits(s) {
            assert(all_digits(s.drop_last())) by {
                assert forall|i: int|
                    0 <= i < s.drop_last().len() implies is_digit_char(
                    #[trigger] s.drop_last()[i],
                ) by {
                    assert(s.drop_last()[i] == s[i]);
                }
            }
            assert(digits_value(s.drop_last()) * 10 >= 0) by (nonlinear_arith)
                requires
                    digits_value(s.drop_last()) >= 0,
            ;
        }
    }
}

/// Parse an unsigned 32-bit number, as `spec_parse_u32` describes it.
pub fn parse_u32(s: &str) -> (r: Option<u32>)
    ensures
        r == spec_parse_u32(s@),
{
    let len = s.unicode_len();
    let start: usize = if len > 0 && s.get_char(0) == '+' {
        1
    } else {
        0
    };
    let ghost body = spec_parse_body(s@);
    proof {
        assert(body =~= s@.skip(start as int));
    }
    if len == start {
        return None;
    }
    let mut acc: u64 = 0;
    let mut i: usize = start;
    while i < len
        invariant
            start <= i <= len,
            len == s@.len(),
            start < len,
            start == 0 || start == 1,
            (start == 1) <==> (s@.len() > 0 && s@[0] == '+'),
            body == s@.skip(start as int),
            body == spec_parse_body(s@),
            acc == digits_value(body.take(i - start)),
            acc <= u32::MAX,
            all_digits(body.take(i - start)),
        decreases len - i,
    {
        let c = s.get_char(i);
        let cv = c as u32;
        if cv < 48 || cv > 57 {
            proof {
                assert(0 <= i - start < body.len());
                assert(body[i - start] == s@[i as int]);
                assert(!is_digit_char(body[i - start]));
                assert(!all_digits(body));
            }
            return None;
        }
        proof {
            assert(body.take(i - start + 1).drop_last() =~= body.take(i - start));
            assert(body.take(i - start + 1).last() == body[i - start] == s@[i as int]);
            assert forall|k: int|
                0 <= k < body.take(i - start + 1).len() implies is_digit_char(
                #[trigger] body.take(i - start + 1)[k],
            ) by {
                if k < i - start {
                    assert(body.take(i - start + 1)[k] == body.take(i - start)[k]);
                }
            }
        }
        let next = acc * 10 + (cv - 48) as u64;
        if next > u32::MAX as u64 {
            proof {
                assert(digits_value(body.take(i - start + 1)) == acc * 10 + (cv - 48));
                if all_digits(body) {
                    lemma_digits_value_monotone(body, i - start + 1);
                    assert(digits_value(body) >= digits_value(body.take(i - start + 1)));
                }
            }
            return None;
        }
        acc = next;
        i += 1;
    }
    proof {
        assert(body.take((len - start) as int) =~= body);
    }
    Some(acc as u32)
}

/// The extension of a path: what follows the last interior `.` of its
/// final `/`-separated component; `None` when there is no such `.`.
pub open spec fn spec_file_extension(path: Seq<char>) -> Option<Seq<char>> {
    let name = path.skip(after_last(path, '/'));
    if stem_len(name) < name.len() {
        Some(name.skip(stem_len(name) + 1))
    } else {
        None
    }
}

/// The extension of a path, as `spec_file_extension` describes it.
pub fn file_extension(path: &str) -> (r: Option<String>)
    ensures
        match r {
            Some(e) => spec_file_extension(path@) == Some(e@),
            None => spec_file_extension(path@) is None,
        },
{
    let len = path.unicode_len();
    proof {
        assert(path@.take(len as int) =~= path@);
    }
    let sep = after_last_exec(path, '/', len);
    let name = path.substring_char(sep, len);
    proof {
        assert(name@ =~= path@.skip(after_last(path@, '/')));
    }
    let nlen = name.unicode_len();
    proof {
        assert(name@.take(nlen as int) =~= name@);
    }
    let se = stem_len_exec(name, nlen);
    if se < nlen {
        let ext = name.substring_char(se + 1, nlen);
        proof {
            assert(ext@ =~= name@.skip(stem_len(name@) + 1));
        }
        Some(ext.to_owned())
    } else {
        None
    }
}

} // verus!
