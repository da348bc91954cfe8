//! Characters and character sequences: white space, trimming, searching,
//! lexicographic order and decimal numerals.

use vstd::prelude::*;
use vstd::std_specs::iter::IteratorSpec;
use vstd::string::*;

verus! {

/// Whether Unicode counts `c` as white space (`White_Space`).
pub open spec fn white_space(c: char) -> bool {
    let u = c as int;
    ||| 0x09 <= u <= 0x0D
    ||| u == 0x20
    ||| u == 0x85
    ||| u == 0xA0
    ||| u == 0x1680
    ||| 0x2000 <= u <= 0x200A
    ||| u == 0x2028
    ||| u == 0x2029
    ||| u == 0x202F
    ||| u == 0x205F
    ||| u == 0x3000
}

/// `s` without its leading white space.
pub open spec fn trim_start(s: Seq<char>) -> Seq<char>
    decreases s.len(),
{
    if s.len() > 0 && white_space(s[0]) {
        trim_start(s.drop_first())
    } else {
        s
    }
}

/// `s` without its trailing white space.
pub open spec fn trim_end(s: Seq<char>) -> Seq<char>
    decreases s.len(),
{
    if s.len() > 0 && white_space(s.last()) {
        trim_end(s.drop_last())
    } else {
        s
    }
}

/// `s` without its leading and trailing white space.
pub open spec fn trimmed(s: Seq<char>) -> Seq<char> {
    trim_end(trim_start(s))
}

/// The number of characters of `s` that stand before the first `c`; the
/// length of `s` where `c` does not occur.
pub open spec fn first_index(s: Seq<char>, c: char) -> int
    decreases s.len(),
{
    if s.len() == 0 || s[0] == c {
        0
    } else {
        1 + first_index(s.drop_first(), c)
    }
}

/// `a` and `b` agree on their first `k` characters, and at position `k`
/// either `a` ends while `b` goes on, or `a` holds the smaller character.
pub open spec fn precedes_at(a: Seq<char>, b: Seq<char>, k: int) -> bool {
    &&& 0 <= k <= a.len()
    &&& k < b.len()
    &&& a.take(k) == b.take(k)
    &&& (k == a.len() || (a[k] as int) < (b[k] as int))
}

/// Strict lexicographic order by code point.
pub open spec fn lex_lt(a: Seq<char>, b: Seq<char>) -> bool {
    exists|k: int| precedes_at(a, b, k)
}

/// The decimal digit for `d`, which is below ten.
pub open spec fn digit(d: nat) -> char {
    if d == 0 {
        '0'
    } else if d == 1 {
        '1'
    } else if d == 2 {
        '2'
    } else if d == 3 {
        '3'
    } else if d == 4 {
        '4'
    } else if d == 5 {
        '5'
    } else if d == 6 {
        '6'
    } else if d == 7 {
        '7'
    } else if d == 8 {
        '8'
    } else {
        '9'
    }
}

/// The decimal numeral of `n`, without leading zeros.
pub open spec fn decimal(n: nat) -> Seq<char>
    decreases n,
{
    if n < 10 {
        seq![digit(n)]
    } else {
        decimal(n / 10).push(digit(n % 10))
    }
}

/// The lines of a list as character sequences.
pub open spec fn line_views(lines: Seq<String>) -> Seq<Seq<char>> {
    lines.map_values(|line: String| line@)
}

/// How one character sequence stands to another in lexicographic order.
#[derive(Debug, Clone, Copy, PartialEq, Eq)]
pub enum Position {
    Before,
    Same,
    After,
}

/// Where `c` is not found among the first `i` characters, and either is
/// the next one or `s` ends there, `i` is its first index.
pub proof fn lemma_first_index(s: Seq<char>, c: char, i: int)
    requires
        0 <= i <= s.len(),
        forall|k: int| 0 <= k < i ==> s[k] != c,
        i == s.len() || s[i] == c,
    ensures
        first_index(s, c) == i,
    decreases s.len(),
{
    if i > 0 {
        let rest = s.drop_first();
        assert forall|k: int| 0 <= k < i - 1 implies rest[k] != c by {
            assert(rest[k] == s[k + 1]);
        }
        lemma_first_index(rest, c, i - 1);
    }
}

/// The first index of `c` lies within `s` or at its end, no earlier
/// character is `c`, and the character there, if any, is `c`.
pub proof fn lemma_first_index_is_first(s: Seq<char>, c: char)
    ensures
        0 <= first_index(s, c) <= s.len(),
        forall|k: int| 0 <= k < first_index(s, c) ==> s[k] != c,
        first_index(s, c) < s.len() ==> s[first_index(s, c)] == c,
    decreases s.len(),
{
    if s.len() > 0 && s[0] != c {
        let rest = s.drop_first();
        lemma_first_index_is_first(rest, c);
        assert forall|k: int| 0 <= k < first_index(s, c) implies s[k] != c by {
            if k > 0 {
                assert(s[k] == rest[k - 1]);
            }
        }
        assert(first_index(s, c) < s.len() ==> s[first_index(s, c)] == rest[first_index(rest, c)]);
    }
}

/// Trimming leaves alone what neither begins nor ends with white space.
pub proof fn lemma_trimmed_bare(s: Seq<char>)
    requires
        s.len() > 0 ==> !white_space(s[0]) && !white_space(s.last()),
    ensures
        trimmed(s) == s,
{
}

/// No sequence precedes itself.
pub proof fn lemma_lex_lt_irreflexive(a: Seq<char>)
    ensures
        !lex_lt(a, a),
{
}

/// Of two sequences at most one precedes the other.
pub proof fn lemma_lex_lt_asymmetric(a: Seq<char>, b: Seq<char>)
    requires
        lex_lt(a, b),
    ensures
        !lex_lt(b, a),
{
    let k = choose|k: int| precedes_at(a, b, k);
    if lex_lt(b, a) {
        let m = choose|m: int| precedes_at(b, a, m);
        if k < m {
            assert(b.take(m)[k] == a.take(m)[k]);
        } else if m < k {
            assert(a.take(k)[m] == b.take(k)[m]);
        }
    }
}

/// The order is transitive.
pub proof fn lemma_lex_lt_transitive(a: Seq<char>, b: Seq<char>, c: Seq<char>)
    requires
        lex_lt(a, b),
        lex_lt(b, c),
    ensures
        lex_lt(a, c),
{
    let k = choose|k: int| precedes_at(a, b, k);
    let m = choose|m: int| precedes_at(b, c, m);
    let n = if k <= m { k } else { m };
    assert(a.take(n) =~= c.take(n)) by {
        assert forall|j: int| 0 <= j < n implies a[j] == c[j] by {
            assert(a.take(k)[j] == b.take(k)[j]);
            assert(b.take(m)[j] == c.take(m)[j]);
        }
    }
    if k < m {
        assert(b.take(m)[k] == c.take(m)[k]);
    } else if m < k {
        assert(a.take(k)[m] == b.take(k)[m]);
    }
    assert(precedes_at(a, c, n));
}

/// Tells whether `c` is white space.
pub fn is_whitespace(c: char) -> (r: bool)
    ensures
        r == white_space(c),
{
    let u: u32 = c as u32;
    (0x09 <= u && u <= 0x0D) || u == 0x20 || u == 0x85 || u == 0xA0 || u == 0x1680 || (0x2000 <= u
        && u <= 0x200A) || u == 0x2028 || u == 0x2029 || u == 0x202F || u == 0x205F || u == 0x3000
}

/// The characters of `s`, one element each.
pub fn to_chars(s: &str) -> (chars: Vec<char>)
    ensures
        chars@ == s@,
{
    broadcast use vstd::string::group_string_axioms;

    let mut chars: Vec<char> = Vec::new();
    for c in iter: s.chars()
        invariant
            iter.seq() == s@,
            chars@ == iter.seq().take(iter.index() as int),
    {
        chars.push(c);
    }
    chars
}

/// Trims the characters from `lo` up to `hi`: returns the bounds of what
/// is left of that range without its leading and trailing white space,
/// and the empty range at `hi` where nothing is left.
pub fn trim_range(chars: &Vec<char>, lo: usize, hi: usize) -> (bounds: (usize, usize))
    requires
        lo <= hi <= chars.len(),
    ensures
        lo <= bounds.0 <= bounds.1 <= hi,
        bounds.0 == bounds.1 ==> bounds.0 == hi,
        chars@.subrange(bounds.0 as int, bounds.1 as int) == trimmed(
            chars@.subrange(lo as int, hi as int),
        ),
{
    let mut start = lo;
    while start < hi && is_whitespace(chars[start])
        invariant
            lo <= start <= hi <= chars.len(),
            trim_start(chars@.subrange(lo as int, hi as int)) == trim_start(
                chars@.subrange(start as int, hi as int),
            ),
        decreases hi - start,
    {
        assert(chars@.subrange(start as int, hi as int).drop_first() =~= chars@.subrange(
            start + 1,
            hi as int,
        ));
        start += 1;
    }
    let mut end = hi;
    while start < end && is_whitespace(chars[end - 1])
        invariant
            start <= end <= hi <= chars.len(),
            start == hi || (start < end && !white_space(chars@[start as int])),
            trim_end(chars@.subrange(start as int, hi as int)) == trim_end(
                chars@.subrange(start as int, end as int),
            ),
        decreases end - start,
    {
        assert(chars@.subrange(start as int, end as int).drop_last() =~= chars@.subrange(
            start as int,
            end - 1,
        ));
        end -= 1;
    }
    (start, end)
}

/// Tells whether the characters from `lo` up to `hi` begin with `pattern`.
pub fn range_starts_with(chars: &Vec<char>, lo: usize, hi: usize, pattern: &str) -> (r: bool)
    requires
        lo <= hi <= chars.len(),
    ensures
        r == pattern@.is_prefix_of(chars@.subrange(lo as int, hi as int)),
{
    let n = pattern.unicode_len();
    if n > hi - lo {
        return false;
    }
    let ghost range = chars@.subrange(lo as int, hi as int);
    let mut k: usize = 0;
    while k < n
        invariant
            lo <= hi <= chars.len(),
            n == pattern@.len(),
            k <= n <= hi - lo,
            range == chars@.subrange(lo as int, hi as int),
            forall|j: int| 0 <= j < k ==> range[j] == pattern@[j],
        decreases n - k,
    {
        if chars[lo + k] != pattern.get_char(k) {
            assert(range.subrange(0, n as int)[k as int] != pattern@[k as int]);
            return false;
        }
        k += 1;
    }
    assert(pattern@ =~= range.subrange(0, n as int));
    true
}

/// Tells whether the characters from `lo` up to `hi` end with `pattern`.
pub fn range_ends_with(chars: &Vec<char>, lo: usize, hi: usize, pattern: &str) -> (r: bool)
    requires
        lo <= hi <= chars.len(),
    ensures
        r == pattern@.is_suffix_of(chars@.subrange(lo as int, hi as int)),
{
    let n = pattern.unicode_len();
    if n > hi - lo {
        return false;
    }
    let from = hi - n;
    let ghost range = chars@.subrange(lo as int, hi as int);
    let mut k: usize = 0;
    while k < n
        invariant
            lo <= from <= hi <= chars.len(),
            n == pattern@.len(),
            from == hi - n,
            k <= n,
            range == chars@.subrange(lo as int, hi as int),
            forall|j: int| 0 <= j < k ==> range[range.len() - n + j] == pattern@[j],
        decreases n - k,
    {
        if chars[from + k] != pattern.get_char(k) {
            assert(range.subrange(range.len() - n, range.len() as int)[k as int]
                != pattern@[k as int]);
            return false;
        }
        k += 1;
    }
    assert(pattern@ =~= range.subrange(range.len() - n, range.len() as int));
    true
}

/// Finds the first `c` among the characters from `lo` up to `hi`.
pub fn find_in_range(chars: &Vec<char>, lo: usize, hi: usize, c: char) -> (found: Option<usize>)
    requires
        lo <= hi <= chars.len(),
    ensures
        match found {
            Some(at) => lo <= at < hi && at - lo == first_index(
                chars@.subrange(lo as int, hi as int),
                c,
            ),
            None => first_index(chars@.subrange(lo as int, hi as int), c) == hi - lo,
        },
{
    let ghost range = chars@.subrange(lo as int, hi as int);
    let mut at = lo;
    while at < hi
        invariant
            lo <= at <= hi <= chars.len(),
            range == chars@.subrange(lo as int, hi as int),
            forall|k: int| 0 <= k < at - lo ==> range[k] != c,
        decreases hi - at,
    {
        if chars[at] == c {
            proof {
                lemma_first_index(range, c, at - lo);
            }
            return Some(at);
        }
        at += 1;
    }
    proof {
        lemma_first_index(range, c, hi - lo);
    }
    None
}

/// Compares two strings in lexicographic order by code point.
pub fn compare(a: &str, b: &str) -> (r: Position)
    ensures
        r is Before <==> lex_lt(a@, b@),
        r is Same <==> a@ == b@,
        r is After <==> lex_lt(b@, a@),
{
    broadcast use vstd::string::group_string_axioms;

    let mut rest_a = a.chars();
    let mut rest_b = b.chars();
    let ghost mut i: int = 0;
    loop
        invariant
            0 <= i <= a@.len(),
            i <= b@.len(),
            a@.take(i) == b@.take(i),
            rest_a.remaining() == a@.skip(i),
            rest_b.remaining() == b@.skip(i),
        decreases a@.len() - i,
    {
        let next_a = rest_a.next();
        let next_b = rest_b.next();
        match (next_a, next_b) {
            (None, None) => {
                proof {
                    assert(a@ =~= a@.take(i));
                    assert(b@ =~= b@.take(i));
                    lemma_lex_lt_irreflexive(a@);
                }
                return Position::Same;
            },
            (None, Some(_)) => {
                proof {
                    assert(precedes_at(a@, b@, i));
                    lemma_lex_lt_asymmetric(a@, b@);
                }
                return Position::Before;
            },
            (Some(_), None) => {
                proof {
                    assert(precedes_at(b@, a@, i));
                    lemma_lex_lt_asymmetric(b@, a@);
                }
                return Position::After;
            },
            (Some(x), Some(y)) => {
                assert(x == a@[i] && y == b@[i]) by {
                    assert(a@.skip(i)[0] == a@[i]);
                    assert(b@.skip(i)[0] == b@[i]);
                }
                if x < y {
                    proof {
                        assert(precedes_at(a@, b@, i));
                        lemma_lex_lt_asymmetric(a@, b@);
                    }
                    return Position::Before;
                } else if y < x {
                    proof {
                        assert(precedes_at(b@, a@, i));
                        lemma_lex_lt_asymmetric(b@, a@);
                    }
                    return Position::After;
                }
                proof {
                    assert(a@.take(i + 1) =~= b@.take(i + 1)) by {
                        assert forall|j: int| 0 <= j < i + 1 implies a@[j] == b@[j] by {
                            if j < i {
                                assert(a@.take(i)[j] == b@.take(i)[j]);
                            }
                        }
                    }
                    assert(a@.skip(i).drop_first() =~= a@.skip(i + 1));
                    assert(b@.skip(i).drop_first() =~= b@.skip(i + 1));
                    i = i + 1;
                }
            },
        }
    }
}

/// Tells whether two strings hold the same characters.
pub fn same_text(a: &str, b: &str) -> (r: bool)
    ensures
        r == (a@ == b@),
{
    match compare(a, b) {
        Position::Same => true,
        _ => false,
    }
}

/// The one-character string of the decimal digit `d`.
fn digit_str(d: u64) -> (s: &'static str)
    requires
        d < 10,
    ensures
        s@ == seq![digit(d as nat)],
{
    proof {
        reveal_strlit("0");
        reveal_strlit("1");
        reveal_strlit("2");
        reveal_strlit("3");
        reveal_strlit("4");
        reveal_strlit("5");
        reveal_strlit("6");
        reveal_strlit("7");
        reveal_strlit("8");
        reveal_strlit("9");
    }
    let s = if d == 0 {
        "0"
    } else if d == 1 {
        "1"
    } else if d == 2 {
        "2"
    } else if d == 3 {
        "3"
    } else if d == 4 {
        "4"
    } else if d == 5 {
        "5"
    } else if d == 6 {
        "6"
    } else if d == 7 {
        "7"
    } else if d == 8 {
        "8"
    } else {
        "9"
    };
    assert(s@ =~= seq![digit(d as nat)]);
    s
}

/// Appends the decimal numeral of `n` to `out`.
pub fn push_decimal(out: &mut String, n: u64)
    ensures
        final(out)@ == old(out)@ + decimal(n as nat),
    decreases n,
{
    if n >= 10 {
        push_decimal(out, n / 10);
    }
    out.append(digit_str(n % 10));
    proof {
        let before = old(out)@;
        if n >= 10 {
            assert(before + decimal((n / 10) as nat) + seq![digit((n % 10) as nat)] =~= before
                + decimal((n / 10) as nat).push(digit((n % 10) as nat)));
        }
    }
}

} // verus!
