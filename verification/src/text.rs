//! Verified character-level text helpers used by the path resolver, the key
//! unifier and the log query.

use vstd::prelude::*;

verus! {

/// First index `>= from` where `c` occurs in `s`, or `s.len()` if none.
pub open spec fn find_from(s: Seq<char>, c: char, from: int) -> int
    decreases s.len() - from,
{
    if 0 <= from < s.len() {
        if s[from] == c {
            from
        } else {
            find_from(s, c, from + 1)
        }
    } else {
        s.len() as int
    }
}

/// Last index `< cut` where `c` occurs in `s`, or `-1` if none.
pub open spec fn rfind_before(s: Seq<char>, c: char, cut: int) -> int
    decreases cut,
{
    if 0 < cut <= s.len() {
        if s[cut - 1] == c {
            cut - 1
        } else {
            rfind_before(s, c, cut - 1)
        }
    } else {
        -1
    }
}

/// `n` occurs contiguously somewhere in `h`.
pub open spec fn has_substring(h: Seq<char>, n: Seq<char>) -> bool {
    exists|i: int| 0 <= i <= h.len() - n.len() && #[trigger] h.subrange(i, i + n.len()) == n
}

/// Decimal digit test.
pub open spec fn is_digit(c: char) -> bool {
    48 <= c as u32 <= 57
}

/// Value of one decimal digit.
pub open spec fn digit_val(c: char) -> nat {
    (c as u32 - 48) as nat
}

/// Every character is a decimal digit.
pub open spec fn is_digits(s: Seq<char>) -> bool {
    forall|i: int| 0 <= i < s.len() ==> is_digit(s[i])
}

/// Numeric value of a decimal digit string.
pub open spec fn digits_value(s: Seq<char>) -> nat
    decreases s.len(),
{
    if s.len() == 0 {
        0
    } else {
        digits_value(s.drop_last()) * 10 + digit_val(s.last())
    }
}

/// `s` with every leading and trailing `'.'` removed.
pub open spec fn trim_dots_spec(s: Seq<char>) -> Seq<char>
    decreases s.len(),
{
    if s.len() > 0 && s[0] == '.' {
        trim_dots_spec(s.drop_first())
    } else if s.len() > 0 && s.last() == '.' {
        trim_dots_spec(s.drop_last())
    } else {
        s
    }
}

/// What `find_from` returns: the first occurrence at or after `from`.
pub proof fn lemma_find_from(s: Seq<char>, c: char, from: int)
    requires
        0 <= from <= s.len(),
    ensures
        from <= find_from(s, c, from) <= s.len(),
        find_from(s, c, from) < s.len() ==> s[find_from(s, c, from)] == c,
        forall|k: int| from <= k < find_from(s, c, from) ==> s[k] != c,
    decreases s.len() - from,
{
    if from < s.len() && s[from] != c {
        lemma_find_from(s, c, from + 1);
    }
}

/// What `rfind_before` returns: the last occurrence before `cut`.
pub proof fn lemma_rfind_before(s: Seq<char>, c: char, cut: int)
    requires
        0 <= cut <= s.len(),
    ensures
        -1 <= rfind_before(s, c, cut) < cut,
        rfind_before(s, c, cut) >= 0 ==> s[rfind_before(s, c, cut)] == c,
        forall|k: int| rfind_before(s, c, cut) < k < cut ==> s[k] != c,
    decreases cut,
{
    if 0 < cut && s[cut - 1] != c {
        lemma_rfind_before(s, c, cut - 1);
    }
}

/// A digit string is worth at least any of its prefixes.
pub proof fn lemma_digits_value_prefix(s: Seq<char>, i: int)
    requires
        0 <= i <= s.len(),
    ensures
        digits_value(s) >= digits_value(s.take(i)),
    decreases s.len() - i,
{
    if i == s.len() {
        assert(s.take(i) =~= s);
    } else {
        let t = s.take(i + 1);
        assert(t.drop_last() =~= s.take(i));
        assert(digits_value(t) == digits_value(s.take(i)) * 10 + digit_val(t.last()));
        lemma_digits_value_prefix(s, i + 1);
    }
}

/// Character-wise string equality, equivalent to view equality.
pub fn str_eq(a: &str, b: &str) -> (r: bool)
    ensures
        r == (a@ == b@),
{
    let al = a.unicode_len();
    let bl = b.unicode_len();
    if al != bl {
        proof {
            if a@ == b@ {
                assert(a@.len() == b@.len());
            }
        }
        return false;
    }
    let mut i: usize = 0;
    while i < al
        invariant
            i <= al,
            al == a@.len(),
            al == b@.len(),
            forall|k: int| 0 <= k < i ==> a@[k] == b@[k],
        decreases al - i,
    {
        let ca = a.get_char(i);
        let cb = b.get_char(i);
        if ca != cb {
            proof {
                if a@ == b@ {
                    assert(a@[i as int] == b@[i as int]);
                }
            }
            return false;
        }
        i = i + 1;
    }
    proof {
        assert(a@ =~= b@);
    }
    true
}

/// First occurrence of `c` in `s` at or after `from`, or the length of `s`.
pub fn find_char_from(s: &str, c: char, from: usize) -> (r: usize)
    requires
        from <= s@.len(),
    ensures
        r == find_from(s@, c, from as int),
        from <= r <= s@.len(),
        r < s@.len() ==> s@[r as int] == c,
        forall|k: int| from <= k < r ==> s@[k] != c,
{
    let n = s.unicode_len();
    let mut i: usize = from;
    while i < n
        invariant
            from <= i <= n,
            n == s@.len(),
            forall|k: int| from <= k < i ==> s@[k] != c,
        decreases n - i,
    {
        if s.get_char(i) == c {
            proof {
                lemma_find_from(s@, c, from as int);
                let f = find_from(s@, c, from as int);
                if f < i {
                    assert(s@[f] != c);
                }
                if f > i {
                    assert(s@[i as int] != c);
                }
            }
            return i;
        }
        i = i + 1;
    }
    proof {
        lemma_find_from(s@, c, from as int);
        let f = find_from(s@, c, from as int);
        if f < n {
            assert(s@[f] != c);
        }
    }
    n
}

/// Last occurrence of `c` in `s` strictly before `cut`, if any.
pub fn rfind_char_before(s: &str, c: char, cut: usize) -> (r: Option<usize>)
    requires
        cut <= s@.len(),
    ensures
        match r {
            Some(d) => d == rfind_before(s@, c, cut as int),
            None => rfind_before(s@, c, cut as int) == -1,
        },
{
    let mut i: usize = cut;
    while i > 0
        invariant
            i <= cut <= s@.len(),
            forall|k: int| i <= k < cut ==> s@[k] != c,
        decreases i,
    {
        if s.get_char(i - 1) == c {
            proof {
                lemma_rfind_before(s@, c, cut as int);
                let f = rfind_before(s@, c, cut as int);
                if f < i - 1 {
                    assert(s@[i - 1] != c);
                }
                if f > i - 1 {
                    assert(s@[f] != c);
                }
            }
            return Some(i - 1);
        }
        i = i - 1;
    }
    proof {
        lemma_rfind_before(s@, c, cut as int);
        let f = rfind_before(s@, c, cut as int);
        if f >= 0 {
            assert(s@[f] != c);
        }
    }
    None
}

/// Case-sensitive substring test.
pub fn contains_str(h: &str, n: &str) -> (r: bool)
    ensures
        r == has_substring(h@, n@),
{
    let hl = h.unicode_len();
    let nl = n.unicode_len();
    if nl > hl {
        proof {
            if has_substring(h@, n@) {
                let i = choose|i: int|
                    0 <= i <= h@.len() - n@.len() && #[trigger] h@.subrange(i, i + n@.len()) == n@;
                assert(false);
            }
        }
        return false;
    }
    let mut i: usize = 0;
    while i <= hl - nl
        invariant
            nl <= hl,
            hl == h@.len(),
            nl == n@.len(),
            i <= hl - nl + 1,
            forall|x: int| 0 <= x < i ==> #[trigger] h@.subrange(x, x + n@.len()) != n@,
        decreases hl - nl + 1 - i,
    {
        let mut j: usize = 0;
        let mut matched: bool = true;
        while j < nl
            invariant_except_break
                matched,
            invariant
                j <= nl,
                i + nl <= hl,
                hl == h@.len(),
                nl == n@.len(),
                forall|y: int| 0 <= y < j ==> h@[i + y] == n@[y],
            ensures
                matched ==> j == nl && forall|y: int| 0 <= y < j ==> h@[i + y] == n@[y],
                !matched ==> exists|y: int| 0 <= y < n@.len() && h@[i + y] != n@[y],
            decreases nl - j,
        {
            if h.get_char(i + j) != n.get_char(j) {
                matched = false;
                break;
            }
            j = j + 1;
        }
        if matched {
            proof {
                assert(h@.subrange(i as int, i + n@.len()) =~= n@);
            }
            return true;
        }
        proof {
            let y = choose|y: int| 0 <= y < n@.len() && h@[i + y] != n@[y];
            assert(h@.subrange(i as int, i + n@.len())[y] == h@[i + y]);
        }
        i = i + 1;
    }
    proof {
        if has_substring(h@, n@) {
            let x = choose|x: int|
                0 <= x <= h@.len() - n@.len() && #[trigger] h@.subrange(x, x + n@.len()) == n@;
            assert(h@.subrange(x, x + n@.len()) != n@);
        }
    }
    false
}

/// Parse a decimal index. Returns the value exactly when the string is a
/// non-empty digit string whose value fits in `usize`.
pub fn parse_index(s: &str) -> (r: Option<usize>)
    ensures
        match r {
            Some(v) => is_digits(s@) && s@.len() > 0 && v == digits_value(s@),
            None => !(is_digits(s@) && 0 < s@.len() && digits_value(s@) <= usize::MAX),
        },
{
    let n = s.unicode_len();
    if n == 0 {
        return None;
    }
    let mut acc: usize = 0;
    let mut i: usize = 0;
    while i < n
        invariant
            i <= n,
            n == s@.len(),
            forall|k: int| 0 <= k < i ==> is_digit(s@[k]),
            acc == digits_value(s@.take(i as int)),
        decreases n - i,
    {
        let c = s.get_char(i);
        let cv = c as u32;
        if cv < 48 || cv > 57 {
            return None;
        }
        let d = (cv - 48) as usize;
        proof {
            assert(s@.take(i + 1).drop_last() =~= s@.take(i as int));
            assert(s@.take(i + 1).last() == s@[i as int]);
        }
        if acc > (usize::MAX - d) / 10 {
            proof {
                let m = (usize::MAX - d) as int;
                assert(acc >= m / 10 + 1);
                assert(acc * 10 >= (m / 10) * 10 + 10);
                assert((m / 10) * 10 + m % 10 == m);
                assert(m % 10 <= 9);
                assert(acc * 10 + d > usize::MAX);
                assert(digits_value(s@.take(i + 1)) > usize::MAX);
                lemma_digits_value_prefix(s@, i + 1);
            }
            return None;
        }
        proof {
            let m = (usize::MAX - d) as int;
            assert(acc * 10 <= (m / 10) * 10);
            assert((m / 10) * 10 + m % 10 == m);
            assert(acc * 10 + d <= usize::MAX);
        }
        acc = acc * 10 + d;
        i = i + 1;
    }
    proof {
        assert(s@.take(n as int) =~= s@);
    }
    Some(acc)
}

/// Remove every leading and trailing `'.'`.
pub fn trim_dots(s: &str) -> (r: String)
    ensures
        r@ == trim_dots_spec(s@),
{
    let n = s.unicode_len();
    proof {
        assert(s@.skip(0) =~= s@);
    }
    let mut a: usize = 0;
    while a < n && s.get_char(a) == '.'
        invariant
            a <= n,
            n == s@.len(),
            trim_dots_spec(s@) == trim_dots_spec(s@.skip(a as int)),
        decreases n - a,
    {
        proof {
            assert(s@.skip(a as int)[0] == s@[a as int]);
            assert(s@.skip(a as int).drop_first() =~= s@.skip(a + 1));
        }
        a = a + 1;
    }
    if a == n {
        proof {
            assert(s@.skip(a as int) =~= Seq::<char>::empty());
        }
        return String::new();
    }
    let mut b: usize = n;
    while b > a && s.get_char(b - 1) == '.'
        invariant
            a < b <= n,
            a < n,
            n == s@.len(),
            s@[a as int] != '.',
            trim_dots_spec(s@) == trim_dots_spec(s@.subrange(a as int, b as int)),
        decreases b,
    {
        proof {
            let t = s@.subrange(a as int, b as int);
            assert(t[0] == s@[a as int]);
            assert(t.last() == s@[b - 1]);
            assert(t.drop_last() =~= s@.subrange(a as int, b - 1));
        }
        b = b - 1;
    }
    proof {
        let t = s@.subrange(a as int, b as int);
        assert(t[0] == s@[a as int]);
        assert(t.last() == s@[b - 1]);
        assert(trim_dots_spec(t) == t);
    }
    let piece = s.substring_char(a, b);
    String::from_str(piece)
}

} // verus!
