//! Character-level text utilities used by the anchor resolver and the
//! schema reconciler: substring search, prefix/suffix tests, counting and
//! splitting on a character, and leftmost non-overlapping replacement.
//!
//! Everything here is verified except the two conversions that std performs
//! (case folding and collecting characters into a `String`).

use vstd::prelude::*;
use vstd::string::*;

verus! {

/// The case-folded form of a character sequence, as `str::to_lowercase`
/// computes it.  The mapping depends on the characters alone.
pub uninterp spec fn lower_of(s: Seq<char>) -> Seq<char>;

/// Relies on `str::to_lowercase`: the result depends on the characters of
/// the input alone, so two equal strings always fold to the same sequence.
#[verifier::external_body]
pub fn lowercase(s: &str) -> (r: String)
    ensures
        r@ == lower_of(s@),
{
    s.to_lowercase()
}

/// Relies on `String`'s `FromIterator<char>` impl: collecting characters
/// yields the string of exactly those characters in order.
#[verifier::external_body]
pub fn string_from_chars(v: &Vec<char>) -> (r: String)
    ensures
        r@ == v@,
{
    v.iter().collect()
}

/// `t` occurs in `s` starting at position `i`.
pub open spec fn seq_contains_at(s: Seq<char>, t: Seq<char>, i: int) -> bool {
    0 <= i && i + t.len() <= s.len() && s.subrange(i, i + t.len() as int) == t
}

/// `t` occurs somewhere in `s` (substring containment).
pub open spec fn seq_contains(s: Seq<char>, t: Seq<char>) -> bool {
    exists|i: int| seq_contains_at(s, t, i)
}

/// `t` is a prefix of `s`.
pub open spec fn is_prefix_of(t: Seq<char>, s: Seq<char>) -> bool {
    t.len() <= s.len() && s.subrange(0, t.len() as int) == t
}

/// `t` is a suffix of `s`.
pub open spec fn is_suffix_of(t: Seq<char>, s: Seq<char>) -> bool {
    t.len() <= s.len() && s.subrange(s.len() - t.len(), s.len() as int) == t
}

/// Does `t` occur in `s` at position `i`?
pub fn matches_at(s: &str, t: &str, i: usize) -> (r: bool)
    requires
        i + t@.len() <= s@.len(),
    ensures
        r == (s@.subrange(i as int, i + t@.len()) == t@),
{
    let n = s.unicode_len();
    let m = t.unicode_len();
    let mut j: usize = 0;
    let mut mismatch = false;
    while j < m && !mismatch
        invariant
            j <= m,
            n == s@.len(),
            m == t@.len(),
            i + m <= s@.len(),
            !mismatch ==> forall|l: int| 0 <= l < j ==> s@[i + l] == t@[l],
            mismatch ==> j < m && s@[i + j] != t@[j as int],
        decreases m - j + (if mismatch { 0int } else { 1int }),
    {
        if s.get_char(i + j) != t.get_char(j) {
            mismatch = true;
        } else {
            j += 1;
        }
    }
    if mismatch {
        proof {
            if s@.subrange(i as int, i + m) == t@ {
                assert(s@.subrange(i as int, i + m)[j as int] == s@[i + j]);
            }
        }
        false
    } else {
        proof {
            assert(s@.subrange(i as int, i + m) =~= t@);
        }
        true
    }
}

/// Character-for-character equality of two string slices.
pub fn str_eq(a: &str, b: &str) -> (r: bool)
    ensures
        r == (a@ == b@),
{
    let n = a.unicode_len();
    let m = b.unicode_len();
    if n != m {
        return false;
    }
    let r = matches_at(a, b, 0);
    proof {
        if a@.subrange(0, m as int) == b@ {
            assert(a@ =~= b@);
        } else if a@ == b@ {
            assert(a@.subrange(0, m as int) =~= b@);
        }
    }
    r
}

/// Substring containment, the exact counterpart of `str::contains`.
pub fn str_contains(s: &str, t: &str) -> (r: bool)
    ensures
        r == seq_contains(s@, t@),
{
    let n = s.unicode_len();
    let m = t.unicode_len();
    if m > n {
        proof {
            assert forall|i: int| !seq_contains_at(s@, t@, i) by {}
        }
        return false;
    }
    let mut i: usize = 0;
    loop
        invariant
            m <= n,
            n == s@.len(),
            m == t@.len(),
            i <= n - m + 1,
            forall|k: int| 0 <= k < i ==> !seq_contains_at(s@, t@, k),
        decreases n - m + 1 - i,
    {
        if i > n - m {
            proof {
                assert forall|k: int| !seq_contains_at(s@, t@, k) by {
                    if 0 <= k && k + m <= n {
                        assert(k < i);
                    }
                }
            }
            return false;
        }
        if matches_at(s, t, i) {
            proof {
                assert(seq_contains_at(s@, t@, i as int));
            }
            return true;
        }
        proof {
            if m == 0 {
                assert(s@.subrange(i as int, i as int) =~= t@);
            }
        }
        i += 1;
    }
}

/// Prefix test, the exact counterpart of `str::starts_with`.
pub fn str_starts_with(s: &str, t: &str) -> (r: bool)
    ensures
        r == is_prefix_of(t@, s@),
{
    let n = s.unicode_len();
    let m = t.unicode_len();
    if m > n {
        return false;
    }
    matches_at(s, t, 0)
}

/// Suffix test, the exact counterpart of `str::ends_with`.
pub fn str_ends_with(s: &str, t: &str) -> (r: bool)
    ensures
        r == is_suffix_of(t@, s@),
{
    let n = s.unicode_len();
    let m = t.unicode_len();
    if m > n {
        return false;
    }
    let r = matches_at(s, t, n - m);
    proof {
        assert(n - m + t@.len() == s@.len());
    }
    r
}

/// How many times `c` occurs in `s`.
pub open spec fn count_char_in(s: Seq<char>, c: char) -> int
    decreases s.len(),
{
    if s.len() == 0 {
        0
    } else {
        (if s[0] == c {
            1int
        } else {
            0int
        }) + count_char_in(s.skip(1), c)
    }
}

proof fn lemma_count_char_step(s: Seq<char>, c: char, i: int)
    requires
        0 <= i < s.len(),
    ensures
        count_char_in(s.skip(i), c) == (if s[i] == c {
            1int
        } else {
            0int
        }) + count_char_in(s.skip(i + 1), c),
{
    assert(s.skip(i).skip(1) =~= s.skip(i + 1));
    assert(s.skip(i)[0] == s[i]);
}

/// Count the occurrences of one character.
pub fn count_char(s: &str, c: char) -> (r: usize)
    ensures
        r == count_char_in(s@, c),
{
    let n = s.unicode_len();
    let mut i: usize = 0;
    let mut r: usize = 0;
    proof {
        assert(s@.skip(0) =~= s@);
    }
    while i < n
        invariant
            i <= n,
            n == s@.len(),
            r <= i,
            count_char_in(s@, c) == r + count_char_in(s@.skip(i as int), c),
        decreases n - i,
    {
        proof {
            lemma_count_char_step(s@, c, i as int);
        }
        if s.get_char(i) == c {
            r += 1;
        }
        i += 1;
    }
    proof {
        assert(s@.skip(n as int) =~= Seq::<char>::empty());
    }
    r
}

/// First occurrence of a character, the counterpart of `str::find` with a
/// character pattern.
pub fn find_char(s: &str, c: char) -> (r: Option<usize>)
    ensures
        match r {
            Some(i) => i < s@.len() && s@[i as int] == c && forall|k: int|
                0 <= k < i ==> s@[k] != c,
            None => forall|k: int| 0 <= k < s@.len() ==> s@[k] != c,
        },
{
    let n = s.unicode_len();
    let mut i: usize = 0;
    while i < n
        invariant
            i <= n,
            n == s@.len(),
            forall|k: int| 0 <= k < i ==> s@[k] != c,
        decreases n - i,
    {
        if s.get_char(i) == c {
            return Some(i);
        }
        i += 1;
    }
    None
}

/// The position just after the last occurrence of `c`, or 0 when `c` does
/// not occur: everything from here on is the tail that follows the last
/// separator.
pub open spec fn spec_after_last_char(s: Seq<char>, c: char) -> int
    decreases s.len(),
{
    if s.len() == 0 {
        0
    } else if s[s.len() - 1] == c {
        s.len() as int
    } else {
        spec_after_last_char(s.drop_last(), c)
    }
}

proof fn lemma_after_last_char_bounds(s: Seq<char>, c: char)
    ensures
        0 <= spec_after_last_char(s, c) <= s.len(),
    decreases s.len(),
{
    if s.len() > 0 && s[s.len() - 1] != c {
        lemma_after_last_char_bounds(s.drop_last(), c);
    }
}

/// Index just after the last occurrence of `c` in `s` (0 when absent).
pub fn after_last_char(s: &str, c: char) -> (r: usize)
    ensures
        r == spec_after_last_char(s@, c),
        r <= s@.len(),
{
    let n = s.unicode_len();
    let mut i: usize = n;
    proof {
        lemma_after_last_char_bounds(s@, c);
        assert(s@.subrange(0, n as int) =~= s@);
    }
    while i > 0
        invariant
            i <= n,
            n == s@.len(),
            spec_after_last_char(s@, c) == spec_after_last_char(s@.subrange(0, i as int), c),
        decreases i,
    {
        proof {
            assert(s@.subrange(0, i as int).drop_last() =~= s@.subrange(0, i as int - 1));
            assert(s@.subrange(0, i as int)[i - 1] == s@[i - 1]);
        }
        if s.get_char(i - 1) == c {
            proof {
                assert(spec_after_last_char(s@.subrange(0, i as int), c) == i as int);
            }
            return i;
        }
        i -= 1;
    }
    proof {
        assert(s@.subrange(0, 0) =~= Seq::<char>::empty());
    }
    0
}

/// Leftmost non-overlapping replacement of `from` by `to`, as
/// `str::replace` performs it for a non-empty pattern.
pub open spec fn spec_replace(s: Seq<char>, from: Seq<char>, to: Seq<char>) -> Seq<char>
    decreases s.len() when from.len() > 0
{
    if s.len() < from.len() {
        s
    } else if s.subrange(0, from.len() as int) == from {
        to + spec_replace(s.skip(from.len() as int), from, to)
    } else {
        seq![s[0]] + spec_replace(s.skip(1), from, to)
    }
}

proof fn lemma_replace_step(s: Seq<char>, from: Seq<char>, to: Seq<char>, i: int)
    requires
        from.len() > 0,
        0 <= i < s.len(),
    ensures
        i + from.len() <= s.len() && s.subrange(i, i + from.len() as int) == from
            ==> spec_replace(s.skip(i), from, to) == to + spec_replace(
            s.skip(i + from.len()),
            from,
            to,
        ),
        !(i + from.len() <= s.len() && s.subrange(i, i + from.len() as int) == from)
            ==> spec_replace(s.skip(i), from, to) == seq![s[i]] + spec_replace(
            s.skip(i + 1),
            from,
            to,
        ),
{
    let tail = s.skip(i);
    if i + from.len() <= s.len() {
        assert(tail.subrange(0, from.len() as int) =~= s.subrange(i, i + from.len() as int));
    }
    if i + from.len() <= s.len() && s.subrange(i, i + from.len() as int) == from {
        assert(tail.skip(from.len() as int) =~= s.skip(i + from.len()));
    } else {
        assert(tail.len() >= 1);
        if tail.len() >= from.len() {
            assert(tail.subrange(0, from.len() as int) != from);
        }
        assert(tail[0] == s[i]);
        assert(tail.skip(1) =~= s.skip(i + 1));
    }
}

/// Replace every non-overlapping occurrence of `from` by `to`, leftmost
/// first, exactly as `str::replace` does for a non-empty pattern.
#[verifier::rlimit(50)]
pub fn str_replace(s: &str, from: &str, to: &str) -> (r: String)
    requires
        from@.len() > 0,
    ensures
        r@ == spec_replace(s@, from@, to@),
{
    let n = s.unicode_len();
    let m = from.unicode_len();
    let k = to.unicode_len();
    let mut out: Vec<char> = Vec::new();
    let mut i: usize = 0;
    proof {
        assert(s@.skip(0) =~= s@);
    }
    while i < n
        invariant
            i <= n,
            n == s@.len(),
            m == from@.len(),
            k == to@.len(),
            m > 0,
            spec_replace(s@, from@, to@) == out@ + spec_replace(s@.skip(i as int), from@, to@),
        decreases n - i,
    {
        proof {
            lemma_replace_step(s@, from@, to@, i as int);
        }
        if m <= n - i && matches_at(s, from, i) {
            let ghost out0 = out@;
            let mut j: usize = 0;
            proof {
                assert(out0 + to@.subrange(0, 0) =~= out0);
            }
            while j < k
                invariant
                    j <= k,
                    k == to@.len(),
                    out@ == out0 + to@.subrange(0, j as int),
                decreases k - j,
            {
                out.push(to.get_char(j));
                proof {
                    assert(out0 + to@.subrange(0, j + 1) =~= out0 + to@.subrange(0, j as int)
                        + seq![to@[j as int]]);
                }
                j += 1;
            }
            proof {
                assert(to@.subrange(0, k as int) =~= to@);
                assert((out0 + to@) + spec_replace(s@.skip(i + m), from@, to@) =~= out0 + (to@
                    + spec_replace(s@.skip(i + m), from@, to@)));
            }
            i += m;
        } else {
            let ghost prev = out@;
            out.push(s.get_char(i));
            proof {
                assert((prev + seq![s@[i as int]]) + spec_replace(s@.skip(i + 1), from@, to@)
                    =~= prev + (seq![s@[i as int]] + spec_replace(s@.skip(i + 1), from@, to@)));
            }
            i += 1;
        }
    }
    proof {
        assert(s@.skip(n as int) =~= Seq::<char>::empty());
    }
    string_from_chars(&out)
}

} // verus!
