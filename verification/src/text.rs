//! Character-level utilities the parsers and matchers are built on:
//! conversion of a string to its character sequence, pattern search,
//! splitting, replacement and trimming, each with an exact
//! specification over `Seq<char>`.
use vstd::prelude::*;

verus! {

/// The characters of `s`, as a vector, in order.
pub fn chars_of(s: &str) -> (v: Vec<char>)
    ensures
        v@ == s@,
{
    let n: usize = s.unicode_len();
    let mut v: Vec<char> = Vec::new();
    let mut i: usize = 0;
    while i < n
        invariant
            i <= n,
            n == s@.len(),
            v@ == s@.take(i as int),
        decreases n - i,
    {
        v.push(s.get_char(i));
        i = i + 1;
        proof {
            assert(v@ =~= s@.take(i as int));
        }
    }
    proof {
        assert(v@ =~= s@);
    }
    v
}

/// Relies on `String::push`: appends exactly the one character `c`.
#[verifier::external_body]
pub fn push_char(s: &mut String, c: char)
    ensures
        final(s)@ == old(s)@.push(c),
{
    s.push(c);
}

/// A `String` holding exactly the characters of `v`.
pub fn string_from_chars(v: &Vec<char>) -> (s: String)
    ensures
        s@ == v@,
{
    let mut s = String::new();
    let mut i: usize = 0;
    while i < v.len()
        invariant
            i <= v@.len(),
            s@ == v@.take(i as int),
        decreases v@.len() - i,
    {
        push_char(&mut s, v[i]);
        i = i + 1;
        proof {
            assert(s@ =~= v@.take(i as int));
        }
    }
    proof {
        assert(s@ =~= v@);
    }
    s
}

/// The slice of `v` between `a` (inclusive) and `b` (exclusive).
pub fn sub_vec(v: &Vec<char>, a: usize, b: usize) -> (r: Vec<char>)
    requires
        a <= b <= v@.len(),
    ensures
        r@ == v@.subrange(a as int, b as int),
{
    let mut r: Vec<char> = Vec::new();
    let mut i: usize = a;
    while i < b
        invariant
            a <= i <= b <= v@.len(),
            r@ == v@.subrange(a as int, i as int),
        decreases b - i,
    {
        r.push(v[i]);
        i = i + 1;
        proof {
            assert(r@ =~= v@.subrange(a as int, i as int));
        }
    }
    r
}

/// The pattern `pat` occurs in `s` starting at position `i`.
pub open spec fn match_at(s: Seq<char>, pat: Seq<char>, i: int) -> bool {
    &&& 0 <= i
    &&& i + pat.len() <= s.len()
    &&& s.subrange(i, i + pat.len() as int) == pat
}

/// The pattern occurs somewhere in `s`.
pub open spec fn contains_seq(s: Seq<char>, pat: Seq<char>) -> bool {
    exists|i: int| match_at(s, pat, i)
}

/// Position of the leftmost occurrence of `pat` in `s`, if any.
pub open spec fn first_match(s: Seq<char>, pat: Seq<char>) -> Option<nat>
    decreases s.len(),
{
    if pat.len() == 0 {
        Some(0nat)
    } else if s.len() < pat.len() {
        None
    } else if s.take(pat.len() as int) == pat {
        Some(0nat)
    } else {
        match first_match(s.skip(1), pat) {
            None => None,
            Some(j) => Some((j + 1) as nat),
        }
    }
}

/// A match of `pat` one position into `s` is a match of the tail.
proof fn lemma_match_shift(s: Seq<char>, pat: Seq<char>, i: int)
    requires
        s.len() >= 1,
        i >= 1,
    ensures
        match_at(s, pat, i) <==> match_at(s.skip(1), pat, i - 1),
{
    if match_at(s, pat, i) {
        assert(s.skip(1).subrange(i - 1, i - 1 + pat.len() as int) =~= s.subrange(
            i,
            i + pat.len() as int,
        ));
    }
    if match_at(s.skip(1), pat, i - 1) {
        assert(s.subrange(i, i + pat.len() as int) =~= s.skip(1).subrange(
            i - 1,
            i - 1 + pat.len() as int,
        ));
    }
}

/// `first_match` returns exactly the least position at which `pat`
/// matches, and `None` exactly when there is no match.
pub proof fn lemma_first_match(s: Seq<char>, pat: Seq<char>)
    ensures
        match first_match(s, pat) {
            Some(i) => match_at(s, pat, i as int) && (forall|j: int|
                0 <= j < i ==> !match_at(s, pat, j)),
            None => forall|j: int| !match_at(s, pat, j),
        },
    decreases s.len(),
{
    if pat.len() == 0 {
        assert(s.subrange(0, 0) =~= pat);
        assert(match_at(s, pat, 0));
    } else if s.len() < pat.len() {
        assert(forall|j: int| !match_at(s, pat, j));
    } else if s.take(pat.len() as int) == pat {
        assert(s.subrange(0, pat.len() as int) =~= s.take(pat.len() as int));
        assert(match_at(s, pat, 0));
    } else {
        lemma_first_match(s.skip(1), pat);
        assert(s.subrange(0, pat.len() as int) =~= s.take(pat.len() as int));
        assert(!match_at(s, pat, 0));
        assert forall|i: int| i >= 1 implies (match_at(s, pat, i) <==> match_at(
            s.skip(1),
            pat,
            i - 1,
        )) by {
            lemma_match_shift(s, pat, i);
        }
        match first_match(s.skip(1), pat) {
            None => {
                assert(forall|j: int| !match_at(s, pat, j));
            },
            Some(j) => {
                assert(match_at(s, pat, j + 1 as int));
            },
        }
    }
}

/// Leftmost occurrence of `pat` in `v` at a position `>= from`;
/// mirrors `first_match` on the suffix starting at `from`.
pub fn find_pat_from(v: &Vec<char>, pat: &Vec<char>, from: usize) -> (r: Option<usize>)
    requires
        pat@.len() >= 1,
        from <= v@.len(),
    ensures
        match r {
            Some(i) => from <= i && i - from == first_match(v@.skip(from as int), pat@)->Some_0,
            None => true,
        },
        (r is Some) == (first_match(v@.skip(from as int), pat@) is Some),
{
    proof {
        lemma_first_match(v@.skip(from as int), pat@);
    }
    if v.len() - from < pat.len() {
        return None;
    }
    let mut i: usize = from;
    while i <= v.len() - pat.len()
        invariant
            pat@.len() >= 1,
            from <= i <= v@.len(),
            pat@.len() <= v@.len() - from,
            forall|j: int| from <= j < i ==> !match_at(v@, pat@, j),
        decreases v@.len() - i,
    {
        let mut k: usize = 0;
        while k < pat.len() && v[i + k] == pat[k]
            invariant
                pat@.len() >= 1,
                from <= i,
                i + pat@.len() <= v@.len(),
                k <= pat@.len(),
                v@.subrange(i as int, i + k as int) == pat@.take(k as int),
            decreases pat@.len() - k,
        {
            proof {
                assert(v@.subrange(i as int, i + (k + 1) as int) =~= v@.subrange(
                    i as int,
                    i + k as int,
                ).push(v@[i + k]));
                assert(pat@.take((k + 1) as int) =~= pat@.take(k as int).push(pat@[k as int]));
            }
            k = k + 1;
        }
        if k == pat.len() {
            proof {
                assert(pat@.take(pat@.len() as int) =~= pat@);
                assert(match_at(v@, pat@, i as int));
                lemma_first_match_from(v@, pat@, from as int, i as int);
            }
            return Some(i);
        }
        proof {
            if match_at(v@, pat@, i as int) {
                assert(v@.subrange(i as int, i + pat@.len() as int)[k as int] == v@[i + k]);
                assert(false);
            }
        }
        i = i + 1;
    }
    proof {
        assert forall|j: int| !match_at(v@.skip(from as int), pat@, j) by {
            if match_at(v@.skip(from as int), pat@, j) {
                assert(0 <= j);
                assert(j + pat@.len() <= v@.len() - from);
                assert(v@.skip(from as int).subrange(j, j + pat@.len() as int) =~= v@.subrange(
                    from + j,
                    from + j + pat@.len() as int,
                ));
                assert(match_at(v@, pat@, from + j));
                assert(from <= from + j < i);
                assert(false);
            }
        }
    }
    None
}

/// Characterizes the result of a scan that found its first hit at `i`:
/// the suffix's first match sits at `i - from`.
proof fn lemma_first_match_from(s: Seq<char>, pat: Seq<char>, from: int, i: int)
    requires
        0 <= from <= i,
        match_at(s, pat, i),
        forall|j: int| from <= j < i ==> !match_at(s, pat, j),
    ensures
        first_match(s.skip(from), pat) == Some((i - from) as nat),
{
    lemma_first_match(s.skip(from), pat);
    assert forall|j: int| 0 <= j implies (match_at(s.skip(from), pat, j) <==> match_at(
        s,
        pat,
        from + j,
    )) by {
        if j + pat.len() <= s.len() - from {
            assert(s.skip(from).subrange(j, j + pat.len() as int) =~= s.subrange(
                from + j,
                from + j + pat.len() as int,
            ));
        }
    }
    assert(match_at(s.skip(from), pat, i - from));
    match first_match(s.skip(from), pat) {
        None => {
            assert(false);
        },
        Some(k) => {
            if k < i - from {
                assert(match_at(s, pat, from + k));
                assert(false);
            }
            if k > i - from {
                assert(!match_at(s.skip(from), pat, i - from));
                assert(false);
            }
        },
    }
}

/// Whether `pat` occurs anywhere in `v`.
pub fn contains_pat(v: &Vec<char>, pat: &Vec<char>) -> (r: bool)
    requires
        pat@.len() >= 1,
    ensures
        r == contains_seq(v@, pat@),
{
    proof {
        lemma_first_match(v@, pat@);
        assert(v@.skip(0) =~= v@);
    }
    let r = find_pat_from(v, pat, 0);
    r.is_some()
}

/// `s` split at every occurrence of `pat`, leftmost first; the
/// separators themselves are dropped.  Always at least one piece.
pub open spec fn split_pat(s: Seq<char>, pat: Seq<char>) -> Seq<Seq<char>>
    decreases s.len(),
    when pat.len() >= 1
{
    match first_match(s, pat) {
        None => seq![s],
        Some(i) => if i + pat.len() <= s.len() {
            seq![s.take(i as int)] + split_pat(s.skip(i + pat.len() as int), pat)
        } else {
            seq![s]
        },
    }
}

/// All pieces of `v` split on `pat`, as vectors.
pub fn split_all(v: &Vec<char>, pat: &Vec<char>) -> (r: Vec<Vec<char>>)
    requires
        pat@.len() >= 1,
    ensures
        r@.map_values(|p: Vec<char>| p@) == split_pat(v@, pat@),
        r@.len() >= 1,
{
    let mut r: Vec<Vec<char>> = Vec::new();
    let mut start: usize = 0;
    proof {
        assert(v@.skip(0) =~= v@);
        assert(r@.map_values(|p: Vec<char>| p@) + split_pat(v@, pat@) =~= split_pat(v@, pat@));
    }
    loop
        invariant
            pat@.len() >= 1,
            start <= v@.len(),
            split_pat(v@, pat@) == r@.map_values(|p: Vec<char>| p@) + split_pat(
                v@.skip(start as int),
                pat@,
            ),
        decreases v@.len() - start,
    {
        proof {
            lemma_first_match(v@.skip(start as int), pat@);
        }
        match find_pat_from(v, pat, start) {
            Some(i) => {
                proof {
                    let suf = v@.skip(start as int);
                    assert(match_at(suf, pat@, i - start));
                    assert(v@.len() == v.len());
                    assert(i + pat@.len() <= v@.len());
                    assert(suf.take((i - start) as int) =~= v@.subrange(start as int, i as int));
                    assert(suf.skip((i - start) + pat@.len() as int) =~= v@.skip(
                        i + pat@.len() as int,
                    ));
                }
                let piece = sub_vec(v, start, i);
                let ghost old_r = r@;
                r.push(piece);
                proof {
                    assert(r@.map_values(|p: Vec<char>| p@) =~= old_r.map_values(
                        |p: Vec<char>| p@,
                    ).push(piece@));
                }
                start = i + pat.len();
            },
            None => {
                let piece = sub_vec(v, start, v.len());
                let ghost old_r = r@;
                r.push(piece);
                proof {
                    assert(v@.skip(start as int) =~= v@.subrange(start as int, v@.len() as int));
                    assert(r@.map_values(|p: Vec<char>| p@) =~= old_r.map_values(
                        |p: Vec<char>| p@,
                    ).push(piece@));
                    assert(split_pat(v@, pat@) =~= r@.map_values(|p: Vec<char>| p@));
                }
                return r;
            },
        }
    }
}

/// `s` with every occurrence of `pat` (leftmost first, without
/// overlap) replaced by `rep`.
pub open spec fn replace_pat(s: Seq<char>, pat: Seq<char>, rep: Seq<char>) -> Seq<char>
    decreases s.len(),
    when pat.len() >= 1
{
    match first_match(s, pat) {
        None => s,
        Some(i) => if i + pat.len() <= s.len() {
            s.take(i as int) + rep + replace_pat(s.skip(i + pat.len() as int), pat, rep)
        } else {
            s
        },
    }
}

/// Appends every character of `src` to `dst`, in order.
pub fn append_vec(dst: &mut Vec<char>, src: &Vec<char>)
    ensures
        final(dst)@ == old(dst)@ + src@,
{
    let ghost base = dst@;
    let mut i: usize = 0;
    while i < src.len()
        invariant
            i <= src@.len(),
            dst@ == base + src@.take(i as int),
        decreases src@.len() - i,
    {
        dst.push(src[i]);
        i = i + 1;
        proof {
            assert(base + src@.take(i as int) =~= (base + src@.take(i - 1)).push(src@[i - 1]));
        }
    }
    proof {
        assert(base + src@.take(src@.len() as int) =~= base + src@);
    }
}

/// `v` with every occurrence of `pat` replaced by `rep`.
pub fn replace_all(v: &Vec<char>, pat: &Vec<char>, rep: &Vec<char>) -> (r: Vec<char>)
    requires
        pat@.len() >= 1,
    ensures
        r@ == replace_pat(v@, pat@, rep@),
{
    let mut r: Vec<char> = Vec::new();
    let mut start: usize = 0;
    proof {
        assert(v@.skip(0) =~= v@);
        assert(r@ + replace_pat(v@, pat@, rep@) =~= replace_pat(v@, pat@, rep@));
    }
    loop
        invariant
            pat@.len() >= 1,
            start <= v@.len(),
            replace_pat(v@, pat@, rep@) == r@ + replace_pat(v@.skip(start as int), pat@, rep@),
        decreases v@.len() - start,
    {
        proof {
            lemma_first_match(v@.skip(start as int), pat@);
        }
        match find_pat_from(v, pat, start) {
            Some(i) => {
                proof {
                    let suf = v@.skip(start as int);
                    assert(match_at(suf, pat@, i - start));
                    assert(v@.len() == v.len());
                    assert(i + pat@.len() <= v@.len());
                    assert(suf.take((i - start) as int) =~= v@.subrange(start as int, i as int));
                    assert(suf.skip((i - start) + pat@.len() as int) =~= v@.skip(
                        i + pat@.len() as int,
                    ));
                }
                let piece = sub_vec(v, start, i);
                append_vec(&mut r, &piece);
                append_vec(&mut r, rep);
                start = i + pat.len();
                proof {
                    assert(replace_pat(v@, pat@, rep@) =~= r@ + replace_pat(
                        v@.skip(start as int),
                        pat@,
                        rep@,
                    ));
                }
            },
            None => {
                let piece = sub_vec(v, start, v.len());
                append_vec(&mut r, &piece);
                proof {
                    assert(v@.skip(start as int) =~= v@.subrange(start as int, v@.len() as int));
                    assert(r@ =~= replace_pat(v@, pat@, rep@));
                }
                return r;
            },
        }
    }
}


/// A character `str::trim` would strip: the Unicode whitespace set.
pub open spec fn is_space(c: char) -> bool {
    ||| c == ' '
    ||| c == '\t'
    ||| c == '\n'
    ||| c == '\r'
    ||| c == '\u{b}'
    ||| c == '\u{c}'
    ||| c == '\u{85}'
    ||| c == '\u{a0}'
    ||| c == '\u{1680}'
    ||| c == '\u{2000}'
    ||| c == '\u{2001}'
    ||| c == '\u{2002}'
    ||| c == '\u{2003}'
    ||| c == '\u{2004}'
    ||| c == '\u{2005}'
    ||| c == '\u{2006}'
    ||| c == '\u{2007}'
    ||| c == '\u{2008}'
    ||| c == '\u{2009}'
    ||| c == '\u{200a}'
    ||| c == '\u{2028}'
    ||| c == '\u{2029}'
    ||| c == '\u{202f}'
    ||| c == '\u{205f}'
    ||| c == '\u{3000}'
}

/// Whether `c` is whitespace in the sense of `is_space`.
pub fn is_space_char(c: char) -> (b: bool)
    ensures
        b == is_space(c),
{
    c == ' ' || c == '\t' || c == '\n' || c == '\r' || c == '\u{b}' || c == '\u{c}' || c
        == '\u{85}' || c == '\u{a0}' || c == '\u{1680}' || c == '\u{2000}' || c == '\u{2001}' || c
        == '\u{2002}' || c == '\u{2003}' || c == '\u{2004}' || c == '\u{2005}' || c == '\u{2006}'
        || c == '\u{2007}' || c == '\u{2008}' || c == '\u{2009}' || c == '\u{200a}' || c
        == '\u{2028}' || c == '\u{2029}' || c == '\u{202f}' || c == '\u{205f}' || c == '\u{3000}'
}

/// `s` without its leading whitespace.
pub open spec fn trim_front(s: Seq<char>) -> Seq<char>
    decreases s.len(),
{
    if s.len() > 0 && is_space(s[0]) {
        trim_front(s.skip(1))
    } else {
        s
    }
}

/// `s` without its trailing whitespace.
pub open spec fn trim_back(s: Seq<char>) -> Seq<char>
    decreases s.len(),
{
    if s.len() > 0 && is_space(s[s.len() - 1]) {
        trim_back(s.take(s.len() - 1))
    } else {
        s
    }
}

/// `s` without leading and trailing whitespace, as `str::trim` leaves it.
pub open spec fn trim_spec(s: Seq<char>) -> Seq<char> {
    trim_back(trim_front(s))
}

/// `v` with surrounding whitespace removed.
pub fn trim_vec(v: &Vec<char>) -> (r: Vec<char>)
    ensures
        r@ == trim_spec(v@),
{
    let mut a: usize = 0;
    proof {
        assert(v@.skip(0) =~= v@);
    }
    while a < v.len() && is_space_char(v[a])
        invariant
            a <= v@.len(),
            trim_front(v@) == trim_front(v@.skip(a as int)),
        decreases v@.len() - a,
    {
        proof {
            assert(v@.skip(a as int).skip(1) =~= v@.skip(a + 1));
            assert(v@.skip(a as int)[0] == v@[a as int]);
        }
        a = a + 1;
    }
    proof {
        if a < v@.len() {
            assert(v@.skip(a as int)[0] == v@[a as int]);
        }
        assert(trim_front(v@) == v@.skip(a as int));
    }
    let mut b: usize = v.len();
    while b > a && is_space_char(v[b - 1])
        invariant
            a <= b <= v@.len(),
            trim_back(v@.skip(a as int)) == trim_back(v@.subrange(a as int, b as int)),
        decreases b,
    {
        proof {
            let cur = v@.subrange(a as int, b as int);
            assert(cur[cur.len() - 1] == v@[b - 1]);
            assert(cur.take(cur.len() - 1) =~= v@.subrange(a as int, b - 1));
        }
        b = b - 1;
    }
    proof {
        let cur = v@.subrange(a as int, b as int);
        if b > a {
            assert(cur[cur.len() - 1] == v@[b - 1]);
        }
        assert(trim_back(v@.skip(a as int)) == cur);
    }
    sub_vec(v, a, b)
}

/// A decimal digit.
pub open spec fn is_digit(c: char) -> bool {
    48 <= c as u32 <= 57
}

/// A non-empty run of decimal digits.
pub open spec fn all_digits(s: Seq<char>) -> bool {
    s.len() >= 1 && forall|i: int| 0 <= i < s.len() ==> is_digit(#[trigger] s[i])
}

/// Numeric value of a digit string, most significant digit first.
pub open spec fn digits_val(s: Seq<char>) -> int
    decreases s.len(),
{
    if s.len() == 0 {
        0
    } else {
        digits_val(s.take(s.len() - 1)) * 10 + (s[s.len() - 1] as u32 - 48)
    }
}

/// Whether every character of `v` in `[a, b)` is a digit, with `b > a`.
pub fn digits_in_range(v: &Vec<char>, a: usize, b: usize) -> (r: bool)
    requires
        a <= b <= v@.len(),
    ensures
        r == all_digits(v@.subrange(a as int, b as int)),
{
    if a == b {
        return false;
    }
    let mut i: usize = a;
    while i < b
        invariant
            a <= i <= b <= v@.len(),
            forall|j: int| a <= j < i ==> is_digit(#[trigger] v@[j]),
        decreases b - i,
    {
        let c: u32 = v[i] as u32;
        if c < 48 || c > 57 {
            proof {
                assert(v@.subrange(a as int, b as int)[i - a] == v@[i as int]);
            }
            return false;
        }
        i = i + 1;
    }
    proof {
        assert forall|j: int| 0 <= j < b - a implies is_digit(
            #[trigger] v@.subrange(a as int, b as int)[j],
        ) by {
            assert(v@.subrange(a as int, b as int)[j] == v@[a + j]);
        }
    }
    true
}

/// The value of a digit string is never negative.
proof fn lemma_digits_val_nonneg(s: Seq<char>, i: int)
    requires
        all_digits(s),
        0 <= i <= s.len(),
    ensures
        digits_val(s.take(i)) >= 0,
    decreases i,
{
    if i > 0 {
        lemma_digits_val_nonneg(s, i - 1);
        let t = s.take(i);
        assert(t.take(t.len() - 1) =~= s.take(i - 1));
        assert(is_digit(s[i - 1]));
        assert(digits_val(s.take(i - 1)) * 10 >= 0) by (nonlinear_arith)
            requires
                digits_val(s.take(i - 1)) >= 0,
        ;
    }
}

/// A longer digit string never has a smaller value.
proof fn lemma_digits_val_monotone(s: Seq<char>, i: int, j: int)
    requires
        all_digits(s),
        0 <= i <= j <= s.len(),
    ensures
        digits_val(s.take(i)) <= digits_val(s.take(j)),
        digits_val(s.take(i)) >= 0,
    decreases j - i,
{
    lemma_digits_val_nonneg(s, i);
    if i < j {
        lemma_digits_val_monotone(s, i, j - 1);
        let t = s.take(j);
        assert(t.take(t.len() - 1) =~= s.take(j - 1));
        assert(is_digit(s[j - 1]));
        assert(digits_val(s.take(j)) == digits_val(s.take(j - 1)) * 10 + (s[j - 1] as u32 - 48));
        assert(digits_val(s.take(j - 1)) * 10 >= digits_val(s.take(j - 1))) by (nonlinear_arith)
            requires
                digits_val(s.take(j - 1)) >= 0,
        ;
    }
}

/// Value of the digit run `v[a..b)` when it does not exceed `cap`;
/// `None` exactly when the value is larger than `cap`.
pub fn decimal_value_capped(v: &Vec<char>, a: usize, b: usize, cap: u32) -> (r: Option<u32>)
    requires
        a <= b <= v@.len(),
        all_digits(v@.subrange(a as int, b as int)),
    ensures
        match r {
            Some(x) => x == digits_val(v@.subrange(a as int, b as int)) && x <= cap,
            None => digits_val(v@.subrange(a as int, b as int)) > cap,
        },
{
    let ghost s = v@.subrange(a as int, b as int);
    let mut val: u64 = 0;
    let mut i: usize = a;
    while i < b
        invariant
            a <= i <= b <= v@.len(),
            val == digits_val(s.take(i - a)),
            val <= cap,
        decreases b - i,
    {
        let d: u32 = v[i] as u32;
        proof {
            assert(s[i - a] == v@[i as int]);
            assert(is_digit(s[i - a]));
            assert(s.take(i + 1 - a).take(i - a) =~= s.take(i - a));
            assert(s.take(i + 1 - a)[i - a] == s[i - a]);
        }
        val = val * 10 + (d - 48) as u64;
        i = i + 1;
        if val > cap as u64 {
            proof {
                lemma_digits_val_monotone(s, i - a, s.len() as int);
                assert(s.take(s.len() as int) =~= s);
            }
            return None;
        }
    }
    proof {
        assert(s.take(s.len() as int) =~= s);
    }
    Some(val as u32)
}


/// A one-element character vector.
pub fn one_char_vec(c: char) -> (v: Vec<char>)
    ensures
        v@ =~= seq![c],
{
    let mut v: Vec<char> = Vec::new();
    v.push(c);
    v
}


/// A two-element character vector.
pub fn two_char_vec(a: char, b: char) -> (v: Vec<char>)
    ensures
        v@ =~= seq![a, b],
{
    let mut v: Vec<char> = Vec::new();
    v.push(a);
    v.push(b);
    v
}

} // verus!
