//! Character-sequence utilities shared by the parsers: whitespace
//! trimming, substring search, and splitting on a delimiter.
//!
//! The multi-valued address fields of a registry row are lists of tokens
//! separated by a field-specific delimiter (`|` for addresses and domain
//! names, the three-character `" | "` for URLs); every consumer trims the
//! tokens and skips the empty ones. The delimiter may be several
//! characters long, so the splitter searches for a full substring match.

use vstd::prelude::*;
use vstd::string::StrSliceExecFns;

verus! {

/// ASCII whitespace, as trimmed around tokens and header values.
pub open spec fn is_space(c: char) -> bool {
    c == ' ' || c == '\t' || c == '\r' || c == '\n'
}

/// Whether `c` is a decimal digit.
pub open spec fn is_digit(c: char) -> bool {
    '0' <= c && c <= '9'
}

/// The value of the decimal digit `c`.
pub open spec fn digit_val(c: char) -> int {
    c as int - '0' as int
}

/// `s` without its leading whitespace.
pub open spec fn trim_start_s(s: Seq<char>) -> Seq<char>
    decreases s.len(),
{
    if s.len() > 0 && is_space(s[0]) {
        trim_start_s(s.skip(1))
    } else {
        s
    }
}

/// `s` without its trailing whitespace.
pub open spec fn trim_end_s(s: Seq<char>) -> Seq<char>
    decreases s.len(),
{
    if s.len() > 0 && is_space(s[s.len() - 1]) {
        trim_end_s(s.take(s.len() - 1))
    } else {
        s
    }
}

/// `s` without leading and trailing whitespace.
pub open spec fn spec_trim(s: Seq<char>) -> Seq<char> {
    trim_end_s(trim_start_s(s))
}

/// The delimiter `d` occurs in `s` starting at position `k`.
pub open spec fn match_at(s: Seq<char>, d: Seq<char>, k: int) -> bool {
    0 <= k && k + d.len() <= s.len() && s.subrange(k, k + d.len()) == d
}

/// Position of the first occurrence of `d` in `s`, or -1 if there is none
/// (an empty `d` counts as absent).
pub open spec fn find_delim(s: Seq<char>, d: Seq<char>) -> int
    decreases s.len(),
{
    if d.len() <= 0 || s.len() < d.len() {
        -1
    } else if s.subrange(0, d.len() as int) == d {
        0
    } else {
        let r = find_delim(s.skip(1), d);
        if r < 0 {
            -1
        } else {
            1 + r
        }
    }
}

/// Pieces of `s` cut at every occurrence of `d`, in order; the
/// delimiters themselves are dropped. With no occurrence the result is
/// the single piece `s`.
pub open spec fn split_on(s: Seq<char>, d: Seq<char>) -> Seq<Seq<char>>
    recommends
        d.len() >= 1,
    decreases s.len(),
        via split_on_dec
{
    let k = find_delim(s, d);
    if k < 0 {
        seq![s]
    } else {
        seq![s.take(k)] + split_on(s.skip(k + d.len()), d)
    }
}

#[via_fn]
proof fn split_on_dec(s: Seq<char>, d: Seq<char>) {
    lemma_find_delim_bound(s, d);
}

/// The trimmed, non-empty pieces, in order: what a multi-valued field
/// yields as tokens.
pub open spec fn nonempty_trimmed(pieces: Seq<Seq<char>>) -> Seq<Seq<char>>
    decreases pieces.len(),
{
    if pieces.len() == 0 {
        seq![]
    } else {
        let t = spec_trim(pieces[0]);
        (if t.len() == 0 {
            seq![]
        } else {
            seq![t]
        }) + nonempty_trimmed(pieces.skip(1))
    }
}

/// The tokens of a multi-valued field: split on `d`, trim each piece,
/// skip the empty ones.
pub open spec fn tokens_of(s: Seq<char>, d: Seq<char>) -> Seq<Seq<char>>
    recommends
        d.len() >= 1,
{
    nonempty_trimmed(split_on(s, d))
}

/// A found occurrence is in bounds: `find_delim` only reports real matches.
pub proof fn lemma_find_delim_bound(s: Seq<char>, d: Seq<char>)
    ensures
        find_delim(s, d) >= 0 ==> d.len() >= 1 && match_at(s, d, find_delim(s, d)),
    decreases s.len(),
{
    if d.len() <= 0 || s.len() < d.len() {
    } else if s.subrange(0, d.len() as int) == d {
    } else {
        lemma_find_delim_bound(s.skip(1), d);
        let r = find_delim(s.skip(1), d);
        if r >= 0 {
            assert(s.skip(1).subrange(r, r + d.len()) =~= s.subrange(1 + r, 1 + r + d.len()));
        }
    }
}

/// If `d` matches at `i` and nowhere earlier, `find_delim` reports `i`.
pub proof fn lemma_find_delim_at(s: Seq<char>, d: Seq<char>, i: int)
    requires
        d.len() >= 1,
        match_at(s, d, i),
        forall|k: int| 0 <= k < i ==> !match_at(s, d, k),
    ensures
        find_delim(s, d) == i,
    decreases s.len(),
{
    if i == 0 {
        assert(s.subrange(0, d.len() as int) == d);
    } else {
        assert(!match_at(s, d, 0));
        assert(s.subrange(0, d.len() as int) != d);
        assert(match_at(s.skip(1), d, i - 1)) by {
            assert(s.skip(1).subrange(i - 1, i - 1 + d.len()) =~= s.subrange(i, i + d.len()));
        }
        assert forall|k: int| 0 <= k < i - 1 implies !match_at(s.skip(1), d, k) by {
            if k + d.len() <= s.skip(1).len() {
                assert(s.skip(1).subrange(k, k + d.len()) =~= s.subrange(1 + k, 1 + k + d.len()));
                assert(!match_at(s, d, 1 + k));
            }
        }
        lemma_find_delim_at(s.skip(1), d, i - 1);
    }
}

/// If `d` matches nowhere in `s`, `find_delim` reports -1.
pub proof fn lemma_find_delim_none(s: Seq<char>, d: Seq<char>)
    requires
        forall|k: int| !match_at(s, d, k),
    ensures
        find_delim(s, d) == -1,
    decreases s.len(),
{
    if d.len() <= 0 || s.len() < d.len() {
    } else {
        assert(!match_at(s, d, 0));
        assert(s.subrange(0, d.len() as int) != d);
        assert forall|k: int| !match_at(s.skip(1), d, k) by {
            if 0 <= k && k + d.len() <= s.skip(1).len() {
                assert(s.skip(1).subrange(k, k + d.len()) =~= s.subrange(1 + k, 1 + k + d.len()));
                assert(!match_at(s, d, 1 + k));
            }
        }
        lemma_find_delim_none(s.skip(1), d);
    }
}

/// Dropping an all-whitespace prefix does not change `trim_start_s`.
proof fn lemma_trim_start_skip(s: Seq<char>, i: int)
    requires
        0 <= i <= s.len(),
        forall|k: int| 0 <= k < i ==> is_space(s[k]),
    ensures
        trim_start_s(s) == trim_start_s(s.skip(i)),
    decreases i,
{
    if i == 0 {
        assert(s.skip(0) =~= s);
    } else {
        assert(is_space(s[0]));
        assert(s.skip(1).skip(i - 1) =~= s.skip(i));
        lemma_trim_start_skip(s.skip(1), i - 1);
    }
}

/// Dropping an all-whitespace suffix does not change `trim_end_s`.
proof fn lemma_trim_end_take(s: Seq<char>, j: int)
    requires
        0 <= j <= s.len(),
        forall|k: int| j <= k < s.len() ==> is_space(s[k]),
    ensures
        trim_end_s(s) == trim_end_s(s.take(j)),
    decreases s.len() - j,
{
    if j == s.len() {
        assert(s.take(j) =~= s);
    } else {
        assert(is_space(s[s.len() - 1]));
        assert(s.take(s.len() - 1).take(j) =~= s.take(j));
        lemma_trim_end_take(s.take(s.len() - 1), j);
    }
}

/// Whether `c` is ASCII whitespace.
pub fn is_space_char(c: char) -> (r: bool)
    ensures
        r == is_space(c),
{
    c == ' ' || c == '\t' || c == '\r' || c == '\n'
}

/// The slice of `s` with leading and trailing whitespace removed.
pub fn trim_str<'a>(s: &'a str) -> (r: &'a str)
    ensures
        r@ == spec_trim(s@),
{
    let n: usize = s.unicode_len();
    let mut i: usize = 0;
    while i < n && is_space_char(s.get_char(i))
        invariant
            0 <= i <= n,
            n == s@.len(),
            forall|k: int| 0 <= k < i ==> is_space(s@[k]),
        decreases n - i,
    {
        i = i + 1;
    }
    proof {
        lemma_trim_start_skip(s@, i as int);
    }
    let ghost ts = s@.skip(i as int);
    proof {
        assert(trim_start_s(s@) == ts);
    }
    let mut j: usize = n;
    while j > i && is_space_char(s.get_char(j - 1))
        invariant
            i <= j <= n,
            n == s@.len(),
            forall|k: int| j <= k < n ==> is_space(s@[k]),
        decreases j,
    {
        j = j - 1;
    }
    proof {
        assert(forall|k: int| j - i <= k < ts.len() ==> is_space(ts[k]));
        lemma_trim_end_take(ts, j - i);
        assert(ts.take(j - i) =~= s@.subrange(i as int, j as int));
        if j > i {
            assert(!is_space(s@.subrange(i as int, j as int)[j - i - 1]));
        }
        assert(trim_end_s(s@.subrange(i as int, j as int)) == s@.subrange(i as int, j as int));
    }
    s.substring_char(i, j)
}

/// Position of the first occurrence of the delimiter `d` in `s`, if any.
pub fn find_sub(s: &str, d: &str) -> (r: Option<usize>)
    requires
        d@.len() >= 1,
    ensures
        match r {
            Some(k) => find_delim(s@, d@) == k as int && match_at(s@, d@, k as int),
            None => find_delim(s@, d@) == -1,
        },
{
    let n: usize = s.unicode_len();
    let dl: usize = d.unicode_len();
    if dl > n {
        proof {
            lemma_find_delim_none(s@, d@);
        }
        return None;
    }
    let mut k: usize = 0;
    while k <= n - dl
        invariant
            0 <= k <= n - dl + 1,
            dl <= n,
            n == s@.len(),
            dl == d@.len(),
            1 <= dl,
            forall|kk: int| 0 <= kk < k ==> !match_at(s@, d@, kk),
        decreases n - k,
    {
        let mut j: usize = 0;
        let mut eq: bool = true;
        while j < dl
            invariant
                0 <= j <= dl,
                k + dl <= n,
                n == s@.len(),
                dl == d@.len(),
                eq == (s@.subrange(k as int, k + j) =~= d@.subrange(0, j as int)),
            decreases dl - j,
        {
            let sc = s.get_char(k + j);
            let dc = d.get_char(j);
            proof {
                if eq && sc == dc {
                    assert(s@.subrange(k as int, k + j + 1) =~= d@.subrange(0, j + 1)) by {
                        assert(forall|t: int| 0 <= t < j ==> #[trigger] s@.subrange(
                            k as int,
                            k + j + 1,
                        )[t] == s@.subrange(k as int, k + j)[t]);
                    }
                } else {
                    if s@.subrange(k as int, k + j + 1) =~= d@.subrange(0, j + 1) {
                        assert(s@.subrange(k as int, k + j) =~= d@.subrange(0, j as int)) by {
                            assert(forall|t: int| 0 <= t < j ==> #[trigger] s@.subrange(
                                k as int,
                                k + j,
                            )[t] == s@.subrange(k as int, k + j + 1)[t]);
                        }
                        assert(sc == s@.subrange(k as int, k + j + 1)[j as int]);
                    }
                    assert(!(s@.subrange(k as int, k + j + 1) =~= d@.subrange(0, j + 1)));
                }
            }
            eq = eq && sc == dc;
            j = j + 1;
        }
        proof {
            assert(d@.subrange(0, dl as int) =~= d@);
        }
        if eq {
            proof {
                assert(match_at(s@, d@, k as int));
                lemma_find_delim_at(s@, d@, k as int);
            }
            return Some(k);
        }
        proof {
            assert(!match_at(s@, d@, k as int));
        }
        k = k + 1;
    }
    proof {
        assert forall|kk: int| !match_at(s@, d@, kk) by {
            if 0 <= kk && kk + d@.len() <= s@.len() {
                assert(kk < k);
                assert(!match_at(s@, d@, kk));
            }
        }
        lemma_find_delim_none(s@, d@);
    }
    None
}

/// The pieces of `s` split on `d`, delimiters dropped, empties kept.
pub fn split_str(s: &str, d: &str) -> (r: Vec<String>)
    requires
        d@.len() >= 1,
    ensures
        r@.map_values(|p: String| p@) == split_on(s@, d@),
{
    let n: usize = s.unicode_len();
    let dl: usize = d.unicode_len();
    let mut out: Vec<String> = Vec::new();
    let mut pos: usize = 0;
    proof {
        assert(s@.skip(0) =~= s@);
        assert(out@.map_values(|p: String| p@) =~= Seq::<Seq<char>>::empty());
    }
    loop
        invariant
            0 <= pos <= n,
            n == s@.len(),
            dl == d@.len(),
            1 <= dl,
            split_on(s@, d@) =~= out@.map_values(|p: String| p@) + split_on(
                s@.skip(pos as int),
                d@,
            ),
        decreases n - pos,
    {
        let rem: &str = s.substring_char(pos, n);
        match find_sub(rem, d) {
            None => {
                let piece = rem.to_owned();
                out.push(piece);
                proof {
                    assert(split_on(rem@, d@) =~= seq![rem@]);
                    assert(out@.map_values(|p: String| p@) =~= out@.map_values(
                        |p: String| p@,
                    ).drop_last() + seq![rem@]);
                    assert(split_on(s@, d@) =~= out@.map_values(|p: String| p@));
                }
                return out;
            },
            Some(k) => {
                let piece = rem.substring_char(0, k).to_owned();
                out.push(piece);
                proof {
                    assert(split_on(rem@, d@) =~= seq![rem@.take(k as int)] + split_on(
                        rem@.skip(k + dl),
                        d@,
                    ));
                    assert(rem@.skip(k + dl) =~= s@.skip(pos + k + dl));
                    assert(out@.map_values(|p: String| p@) =~= out@.map_values(
                        |p: String| p@,
                    ).drop_last() + seq![rem@.take(k as int)]);
                }
                pos = pos + k + dl;
            },
        }
    }
}

/// The trimmed, non-empty tokens of `s` split on the delimiter `d`.
pub fn split_tokens(s: &str, d: &str) -> (r: Vec<String>)
    requires
        d@.len() >= 1,
    ensures
        r@.map_values(|p: String| p@) == tokens_of(s@, d@),
{
    let pieces = split_str(s, d);
    let ghost ps = pieces@.map_values(|p: String| p@);
    let mut out: Vec<String> = Vec::new();
    let mut i: usize = 0;
    proof {
        assert(ps.skip(0) =~= ps);
        assert(out@.map_values(|p: String| p@) =~= Seq::<Seq<char>>::empty());
    }
    while i < pieces.len()
        invariant
            0 <= i <= pieces.len(),
            ps == pieces@.map_values(|p: String| p@),
            ps == split_on(s@, d@),
            nonempty_trimmed(ps) =~= out@.map_values(|p: String| p@) + nonempty_trimmed(
                ps.skip(i as int),
            ),
        decreases pieces.len() - i,
    {
        let t = trim_str(pieces[i].as_str());
        proof {
            assert(ps.skip(i as int)[0] == ps[i as int]);
            assert(ps.skip(i as int).skip(1) =~= ps.skip(i + 1));
        }
        if t.unicode_len() > 0 {
            let piece = t.to_owned();
            out.push(piece);
            proof {
                assert(out@.map_values(|p: String| p@) =~= out@.map_values(
                    |p: String| p@,
                ).drop_last() + seq![spec_trim(ps[i as int])]);
            }
        }
        i = i + 1;
    }
    proof {
        assert(ps.skip(i as int) =~= Seq::<Seq<char>>::empty());
        assert(nonempty_trimmed(ps) =~= out@.map_values(|p: String| p@));
    }
    out
}

} // verus!
