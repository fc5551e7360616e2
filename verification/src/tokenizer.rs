//! Byte-level tokenization of the dump: lines, then fields.
//!
//! Rows are the newline-separated lines of the document (a final
//! newline terminates the last row rather than opening an empty one; a
//! carriage return before the newline is dropped). Within a row,
//! fields are separated by `;`. A field that begins with a double
//! quote is quoted: it runs to the closing quote, a doubled quote
//! stands for a literal one, and `;` inside the quotes does not split
//! the row; the closing quote must be followed by `;` or the row's
//! end. Any other field is raw and runs to the next `;` or the row's
//! end.

use vstd::prelude::*;
use vstd::slice::{slice_index_get, slice_subrange, slice_to_vec};

verus! {

/// The quote byte `"`.
pub const QUOTE: u8 = 34;

/// The field delimiter byte `;`.
pub const SEMI: u8 = 59;

/// The line feed byte.
pub const NL: u8 = 10;

/// The carriage return byte.
pub const CR: u8 = 13;

/// Position of the first occurrence of `b` in `s`, or -1.
pub open spec fn find_byte(s: Seq<u8>, b: u8) -> int
    decreases s.len(),
{
    if s.len() == 0 {
        -1
    } else if s[0] == b {
        0
    } else {
        let r = find_byte(s.skip(1), b);
        if r < 0 {
            -1
        } else {
            1 + r
        }
    }
}

/// A found byte is in bounds and is the first of its kind.
pub proof fn lemma_find_byte(s: Seq<u8>, b: u8)
    ensures
        find_byte(s, b) >= 0 ==> find_byte(s, b) < s.len() && s[find_byte(s, b)] == b,
        find_byte(s, b) >= 0 ==> forall|k: int| 0 <= k < find_byte(s, b) ==> s[k] != b,
        find_byte(s, b) < 0 ==> forall|k: int| 0 <= k < s.len() ==> s[k] != b,
    decreases s.len(),
{
    if s.len() == 0 {
    } else if s[0] == b {
    } else {
        lemma_find_byte(s.skip(1), b);
        assert(forall|k: int| 1 <= k < s.len() ==> s[k] == s.skip(1)[k - 1]);
    }
}

/// `s` without a trailing carriage return.
pub open spec fn strip_cr(l: Seq<u8>) -> Seq<u8> {
    if l.len() > 0 && l[l.len() - 1] == CR {
        l.take(l.len() - 1)
    } else {
        l
    }
}

/// The newline-separated segments of `s`, in order.
pub open spec fn split_nl(s: Seq<u8>) -> Seq<Seq<u8>>
    decreases s.len(),
        via split_nl_dec
{
    let k = find_byte(s, NL);
    if k < 0 {
        seq![s]
    } else {
        seq![s.take(k)] + split_nl(s.skip(k + 1))
    }
}

#[via_fn]
proof fn split_nl_dec(s: Seq<u8>) {
    lemma_find_byte(s, NL);
}

/// The lines of the document: newline-separated segments, one final
/// empty segment dropped (a final newline terminates the last line),
/// a carriage return before each newline dropped.
pub open spec fn spec_lines(s: Seq<u8>) -> Seq<Seq<u8>> {
    let raw = split_nl(s);
    let kept = if raw.len() > 0 && raw.last().len() == 0 {
        raw.drop_last()
    } else {
        raw
    };
    kept.map_values(|l: Seq<u8>| strip_cr(l))
}

/// A document has at most one more segment than it has bytes.
pub proof fn lemma_split_nl_count(s: Seq<u8>)
    ensures
        1 <= split_nl(s).len() <= s.len() + 1,
    decreases s.len(),
{
    lemma_find_byte(s, NL);
    let k = find_byte(s, NL);
    if k >= 0 {
        lemma_split_nl_count(s.skip(k + 1));
    }
}

/// A document has at most one more line than it has bytes.
pub proof fn lemma_spec_lines_count(s: Seq<u8>)
    ensures
        spec_lines(s).len() <= s.len() + 1,
{
    lemma_split_nl_count(s);
}

/// Scan a quoted field body: the text after the opening quote. Yields
/// the field content (doubled quotes collapsed) and the rest after the
/// closing quote; nothing when the quote never closes.
pub open spec fn scan_quoted(s: Seq<u8>) -> Option<(Seq<u8>, Seq<u8>)>
    decreases s.len(),
{
    if s.len() == 0 {
        None
    } else if s[0] == QUOTE {
        if s.len() >= 2 && s[1] == QUOTE {
            match scan_quoted(s.skip(2)) {
                Some(p) => Some((seq![QUOTE] + p.0, p.1)),
                None => None,
            }
        } else {
            Some((Seq::empty(), s.skip(1)))
        }
    } else {
        match scan_quoted(s.skip(1)) {
            Some(p) => Some((seq![s[0]] + p.0, p.1)),
            None => None,
        }
    }
}

/// The rest after a closed quote is strictly shorter than the scan's input.
pub proof fn lemma_scan_quoted_len(s: Seq<u8>)
    ensures
        scan_quoted(s) matches Some(p) ==> p.1.len() < s.len(),
    decreases s.len(),
{
    if s.len() == 0 {
    } else if s[0] == QUOTE {
        if s.len() >= 2 && s[1] == QUOTE {
            lemma_scan_quoted_len(s.skip(2));
        }
    } else {
        lemma_scan_quoted_len(s.skip(1));
    }
}

/// The fields of one row, split at `;` outside quotes; nothing when
/// the quoting is malformed (an unclosed quote, or a closed quote
/// followed by more than a delimiter or the row's end).
pub open spec fn tok_fields(s: Seq<u8>) -> Option<Seq<Seq<u8>>>
    decreases s.len(),
        via tok_fields_dec
{
    if s.len() > 0 && s[0] == QUOTE {
        match scan_quoted(s.skip(1)) {
            None => None,
            Some(p) => if p.1.len() == 0 {
                Some(seq![p.0])
            } else if p.1[0] == SEMI {
                match tok_fields(p.1.skip(1)) {
                    None => None,
                    Some(fs) => Some(seq![p.0] + fs),
                }
            } else {
                None
            },
        }
    } else {
        let k = find_byte(s, SEMI);
        if k < 0 {
            Some(seq![s])
        } else {
            match tok_fields(s.skip(k + 1)) {
                None => None,
                Some(fs) => Some(seq![s.take(k)] + fs),
            }
        }
    }
}

#[via_fn]
proof fn tok_fields_dec(s: Seq<u8>) {
    lemma_find_byte(s, SEMI);
    if s.len() > 0 && s[0] == QUOTE {
        lemma_scan_quoted_len(s.skip(1));
    }
}

/// A scanned prefix put back in front of a quoted-field scan.
spec fn prepend_scan(p: Seq<u8>, o: Option<(Seq<u8>, Seq<u8>)>) -> Option<(Seq<u8>, Seq<u8>)> {
    match o {
        Some(q) => Some((p + q.0, q.1)),
        None => None,
    }
}

/// Finished fields put back in front of a row tokenization.
spec fn prepend_fields(p: Seq<Seq<u8>>, o: Option<Seq<Seq<u8>>>) -> Option<Seq<Seq<u8>>> {
    match o {
        Some(fs) => Some(p + fs),
        None => None,
    }
}

/// Position of the first `b` in `line` at or after `start`.
fn find_byte_from(line: &[u8], start: usize, b: u8) -> (r: Option<usize>)
    requires
        start <= line@.len(),
    ensures
        match r {
            Some(k) => start <= k < line@.len() && find_byte(line@.skip(start as int), b) == k
                - start,
            None => find_byte(line@.skip(start as int), b) == -1,
        },
{
    let n: usize = line.len();
    let mut k: usize = start;
    while k < n
        invariant
            start <= k <= n,
            n == line@.len(),
            forall|t: int| start <= t < k ==> line@[t] != b,
        decreases n - k,
    {
        if *slice_index_get(line, k) == b {
            proof {
                lemma_find_byte(line@.skip(start as int), b);
                let sub = line@.skip(start as int);
                assert(forall|t: int| 0 <= t < sub.len() ==> sub[t] == line@[t + start]);
                assert(sub[k - start] == b);
                assert(forall|t: int| 0 <= t < k - start ==> sub[t] != b);
                if find_byte(sub, b) < 0 {
                    assert(false);
                }
                if find_byte(sub, b) < k - start {
                    assert(false);
                }
                if find_byte(sub, b) > k - start {
                    assert(false);
                }
            }
            return Some(k);
        }
        k = k + 1;
    }
    proof {
        let sub = line@.skip(start as int);
        assert(forall|t: int| 0 <= t < sub.len() ==> sub[t] == line@[t + start]);
        lemma_find_byte(sub, b);
        if find_byte(sub, b) >= 0 {
            assert(false);
        }
    }
    None
}

/// Scan a quoted field body of `line` from `start` (just after the
/// opening quote). Yields the content and the position just after the
/// closing quote.
fn scan_quoted_at(line: &[u8], start: usize) -> (r: Option<(Vec<u8>, usize)>)
    requires
        start <= line@.len(),
    ensures
        match r {
            Some(p) => start < p.1 <= line@.len() && scan_quoted(line@.skip(start as int)) == Some(
                (p.0@, line@.skip(p.1 as int)),
            ),
            None => scan_quoted(line@.skip(start as int)) is None,
        },
{
    let n: usize = line.len();
    let mut i: usize = start;
    let mut acc: Vec<u8> = Vec::new();
    proof {
        assert(acc@ + scan_quoted(line@.skip(start as int))->Some_0.0 =~= scan_quoted(
            line@.skip(start as int),
        )->Some_0.0);
    }
    while i < n
        invariant
            start <= i <= n,
            n == line@.len(),
            scan_quoted(line@.skip(start as int)) == prepend_scan(
                acc@,
                scan_quoted(line@.skip(i as int)),
            ),
        decreases n - i,
    {
        let c = *slice_index_get(line, i);
        proof {
            assert(line@.skip(i as int)[0] == line@[i as int]);
        }
        if c == QUOTE {
            if i + 1 < n && *slice_index_get(line, i + 1) == QUOTE {
                proof {
                    assert(line@.skip(i as int)[1] == line@[i + 1]);
                    assert(line@.skip(i as int).skip(2) =~= line@.skip(i + 2));
                    if scan_quoted(line@.skip(i + 2)) is Some {
                        let q = scan_quoted(line@.skip(i + 2))->Some_0;
                        assert(acc@ + (seq![QUOTE] + q.0) =~= acc@.push(QUOTE) + q.0);
                    }
                }
                acc.push(QUOTE);
                i = i + 2;
            } else {
                proof {
                    let sub = line@.skip(i as int);
                    assert(!(sub.len() >= 2 && sub[1] == QUOTE)) by {
                        if i + 1 < n {
                            assert(sub[1] == line@[i + 1]);
                        }
                    }
                    assert(scan_quoted(sub) == Some((Seq::<u8>::empty(), sub.skip(1))));
                    assert(acc@ + Seq::<u8>::empty() =~= acc@);
                    assert(sub.skip(1) =~= line@.skip(i + 1));
                }
                return Some((acc, i + 1));
            }
        } else {
            proof {
                assert(line@.skip(i as int).skip(1) =~= line@.skip(i + 1));
                if scan_quoted(line@.skip(i + 1)) is Some {
                    let q = scan_quoted(line@.skip(i + 1))->Some_0;
                    assert(acc@ + (seq![c] + q.0) =~= acc@.push(c) + q.0);
                }
            }
            acc.push(c);
            i = i + 1;
        }
    }
    proof {
        assert(line@.skip(i as int) =~= Seq::<u8>::empty());
    }
    None
}

/// Split one row into its fields, honoring quoting; nothing when the
/// quoting is malformed.
pub fn tokenize_row(line: &[u8]) -> (r: Option<Vec<Vec<u8>>>)
    ensures
        match r {
            Some(fs) => tok_fields(line@) == Some(fs@.map_values(|f: Vec<u8>| f@)),
            None => tok_fields(line@) is None,
        },
{
    let n: usize = line.len();
    let mut out: Vec<Vec<u8>> = Vec::new();
    let mut pos: usize = 0;
    proof {
        assert(line@.skip(0) =~= line@);
        assert(out@.map_values(|f: Vec<u8>| f@) =~= Seq::<Seq<u8>>::empty());
        if tok_fields(line@) is Some {
            assert(Seq::<Seq<u8>>::empty() + tok_fields(line@)->Some_0 =~= tok_fields(
                line@,
            )->Some_0);
        }
    }
    loop
        invariant
            0 <= pos <= n,
            n == line@.len(),
            tok_fields(line@) == prepend_fields(
                out@.map_values(|f: Vec<u8>| f@),
                tok_fields(line@.skip(pos as int)),
            ),
        decreases n - pos,
    {
        let ghost sub = line@.skip(pos as int);
        let ghost fields_before = out@.map_values(|f: Vec<u8>| f@);
        if pos < n && *slice_index_get(line, pos) == QUOTE {
            proof {
                assert(sub[0] == line@[pos as int]);
                assert(sub.skip(1) =~= line@.skip(pos + 1));
            }
            match scan_quoted_at(line, pos + 1) {
                None => {
                    return None;
                },
                Some((content, j)) => {
                    let ghost rest = line@.skip(j as int);
                    if j == n {
                        proof {
                            assert(rest =~= Seq::<u8>::empty());
                            assert(tok_fields(sub) == Some(seq![content@]));
                            assert(fields_before + seq![content@] =~= fields_before.push(
                                content@,
                            ));
                        }
                        out.push(content);
                        proof {
                            assert(out@.map_values(|f: Vec<u8>| f@) =~= fields_before.push(
                                content@,
                            ));
                        }
                        return Some(out);
                    }
                    let b = *slice_index_get(line, j);
                    proof {
                        assert(rest[0] == line@[j as int]);
                    }
                    if b == SEMI {
                        proof {
                            assert(rest.skip(1) =~= line@.skip(j + 1));
                            if tok_fields(line@.skip(j + 1)) is Some {
                                let fs = tok_fields(line@.skip(j + 1))->Some_0;
                                assert(fields_before + (seq![content@] + fs) =~= fields_before.push(
                                    content@,
                                ) + fs);
                            }
                        }
                        out.push(content);
                        proof {
                            assert(out@.map_values(|f: Vec<u8>| f@) =~= fields_before.push(
                                content@,
                            ));
                        }
                        pos = j + 1;
                    } else {
                        return None;
                    }
                },
            }
        } else {
            // raw field: up to the next delimiter or the row's end
            proof {
                if pos < n {
                    assert(sub[0] == line@[pos as int]);
                }
            }
            match find_byte_from(line, pos, SEMI) {
                None => {
                    let field = slice_to_vec(slice_subrange(line, pos, n));
                    proof {
                        assert(field@ =~= sub);
                        assert(tok_fields(sub) == Some(seq![sub]));
                        assert(fields_before + seq![sub] =~= fields_before.push(field@));
                    }
                    out.push(field);
                    proof {
                        assert(out@.map_values(|f: Vec<u8>| f@) =~= fields_before.push(field@));
                    }
                    return Some(out);
                },
                Some(k) => {
                    let field = slice_to_vec(slice_subrange(line, pos, k));
                    proof {
                        assert(field@ =~= sub.take(k - pos));
                        assert(sub.skip(k - pos + 1) =~= line@.skip(k + 1));
                        if tok_fields(line@.skip(k + 1)) is Some {
                            let fs = tok_fields(line@.skip(k + 1))->Some_0;
                            assert(fields_before + (seq![sub.take(k - pos)] + fs)
                                =~= fields_before.push(field@) + fs);
                        }
                    }
                    out.push(field);
                    proof {
                        assert(out@.map_values(|f: Vec<u8>| f@) =~= fields_before.push(field@));
                    }
                    pos = k + 1;
                },
            }
        }
    }
}

/// Split the document into its lines.
pub fn split_lines(data: &[u8]) -> (r: Vec<Vec<u8>>)
    ensures
        r@.map_values(|l: Vec<u8>| l@) == spec_lines(data@),
{
    let n: usize = data.len();
    let mut raw: Vec<Vec<u8>> = Vec::new();
    let mut pos: usize = 0;
    let mut at_end: bool = false;
    proof {
        assert(data@.skip(0) =~= data@);
        assert(raw@.map_values(|l: Vec<u8>| l@) =~= Seq::<Seq<u8>>::empty());
        assert(Seq::<Seq<u8>>::empty() + split_nl(data@) =~= split_nl(data@));
    }
    while !at_end
        invariant
            0 <= pos <= n,
            n == data@.len(),
            !at_end ==> split_nl(data@) == raw@.map_values(|l: Vec<u8>| l@) + split_nl(
                data@.skip(pos as int),
            ),
            at_end ==> split_nl(data@) == raw@.map_values(|l: Vec<u8>| l@),
        decreases n - pos + (if at_end {
            0int
        } else {
            1int
        }),
    {
        let ghost sub = data@.skip(pos as int);
        let ghost segs_before = raw@.map_values(|l: Vec<u8>| l@);
        match find_byte_from(data, pos, NL) {
            None => {
                let seg = slice_to_vec(slice_subrange(data, pos, n));
                proof {
                    assert(seg@ =~= sub);
                    assert(split_nl(sub) == seq![sub]);
                    assert(segs_before + seq![sub] =~= segs_before.push(seg@));
                }
                raw.push(seg);
                proof {
                    assert(raw@.map_values(|l: Vec<u8>| l@) =~= segs_before.push(seg@));
                }
                at_end = true;
            },
            Some(k) => {
                let seg = slice_to_vec(slice_subrange(data, pos, k));
                proof {
                    assert(seg@ =~= sub.take(k - pos));
                    assert(sub.skip(k - pos + 1) =~= data@.skip(k + 1));
                    assert(split_nl(sub) == seq![sub.take(k - pos)] + split_nl(data@.skip(k + 1)));
                    assert(segs_before + (seq![sub.take(k - pos)] + split_nl(data@.skip(k + 1)))
                        =~= segs_before.push(seg@) + split_nl(data@.skip(k + 1)));
                }
                raw.push(seg);
                proof {
                    assert(raw@.map_values(|l: Vec<u8>| l@) =~= segs_before.push(seg@));
                }
                pos = k + 1;
            },
        }
    }
    // drop one final empty segment: a final newline terminates the last line
    let ghost raws = raw@.map_values(|l: Vec<u8>| l@);
    if raw.len() > 0 && raw[raw.len() - 1].len() == 0 {
        proof {
            assert(raws.last() == raw@[raw@.len() - 1]@);
        }
        let ghost n0 = raw@.len();
        let _ = raw.pop();
        proof {
            assert(raw@.map_values(|l: Vec<u8>| l@) =~= raws.drop_last());
        }
    }
    let ghost kept = raw@.map_values(|l: Vec<u8>| l@);
    // strip a carriage return before each newline
    let mut out: Vec<Vec<u8>> = Vec::new();
    let mut i: usize = 0;
    proof {
        assert(out@.map_values(|l: Vec<u8>| l@) =~= kept.take(0).map_values(
            |l: Seq<u8>| strip_cr(l),
        ));
    }
    while i < raw.len()
        invariant
            0 <= i <= raw.len(),
            kept == raw@.map_values(|l: Vec<u8>| l@),
            spec_lines(data@) == kept.map_values(|l: Seq<u8>| strip_cr(l)),
            out@.map_values(|l: Vec<u8>| l@) == kept.take(i as int).map_values(
                |l: Seq<u8>| strip_cr(l),
            ),
        decreases raw.len() - i,
    {
        let ghost outs = out@.map_values(|l: Vec<u8>| l@);
        let mut seg: Vec<u8> = Vec::new();
        let m: usize = raw[i].len();
        let stop: usize = if m > 0 && raw[i][m - 1] == CR {
            m - 1
        } else {
            m
        };
        let mut j: usize = 0;
        while j < stop
            invariant
                0 <= j <= stop <= raw@[i as int]@.len(),
                i < raw@.len(),
                seg@ == raw@[i as int]@.take(j as int),
            decreases stop - j,
        {
            let b = raw[i][j];
            seg.push(b);
            proof {
                assert(raw@[i as int]@.take(j + 1) =~= raw@[i as int]@.take(j as int).push(b));
            }
            j = j + 1;
        }
        proof {
            assert(seg@ =~= strip_cr(kept[i as int]));
        }
        out.push(seg);
        proof {
            assert(out@.map_values(|l: Vec<u8>| l@) =~= outs.push(strip_cr(kept[i as int])));
            assert(kept.take(i + 1).map_values(|l: Seq<u8>| strip_cr(l)) =~= kept.take(
                i as int,
            ).map_values(|l: Seq<u8>| strip_cr(l)).push(strip_cr(kept[i as int])));
        }
        i = i + 1;
    }
    proof {
        assert(kept.take(i as int) =~= kept);
    }
    out
}

} // verus!
