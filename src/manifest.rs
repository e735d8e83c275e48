use vstd::prelude::*;
use vstd::utf8::{decode_utf8, valid_utf8};

use crate::error::JvmError;
use crate::reader::utf8_to_string;

verus! {

/// The pieces of `s` between occurrences of `sep`: one more piece than there
/// are separators.
pub open spec fn split_on(s: Seq<u8>, sep: u8) -> Seq<Seq<u8>>
    decreases s.len(),
{
    if s.len() == 0 {
        seq![Seq::empty()]
    } else {
        let prev = split_on(s.drop_last(), sep);
        if s.last() == sep {
            prev.push(Seq::empty())
        } else {
            prev.update(prev.len() - 1, prev.last().push(s.last()))
        }
    }
}

pub proof fn lemma_split_on_nonempty(s: Seq<u8>, sep: u8)
    ensures
        split_on(s, sep).len() >= 1,
    decreases s.len(),
{
    if s.len() > 0 {
        lemma_split_on_nonempty(s.drop_last(), sep);
    }
}

/// The whitespace that manifest keys and values are trimmed of: space, tab,
/// line feed, vertical tab, form feed, carriage return.
pub open spec fn is_space(b: u8) -> bool {
    b == 32 || (9 <= b && b <= 13)
}

pub open spec fn trim_start(s: Seq<u8>) -> Seq<u8>
    decreases s.len(),
{
    if s.len() > 0 && is_space(s[0]) {
        trim_start(s.subrange(1, s.len() as int))
    } else {
        s
    }
}

pub open spec fn trim_end(s: Seq<u8>) -> Seq<u8>
    decreases s.len(),
{
    if s.len() > 0 && is_space(s.last()) {
        trim_end(s.drop_last())
    } else {
        s
    }
}

/// `s` without leading or trailing whitespace.
pub open spec fn trim(s: Seq<u8>) -> Seq<u8> {
    trim_end(trim_start(s))
}

/// The lines of `s`: the pieces between line feeds, a final line feed
/// ending the last line rather than starting an empty one, and a carriage
/// return before a line feed dropped.
pub open spec fn manifest_lines(s: Seq<u8>) -> Seq<Seq<u8>> {
    let pieces = split_on(s, 10);
    let body = if s.len() == 0 {
        Seq::empty()
    } else if s.last() == 10 {
        pieces.drop_last()
    } else {
        pieces
    };
    body.map(
        |i: int, l: Seq<u8>|
            if i < pieces.len() - 1 && l.len() > 0 && l.last() == 13 {
                l.drop_last()
            } else {
                l
            },
    )
}

/// The key and value of a line: the first two of its `:`-separated fields,
/// trimmed; a line with no `:` has none.
pub open spec fn line_entry(l: Seq<u8>) -> Option<(Seq<u8>, Seq<u8>)> {
    let fields = split_on(l, 58);
    if fields.len() < 2 {
        None
    } else {
        Some((trim(fields[0]), trim(fields[1])))
    }
}

/// The entries of the first `n` lines, in order.
pub open spec fn entries_of(lines: Seq<Seq<u8>>, n: int) -> Seq<(Seq<u8>, Seq<u8>)>
    decreases n,
{
    if n <= 0 {
        Seq::empty()
    } else {
        let prev = entries_of(lines, n - 1);
        match line_entry(lines[n - 1]) {
            Some(e) => prev.push(e),
            None => prev,
        }
    }
}

/// The key/value entries of a manifest's text, in the order of its lines.
pub open spec fn manifest_entries(s: Seq<u8>) -> Seq<(Seq<u8>, Seq<u8>)> {
    entries_of(manifest_lines(s), manifest_lines(s).len() as int)
}

/// The views of a list of byte strings.
pub open spec fn views(v: Seq<Vec<u8>>) -> Seq<Seq<u8>> {
    v.map_values(|x: Vec<u8>| x@)
}

/// Splits `s` at every `sep`.
fn split_bytes(s: &Vec<u8>, sep: u8) -> (r: Vec<Vec<u8>>)
    ensures
        views(r@) == split_on(s@, sep),
{
    let mut pieces: Vec<Vec<u8>> = Vec::new();
    let mut cur: Vec<u8> = Vec::new();
    let mut i: usize = 0;
    assert(s@.subrange(0, 0) =~= Seq::<u8>::empty());
    assert(views(pieces@).push(cur@) =~= seq![Seq::<u8>::empty()]);
    while i < s.len()
        invariant
            i <= s@.len(),
            split_on(s@.subrange(0, i as int), sep) == views(pieces@).push(cur@),
        decreases s@.len() - i,
    {
        let b = s[i];
        let ghost pre = s@.subrange(0, i as int);
        let ghost next = s@.subrange(0, i + 1);
        assert(next.drop_last() =~= pre);
        assert(next.last() == b);
        let ghost old_pieces = pieces@;
        let ghost old_cur = cur@;
        if b == sep {
            let done = cur;
            cur = Vec::new();
            pieces.push(done);
            assert(views(pieces@).push(cur@) =~= views(old_pieces).push(old_cur).push(
                Seq::empty(),
            ));
        } else {
            cur.push(b);
            assert(views(pieces@).push(cur@) =~= views(old_pieces).push(old_cur).update(
                views(old_pieces).len() as int,
                old_cur.push(b),
            ));
        }
        i = i + 1;
    }
    assert(s@.subrange(0, i as int) =~= s@);
    pieces.push(cur);
    assert(views(pieces@) =~= split_on(s@, sep));
    pieces
}

/// `s` without leading or trailing whitespace.
fn trim_bytes(s: &Vec<u8>) -> (r: Vec<u8>)
    ensures
        r@ == trim(s@),
{
    let n = s.len();
    let mut i: usize = 0;
    assert(s@.subrange(0, n as int) =~= s@);
    while i < n && (s[i] == 32 || (9 <= s[i] && s[i] <= 13))
        invariant
            i <= n == s@.len(),
            trim_start(s@) == trim_start(s@.subrange(i as int, n as int)),
        decreases n - i,
    {
        assert(s@.subrange(i as int, n as int).subrange(1, n - i) =~= s@.subrange(
            i + 1,
            n as int,
        ));
        i = i + 1;
    }
    let mut j: usize = n;
    assert(s@.subrange(i as int, n as int).subrange(0, n - i) =~= s@.subrange(i as int, n as int));
    while j > i && (s[j - 1] == 32 || (9 <= s[j - 1] && s[j - 1] <= 13))
        invariant
            i <= j <= n == s@.len(),
            trim_start(s@) == s@.subrange(i as int, n as int),
            trim(s@) == trim_end(s@.subrange(i as int, j as int)),
        decreases j - i,
    {
        assert(s@.subrange(i as int, j as int).drop_last() =~= s@.subrange(i as int, j - 1));
        j = j - 1;
    }
    let mut r: Vec<u8> = Vec::new();
    let mut k: usize = i;
    while k < j
        invariant
            i <= k <= j <= n == s@.len(),
            r@ == s@.subrange(i as int, k as int),
        decreases j - k,
    {
        r.push(s[k]);
        k = k + 1;
        assert(r@ =~= s@.subrange(i as int, k as int));
    }
    r
}

/// The first `n` bytes of `s`.
fn prefix_bytes(s: &Vec<u8>, n: usize) -> (r: Vec<u8>)
    requires
        n <= s@.len(),
    ensures
        r@ == s@.subrange(0, n as int),
{
    let mut r: Vec<u8> = Vec::new();
    let mut k: usize = 0;
    while k < n
        invariant
            k <= n <= s@.len(),
            r@ == s@.subrange(0, k as int),
        decreases n - k,
    {
        r.push(s[k]);
        k = k + 1;
        assert(r@ =~= s@.subrange(0, k as int));
    }
    r
}

proof fn lemma_entries_prefix(lines: Seq<Seq<u8>>, a: int, b: int)
    requires
        0 <= a <= b,
    ensures
        entries_of(lines, a).len() <= entries_of(lines, b).len(),
        forall|j: int|
            0 <= j < entries_of(lines, a).len() ==> #[trigger] entries_of(lines, a)[j]
                == entries_of(lines, b)[j],
    decreases b - a,
{
    if a < b {
        lemma_entries_prefix(lines, a, b - 1);
    }
}

/// `v` holds, in order, the texts of the keys and values in `entries`.
pub open spec fn decoded_entries(v: Seq<(String, String)>, entries: Seq<(Seq<u8>, Seq<u8>)>) -> bool {
    &&& v.len() == entries.len()
    &&& forall|j: int|
        0 <= j < v.len() ==> #[trigger] v[j].0@ == decode_utf8(entries[j].0) && v[j].1@
            == decode_utf8(entries[j].1)
}

/// Whether every key and value in `entries` is well-formed UTF-8.
pub open spec fn entries_are_text(entries: Seq<(Seq<u8>, Seq<u8>)>) -> bool {
    forall|j: int|
        0 <= j < entries.len() ==> valid_utf8(#[trigger] entries[j].0) && valid_utf8(entries[j].1)
}

/// The key/value entries of a manifest, in the order of its lines: each
/// line that holds a `:` gives the trimmed text before it and the trimmed
/// text up to the next `:`. Fails when one of those is not UTF-8.
pub fn parse_manifest(data: &Vec<u8>) -> (r: Result<Vec<(String, String)>, JvmError>)
    ensures
        r.is_ok() == entries_are_text(manifest_entries(data@)),
        r matches Ok(v) ==> decoded_entries(v@, manifest_entries(data@)),
        r matches Err(e) ==> e == JvmError::InvalidUtf8,
{
    let ghost lines = manifest_lines(data@);
    let pieces = split_bytes(data, 10);
    proof {
        lemma_split_on_nonempty(data@, 10);
    }
    let count: usize = if data.len() == 0 {
        0
    } else if data[data.len() - 1] == 10 {
        pieces.len() - 1
    } else {
        pieces.len()
    };
    assert(count == lines.len());
    let mut out: Vec<(String, String)> = Vec::new();
    let mut i: usize = 0;
    while i < count
        invariant
            lines == manifest_lines(data@),
            views(pieces@) == split_on(data@, 10),
            count == lines.len(),
            count <= pieces@.len(),
            i <= count,
            entries_are_text(entries_of(lines, i as int)),
            decoded_entries(out@, entries_of(lines, i as int)),
        decreases count - i,
    {
        let piece = &pieces[i];
        assert(piece@ == views(pieces@)[i as int]);
        let n = piece.len();
        let line = if i < pieces.len() - 1 && n > 0 && piece[n - 1] == 13 {
            prefix_bytes(piece, n - 1)
        } else {
            prefix_bytes(piece, n)
        };
        assert(line@ == lines[i as int]) by {
            assert(piece@.subrange(0, n as int) =~= piece@);
            if n > 0 {
                assert(piece@.subrange(0, n - 1) =~= piece@.drop_last());
            }
        }
        let fields = split_bytes(&line, 58);
        let ghost prev = entries_of(lines, i as int);
        if fields.len() >= 2 {
            assert(fields[0]@ == views(fields@)[0]);
            assert(fields[1]@ == views(fields@)[1]);
            let key = trim_bytes(&fields[0]);
            let value = trim_bytes(&fields[1]);
            let ghost e = (key@, value@);
            assert(entries_of(lines, i + 1) == prev.push(e));
            let k = match utf8_to_string(key) {
                Some(t) => t,
                None => {
                    proof {
                        lemma_entries_prefix(lines, i + 1, count as int);
                        assert(entries_of(lines, i + 1)[prev.len() as int] == e);
                        assert(manifest_entries(data@) == entries_of(lines, count as int));
                        assert(!valid_utf8(manifest_entries(data@)[prev.len() as int].0));
                    }
                    return Err(JvmError::InvalidUtf8);
                },
            };
            let v = match utf8_to_string(value) {
                Some(t) => t,
                None => {
                    proof {
                        lemma_entries_prefix(lines, i + 1, count as int);
                        assert(entries_of(lines, i + 1)[prev.len() as int] == e);
                        assert(manifest_entries(data@) == entries_of(lines, count as int));
                        assert(manifest_entries(data@)[prev.len() as int].0 == e.0);
                        assert(!valid_utf8(manifest_entries(data@)[prev.len() as int].1));
                    }
                    return Err(JvmError::InvalidUtf8);
                },
            };
            out.push((k, v));
            assert(entries_are_text(entries_of(lines, i + 1))) by {
                assert forall|j: int| 0 <= j < prev.len() + 1 implies valid_utf8(
                    #[trigger] entries_of(lines, i + 1)[j].0,
                ) && valid_utf8(entries_of(lines, i + 1)[j].1) by {
                    if j < prev.len() {
                        assert(entries_of(lines, i + 1)[j] == prev[j]);
                    }
                }
            }
            assert(decoded_entries(out@, entries_of(lines, i + 1))) by {
                assert forall|j: int| 0 <= j < out@.len() implies #[trigger] out@[j].0@
                    == decode_utf8(entries_of(lines, i + 1)[j].0) && out@[j].1@ == decode_utf8(
                    entries_of(lines, i + 1)[j].1,
                ) by {
                    if j < prev.len() {
                        assert(entries_of(lines, i + 1)[j] == prev[j]);
                    }
                }
            }
        } else {
            assert(entries_of(lines, i + 1) == prev);
        }
        i = i + 1;
    }
    assert(manifest_entries(data@) == entries_of(lines, count as int));
    assert(entries_are_text(manifest_entries(data@)));
    Ok(out)
}

} // verus!
