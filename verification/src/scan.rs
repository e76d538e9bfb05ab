//! Cutting text into lines and fields.

use vstd::prelude::*;
use vstd::string::*;
use crate::text::texts;

verus! {

/// The position of the first `d` in `s` at or after `from`, or the length of
/// `s` if there is none.
pub open spec fn first_at(s: Seq<char>, from: int, d: char) -> int
    decreases s.len() - from,
{
    if from >= s.len() {
        s.len() as int
    } else if from >= 0 && s[from] == d {
        from
    } else {
        first_at(s, from + 1, d)
    }
}

/// The pieces of `s` between the occurrences of `d`. A text without `d` is
/// one piece; two occurrences side by side have an empty piece between them.
pub open spec fn pieces(s: Seq<char>, d: char) -> Seq<Seq<char>>
    decreases s.len(),
{
    let i = first_at(s, 0, d);
    if 0 <= i < s.len() {
        seq![s.take(i)] + pieces(s.skip(i + 1), d)
    } else {
        seq![s]
    }
}

/// The column, counted from 1, at which the field `k` of a line starts, when
/// one separator stands between two fields.
pub open spec fn column_of(fields: Seq<Seq<char>>, k: int) -> int
    decreases k,
{
    if k <= 0 {
        1
    } else {
        column_of(fields, k - 1) + fields[k - 1].len() + 1
    }
}

/// A count as far as the machine can hold it.
pub open spec fn clip(n: int) -> usize {
    if n < 0 {
        0
    } else if n > usize::MAX {
        usize::MAX
    } else {
        n as usize
    }
}

/// Where the first `d` stands: nothing in front of it is `d`, and it is `d`
/// unless it is past the end.
pub proof fn lemma_first_at(s: Seq<char>, from: int, d: char)
    requires
        0 <= from,
    ensures
        from <= first_at(s, from, d) || from > s.len(),
        first_at(s, from, d) <= s.len(),
        first_at(s, from, d) < s.len() ==> s[first_at(s, from, d)] == d,
        forall|k: int| from <= k < first_at(s, from, d) ==> #[trigger] s[k] != d,
    decreases s.len() - from,
{
    if from < s.len() && s[from] != d {
        lemma_first_at(s, from + 1, d);
    }
}

/// The first `d` at or after `from` stands at `at` if nothing between is `d`
/// and `at` holds `d` or is the end.
pub proof fn lemma_first_is(s: Seq<char>, from: int, d: char, at: int)
    requires
        0 <= from <= at <= s.len(),
        forall|k: int| from <= k < at ==> #[trigger] s[k] != d,
        at < s.len() ==> s[at] == d,
    ensures
        first_at(s, from, d) == at,
    decreases s.len() - from,
{
    if from < at {
        assert(s[from] != d);
        lemma_first_is(s, from + 1, d, at);
    }
}

/// No piece holds the separator, and there is always at least one piece.
pub proof fn lemma_pieces(s: Seq<char>, d: char)
    ensures
        pieces(s, d).len() >= 1,
        forall|k: int| 0 <= k < pieces(s, d).len() ==> !(#[trigger] pieces(s, d)[k]).contains(d),
    decreases s.len(),
{
    let i = first_at(s, 0, d);
    lemma_first_at(s, 0, d);
    if 0 <= i < s.len() {
        let rest = pieces(s.skip(i + 1), d);
        lemma_pieces(s.skip(i + 1), d);
        assert forall|k: int| 0 <= k < pieces(s, d).len() implies !(#[trigger] pieces(
            s,
            d,
        )[k]).contains(d) by {
            if k == 0 {
                assert(pieces(s, d)[0] == s.take(i));
                assert forall|j: int| 0 <= j < s.take(i).len() implies s.take(i)[j] != d by {
                    assert(s.take(i)[j] == s[j]);
                }
            } else {
                assert(pieces(s, d)[k] == rest[k - 1]);
            }
        }
    } else {
        assert(pieces(s, d)[0] == s);
    }
}

/// One step of cutting: if nothing from `start` up to `i` is `d` and `i`
/// holds `d`, the pieces from `start` on are the text between the two and
/// the pieces after `i`.
proof fn lemma_cut(s: Seq<char>, d: char, start: int, i: int)
    requires
        0 <= start <= i < s.len(),
        forall|j: int| start <= j < i ==> s[j] != d,
        s[i] == d,
    ensures
        pieces(s.skip(start), d) == seq![s.subrange(start, i)] + pieces(s.skip(i + 1), d),
{
    let rest = s.skip(start);
    assert forall|k: int| 0 <= k < i - start implies #[trigger] rest[k] != d by {
        assert(rest[k] == s[start + k]);
    }
    lemma_first_is(rest, 0, d, i - start);
    assert(rest.take(i - start) =~= s.subrange(start, i));
    assert(rest.skip(i - start + 1) =~= s.skip(i + 1));
}

/// The end of cutting: if nothing from `start` on is `d`, what is left is
/// one piece.
proof fn lemma_uncut(s: Seq<char>, d: char, start: int)
    requires
        0 <= start <= s.len(),
        forall|j: int| start <= j < s.len() ==> s[j] != d,
    ensures
        pieces(s.skip(start), d) == seq![s.subrange(start, s.len() as int)],
{
    let rest = s.skip(start);
    assert forall|k: int| 0 <= k < s.len() - start implies #[trigger] rest[k] != d by {
        assert(rest[k] == s[start + k]);
    }
    lemma_first_is(rest, 0, d, s.len() - start);
    assert(rest =~= s.subrange(start, s.len() as int));
}

/// Cuts a text of ASCII characters at every occurrence of an ASCII
/// character, in one pass.
fn split_ascii(text: &str, d: char) -> (r: Vec<String>)
    requires
        text.is_ascii(),
        (d as u32) < 128,
    ensures
        texts(r@) == pieces(text@, d),
{
    proof {
        is_ascii_spec_bytes(text);
        assert(text.spec_bytes().len() == text@.len());
    }
    let n = text.as_bytes().len();
    let mark = d as u8;
    let mut out: Vec<String> = Vec::new();
    let mut start: usize = 0;
    let mut i: usize = 0;
    assert(texts(out@) =~= Seq::empty());
    assert(text@.skip(0) =~= text@);
    while i < n
        invariant
            start <= i <= n,
            n == text@.len(),
            text.is_ascii(),
            (d as u32) < 128,
            mark == d as u8,
            forall|j: int| start <= j < i ==> text@[j] != d,
            pieces(text@, d) == texts(out@) + pieces(text@.skip(start as int), d),
        decreases n - i,
    {
        if text.get_ascii(i) == mark {
            let piece = String::from_str(text.substring_ascii(start, i));
            proof {
                lemma_cut(text@, d, start as int, i as int);
            }
            let ghost before = texts(out@);
            out.push(piece);
            assert(texts(out@) =~= before.push(piece@));
            assert(pieces(text@, d) =~= texts(out@) + pieces(text@.skip(i + 1), d));
            start = i + 1;
        }
        i += 1;
    }
    let piece = String::from_str(text.substring_ascii(start, n));
    proof {
        lemma_uncut(text@, d, start as int);
    }
    let ghost before = texts(out@);
    out.push(piece);
    assert(texts(out@) =~= before.push(piece@));
    out
}

/// Cuts any text at every occurrence of `d`, finding each character anew.
fn split_any(text: &str, d: char) -> (r: Vec<String>)
    ensures
        texts(r@) == pieces(text@, d),
{
    let n = text.unicode_len();
    let mut out: Vec<String> = Vec::new();
    let mut start: usize = 0;
    let mut i: usize = 0;
    assert(texts(out@) =~= Seq::empty());
    assert(text@.skip(0) =~= text@);
    while i < n
        invariant
            start <= i <= n,
            n == text@.len(),
            forall|j: int| start <= j < i ==> text@[j] != d,
            pieces(text@, d) == texts(out@) + pieces(text@.skip(start as int), d),
        decreases n - i,
    {
        if text.get_char(i) == d {
            let piece = String::from_str(text.substring_char(start, i));
            proof {
                lemma_cut(text@, d, start as int, i as int);
            }
            let ghost before = texts(out@);
            out.push(piece);
            assert(texts(out@) =~= before.push(piece@));
            assert(pieces(text@, d) =~= texts(out@) + pieces(text@.skip(i + 1), d));
            start = i + 1;
        }
        i += 1;
    }
    let piece = String::from_str(text.substring_char(start, n));
    proof {
        lemma_uncut(text@, d, start as int);
    }
    let ghost before = texts(out@);
    out.push(piece);
    assert(texts(out@) =~= before.push(piece@));
    out
}

/// Cuts a text at every occurrence of `d`.
pub fn split(text: &str, d: char) -> (r: Vec<String>)
    ensures
        texts(r@) == pieces(text@, d),
{
    if text.is_ascii() && (d as u32) < 128 {
        split_ascii(text, d)
    } else {
        split_any(text, d)
    }
}

/// The column at which the field `k` of a line starts; for a `k` past the
/// last field, the column at which a field after the last would start.
pub fn field_column(fields: &Vec<String>, k: usize) -> (r: usize)
    ensures
        r == clip(
            column_of(
                texts(fields@),
                if k <= fields.len() {
                    k as int
                } else {
                    fields.len() as int
                },
            ),
        ),
{
    let upto = if k <= fields.len() {
        k
    } else {
        fields.len()
    };
    let mut at: usize = 1;
    let mut j: usize = 0;
    while j < upto
        invariant
            j <= upto <= fields.len(),
            at == clip(column_of(texts(fields@), j as int)),
            column_of(texts(fields@), j as int) >= 1,
        decreases upto - j,
    {
        assert(texts(fields@)[j as int] == fields[j as int]@);
        let width = fields[j].as_str().unicode_len();
        at = at.saturating_add(width).saturating_add(1);
        j += 1;
    }
    at
}

/// The text that a list of pieces makes with `d` between each two of them.
pub open spec fn joined(parts: Seq<Seq<char>>, d: char) -> Seq<char>
    decreases parts.len(),
{
    if parts.len() == 0 {
        Seq::empty()
    } else if parts.len() == 1 {
        parts[0]
    } else {
        parts[0] + seq![d] + joined(parts.drop_first(), d)
    }
}

/// Cutting undoes joining: pieces that do not hold the separator are what
/// the text joined from them is cut into.
pub proof fn lemma_pieces_of_joined(parts: Seq<Seq<char>>, d: char)
    requires
        parts.len() >= 1,
        forall|k: int| 0 <= k < parts.len() ==> !(#[trigger] parts[k]).contains(d),
    ensures
        pieces(joined(parts, d), d) == parts,
    decreases parts.len(),
{
    let s = joined(parts, d);
    let head = parts[0];
    assert forall|j: int| 0 <= j < head.len() implies #[trigger] head[j] != d by {
        assert(!head.contains(d));
    }
    if parts.len() == 1 {
        lemma_first_is(s, 0, d, s.len() as int);
        assert(pieces(s, d) =~= parts);
    } else {
        let rest = parts.drop_first();
        assert forall|k: int| 0 <= k < rest.len() implies !(#[trigger] rest[k]).contains(d) by {
            assert(rest[k] == parts[k + 1]);
        }
        lemma_pieces_of_joined(rest, d);
        let i = head.len() as int;
        assert forall|j: int| 0 <= j < i implies #[trigger] s[j] != d by {
            assert(s[j] == head[j]);
        }
        assert(s[i] == d);
        lemma_first_is(s, 0, d, i);
        assert(s.take(i) =~= head);
        assert(s.skip(i + 1) =~= joined(rest, d));
        assert(pieces(s, d) =~= parts);
    }
}

} // verus!
