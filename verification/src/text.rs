//! The order of names, and lists of names kept in that order.
//!
//! Names are compared byte by byte in their UTF-8 encoding, which is the order
//! the standard library gives to strings.

use vstd::prelude::*;
use vstd::string::*;
use vstd::utf8::*;

verus! {

/// Whether `a` sorts before `b`, looking only at the bytes from position `i` on.
pub open spec fn bytes_before_from(a: Seq<u8>, b: Seq<u8>, i: int) -> bool
    decreases a.len() - i,
{
    if i >= a.len() {
        i < b.len()
    } else if i >= b.len() {
        false
    } else if a[i] != b[i] {
        a[i] < b[i]
    } else {
        bytes_before_from(a, b, i + 1)
    }
}

/// Lexicographic order on byte strings: the first byte that differs decides,
/// and a proper prefix sorts first.
pub open spec fn bytes_before(a: Seq<u8>, b: Seq<u8>) -> bool {
    bytes_before_from(a, b, 0)
}

/// Lexicographic order on names.
pub open spec fn text_before(a: Seq<char>, b: Seq<char>) -> bool {
    bytes_before(encode_utf8(a), encode_utf8(b))
}

/// The names held by a list of strings.
pub open spec fn texts(v: Seq<String>) -> Seq<Seq<char>> {
    v.map_values(|s: String| s@)
}

/// A list of names in strictly ascending order; such a list holds no name twice.
pub open spec fn ascending(s: Seq<Seq<char>>) -> bool {
    forall|i: int, j: int| 0 <= i < j < s.len() ==> text_before(#[trigger] s[i], #[trigger] s[j])
}

/// Two lists that hold the same names, whatever their order.
pub open spec fn same_members(s: Seq<Seq<char>>, t: Seq<Seq<char>>) -> bool {
    forall|x: Seq<char>| s.contains(x) <==> t.contains(x)
}

proof fn lemma_from_irreflexive(a: Seq<u8>, i: int)
    requires
        0 <= i,
    ensures
        !bytes_before_from(a, a, i),
    decreases a.len() - i,
{
    if i < a.len() {
        lemma_from_irreflexive(a, i + 1);
    }
}

proof fn lemma_from_transitive(a: Seq<u8>, b: Seq<u8>, c: Seq<u8>, i: int)
    requires
        0 <= i,
        bytes_before_from(a, b, i),
        bytes_before_from(b, c, i),
    ensures
        bytes_before_from(a, c, i),
    decreases a.len() - i,
{
    if i < a.len() && i < b.len() && i < c.len() && a[i] == b[i] && b[i] == c[i] {
        lemma_from_transitive(a, b, c, i + 1);
    }
}

proof fn lemma_from_total(a: Seq<u8>, b: Seq<u8>, i: int)
    requires
        0 <= i <= a.len(),
        i <= b.len(),
        forall|j: int| 0 <= j < i ==> a[j] == b[j],
        !bytes_before_from(a, b, i),
        !bytes_before_from(b, a, i),
    ensures
        a =~= b,
    decreases a.len() - i,
{
    if i < a.len() && i < b.len() {
        lemma_from_total(a, b, i + 1);
    }
}

/// No name sorts before itself.
pub proof fn lemma_before_irreflexive(a: Seq<char>)
    ensures
        !text_before(a, a),
{
    lemma_from_irreflexive(encode_utf8(a), 0);
}

/// The order of names is transitive.
pub proof fn lemma_before_transitive(a: Seq<char>, b: Seq<char>, c: Seq<char>)
    requires
        text_before(a, b),
        text_before(b, c),
    ensures
        text_before(a, c),
{
    lemma_from_transitive(encode_utf8(a), encode_utf8(b), encode_utf8(c), 0);
}

/// Of two names at most one sorts before the other.
pub proof fn lemma_before_asymmetric(a: Seq<char>, b: Seq<char>)
    requires
        text_before(a, b),
    ensures
        !text_before(b, a),
{
    if text_before(b, a) {
        lemma_before_transitive(a, b, a);
        lemma_before_irreflexive(a);
    }
}

/// Two different names are ordered one way or the other.
pub proof fn lemma_before_total(a: Seq<char>, b: Seq<char>)
    ensures
        a == b || text_before(a, b) || text_before(b, a),
{
    if !text_before(a, b) && !text_before(b, a) {
        lemma_from_total(encode_utf8(a), encode_utf8(b), 0);
        encode_utf8_decode_utf8(a);
        encode_utf8_decode_utf8(b);
    }
}

/// An ascending list is fixed by the names it holds: two ascending lists with
/// the same members are the same list.
pub proof fn lemma_ascending_unique(s: Seq<Seq<char>>, t: Seq<Seq<char>>)
    requires
        ascending(s),
        ascending(t),
        same_members(s, t),
    ensures
        s == t,
    decreases s.len(),
{
    if s.len() == 0 {
        if t.len() > 0 {
            assert(t.contains(t[0]));
            assert(s.contains(t[0]));
        }
        assert(s =~= t);
    } else {
        let m = s.last();
        assert(s.contains(m));
        assert(t.contains(m));
        let k = choose|k: int| 0 <= k < t.len() && t[k] == m;
        let n = t.last();
        assert(t.contains(n));
        assert(s.contains(n));
        let l = choose|l: int| 0 <= l < s.len() && s[l] == n;
        if k < t.len() - 1 {
            assert(text_before(t[k], t[t.len() - 1]));
            if l < s.len() - 1 {
                assert(text_before(s[l], s[s.len() - 1]));
                lemma_before_asymmetric(m, n);
            }
            lemma_before_irreflexive(m);
        }
        assert(n == m);
        let s0 = s.drop_last();
        let t0 = t.drop_last();
        assert forall|x: Seq<char>| s0.contains(x) <==> t0.contains(x) by {
            if s0.contains(x) {
                let i = choose|i: int| 0 <= i < s0.len() && s0[i] == x;
                assert(text_before(s[i], s[s.len() - 1]));
                assert(s.contains(x));
                assert(t.contains(x));
                let j = choose|j: int| 0 <= j < t.len() && t[j] == x;
                if j == t.len() - 1 {
                    lemma_before_irreflexive(m);
                }
                assert(t0[j] == x);
            }
            if t0.contains(x) {
                let i = choose|i: int| 0 <= i < t0.len() && t0[i] == x;
                assert(text_before(t[i], t[t.len() - 1]));
                assert(t.contains(x));
                assert(s.contains(x));
                let j = choose|j: int| 0 <= j < s.len() && s[j] == x;
                if j == s.len() - 1 {
                    lemma_before_irreflexive(m);
                }
                assert(s0[j] == x);
            }
        }
        assert(ascending(s0)) by {
            assert forall|i: int, j: int| 0 <= i < j < s0.len() implies text_before(
                #[trigger] s0[i],
                #[trigger] s0[j],
            ) by {
                assert(text_before(s[i], s[j]));
            }
        }
        assert(ascending(t0)) by {
            assert forall|i: int, j: int| 0 <= i < j < t0.len() implies text_before(
                #[trigger] t0[i],
                #[trigger] t0[j],
            ) by {
                assert(text_before(t[i], t[j]));
            }
        }
        lemma_ascending_unique(s0, t0);
        assert(s =~= s0.push(m));
        assert(t =~= t0.push(n));
    }
}

/// How one name stands to another in the order of names.
#[derive(Clone, Copy, Debug, PartialEq, Eq, Structural)]
pub enum Placement {
    /// The first name sorts before the second.
    Before,
    /// The two names are the same.
    Same,
    /// The first name sorts after the second.
    After,
}

/// Compares two names byte by byte.
pub fn place(a: &str, b: &str) -> (r: Placement)
    ensures
        r == Placement::Before <==> text_before(a@, b@),
        r == Placement::Same <==> a@ == b@,
        r == Placement::After <==> text_before(b@, a@),
{
    let x = a.as_bytes();
    let y = b.as_bytes();
    let n = x.len();
    let m = y.len();
    let mut i: usize = 0;
    proof {
        lemma_before_total(a@, b@);
        lemma_before_irreflexive(a@);
        if text_before(a@, b@) {
            lemma_before_asymmetric(a@, b@);
        }
    }
    while i < n && i < m
        invariant
            i <= n,
            i <= m,
            n == x@.len(),
            m == y@.len(),
            x@ == encode_utf8(a@),
            y@ == encode_utf8(b@),
            bytes_before_from(x@, y@, i as int) == text_before(a@, b@),
            bytes_before_from(y@, x@, i as int) == text_before(b@, a@),
        decreases n - i,
    {
        if x[i] < y[i] {
            return Placement::Before;
        }
        if x[i] > y[i] {
            return Placement::After;
        }
        i += 1;
    }
    if n < m {
        Placement::Before
    } else if n > m {
        Placement::After
    } else {
        Placement::Same
    }
}

/// Whether two names are the same.
pub fn same_text(a: &str, b: &str) -> (r: bool)
    ensures
        r == (a@ == b@),
{
    place(a, b) == Placement::Same
}

/// The first position in `names` that holds `key`, if any does.
pub fn find_text(names: &Vec<String>, key: &str) -> (r: Option<usize>)
    ensures
        match r {
            Some(i) => i < names.len() && names[i as int]@ == key@ && forall|j: int|
                0 <= j < i ==> names[j]@ != key@,
            None => !texts(names@).contains(key@),
        },
{
    let mut i: usize = 0;
    while i < names.len()
        invariant
            i <= names.len(),
            forall|j: int| 0 <= j < i ==> names[j]@ != key@,
        decreases names.len() - i,
    {
        if same_text(names[i].as_str(), key) {
            return Some(i);
        }
        i += 1;
    }
    assert forall|j: int| 0 <= j < texts(names@).len() implies texts(names@)[j] != key@ by {
        assert(texts(names@)[j] == names[j]@);
    }
    None
}

/// Whether `names` holds `key`.
pub fn has_text(names: &Vec<String>, key: &str) -> (r: bool)
    ensures
        r == texts(names@).contains(key@),
{
    match find_text(names, key) {
        Some(i) => {
            assert(texts(names@)[i as int] == key@);
            true
        },
        None => false,
    }
}

/// How many names at the front of `s` sort before `x`. In an ascending list
/// this is the place where `x` stands or would stand.
pub open spec fn rank(s: Seq<Seq<char>>, x: Seq<char>) -> nat
    decreases s.len(),
{
    if s.len() == 0 {
        0
    } else if text_before(s[0], x) {
        1 + rank(s.drop_first(), x)
    } else {
        0
    }
}

/// The list `s` with `x` put in at its rank, unless `s` holds it already.
pub open spec fn inserted(s: Seq<Seq<char>>, x: Seq<char>) -> Seq<Seq<char>> {
    if s.contains(x) {
        s
    } else {
        s.insert(rank(s, x) as int, x)
    }
}

/// The rank of a name is a position of the list, or its length.
pub proof fn lemma_rank_bound(s: Seq<Seq<char>>, x: Seq<char>)
    ensures
        rank(s, x) <= s.len(),
    decreases s.len(),
{
    if s.len() > 0 && text_before(s[0], x) {
        lemma_rank_bound(s.drop_first(), x);
    }
}

/// Putting a name into an ascending list keeps the list ascending and adds
/// that name to its members, and nothing else.
pub proof fn lemma_inserted(s: Seq<Seq<char>>, x: Seq<char>)
    requires
        ascending(s),
    ensures
        ascending(inserted(s, x)),
        forall|y: Seq<char>| inserted(s, x).contains(y) <==> (s.contains(y) || y == x),
    decreases s.len(),
{
    let r = rank(s, x) as int;
    lemma_rank_bound(s, x);
    lemma_rank_split(s, x);
    if !s.contains(x) {
        let after = s.insert(r, x);
        assert forall|j: int| r <= j < s.len() implies text_before(x, #[trigger] s[j]) by {
            lemma_before_total(s[r], x);
            assert(s.contains(s[r]));
            if j > r {
                assert(text_before(s[r], s[j]));
                lemma_before_transitive(x, s[r], s[j]);
            }
        }
        assert forall|a: int, b: int| 0 <= a < b < after.len() implies text_before(
            #[trigger] after[a],
            #[trigger] after[b],
        ) by {
            if a < r && b > r {
                assert(text_before(s[a], x));
                assert(text_before(x, s[b - 1]));
                lemma_before_transitive(s[a], x, s[b - 1]);
            } else if a < r && b < r {
                assert(text_before(s[a], s[b]));
            } else if a > r {
                assert(text_before(s[a - 1], s[b - 1]));
            }
        }
        assert forall|y: Seq<char>| after.contains(y) <==> (s.contains(y) || y == x) by {
            if after.contains(y) {
                let j = choose|j: int| 0 <= j < after.len() && after[j] == y;
                if j < r {
                    assert(s[j] == y);
                } else if j > r {
                    assert(s[j - 1] == y);
                }
            }
            if s.contains(y) {
                let j = choose|j: int| 0 <= j < s.len() && s[j] == y;
                if j < r {
                    assert(after[j] == y);
                } else {
                    assert(after[j + 1] == y);
                }
            }
            if y == x {
                assert(after[r] == y);
            }
        }
    }
}

/// Every name in front of the rank sorts before `x`, and the name at the rank
/// does not.
pub proof fn lemma_rank_split(s: Seq<Seq<char>>, x: Seq<char>)
    ensures
        rank(s, x) <= s.len(),
        forall|j: int| 0 <= j < rank(s, x) ==> text_before(#[trigger] s[j], x),
        rank(s, x) < s.len() ==> !text_before(s[rank(s, x) as int], x),
    decreases s.len(),
{
    if s.len() > 0 && text_before(s[0], x) {
        let rest = s.drop_first();
        lemma_rank_split(rest, x);
        assert forall|j: int| 0 <= j < rank(s, x) implies text_before(#[trigger] s[j], x) by {
            if j > 0 {
                assert(rest[j - 1] == s[j]);
            }
        }
        if rank(s, x) < s.len() {
            assert(rest[rank(rest, x) as int] == s[rank(s, x) as int]);
        }
    }
}

/// A name that an ascending list holds stands at its rank.
pub proof fn lemma_rank_of_member(s: Seq<Seq<char>>, x: Seq<char>)
    requires
        ascending(s),
        s.contains(x),
    ensures
        rank(s, x) < s.len(),
        s[rank(s, x) as int] == x,
{
    let r = rank(s, x) as int;
    lemma_rank_split(s, x);
    lemma_before_irreflexive(x);
    let k = choose|k: int| 0 <= k < s.len() && s[k] == x;
    if k < r {
        assert(text_before(s[k], x));
    } else if k > r {
        assert(text_before(s[r], s[k]));
    }
}

/// The order in which two names are put into an ascending list does not
/// matter.
pub proof fn lemma_inserted_commutes(s: Seq<Seq<char>>, x: Seq<char>, y: Seq<char>)
    requires
        ascending(s),
    ensures
        inserted(inserted(s, x), y) == inserted(inserted(s, y), x),
{
    lemma_inserted(s, x);
    lemma_inserted(s, y);
    lemma_inserted(inserted(s, x), y);
    lemma_inserted(inserted(s, y), x);
    let left = inserted(inserted(s, x), y);
    let right = inserted(inserted(s, y), x);
    assert forall|z: Seq<char>| left.contains(z) <==> right.contains(z) by {
        assert(inserted(s, x).contains(z) <==> (s.contains(z) || z == x));
        assert(inserted(s, y).contains(z) <==> (s.contains(z) || z == y));
        assert(left.contains(z) <==> (inserted(s, x).contains(z) || z == y));
        assert(right.contains(z) <==> (inserted(s, y).contains(z) || z == x));
    }
    lemma_ascending_unique(inserted(inserted(s, x), y), inserted(inserted(s, y), x));
}

/// Putting in a name that the list holds already changes nothing.
pub proof fn lemma_inserted_idempotent(s: Seq<Seq<char>>, x: Seq<char>)
    requires
        ascending(s),
    ensures
        inserted(inserted(s, x), x) == inserted(s, x),
{
    lemma_inserted(s, x);
}

/// Whether a list of names is in strictly ascending order.
pub fn is_ascending(names: &Vec<String>) -> (r: bool)
    ensures
        r == ascending(texts(names@)),
{
    let ghost all = texts(names@);
    let mut i: usize = 1;
    while i < names.len()
        invariant
            1 <= i,
            all == texts(names@),
            forall|a: int, b: int| 0 <= a < b < i && b < all.len() ==> text_before(
                #[trigger] all[a],
                #[trigger] all[b],
            ),
        decreases names.len() - i,
    {
        assert(all[i - 1] == names[i - 1]@);
        assert(all[i as int] == names[i as int]@);
        if place(names[i - 1].as_str(), names[i].as_str()) != Placement::Before {
            return false;
        }
        proof {
            assert forall|a: int, b: int| 0 <= a < b < i + 1 && b < all.len() implies text_before(
                #[trigger] all[a],
                #[trigger] all[b],
            ) by {
                if b == i && a < i - 1 {
                    assert(text_before(all[a], all[i - 1]));
                    lemma_before_transitive(all[a], all[i - 1], all[i as int]);
                }
            }
        }
        i += 1;
    }
    true
}

/// The rank of `key` in an ascending list, and whether the list holds `key`
/// there.
pub fn slot_of(names: &Vec<String>, key: &str) -> (r: (usize, bool))
    requires
        ascending(texts(names@)),
    ensures
        r.0 == rank(texts(names@), key@),
        r.0 <= names.len(),
        r.1 == texts(names@).contains(key@),
        r.1 ==> r.0 < names.len() && names[r.0 as int]@ == key@,
{
    let ghost all = texts(names@);
    let mut i: usize = 0;
    let mut found = false;
    assert(all.skip(0) =~= all);
    while i < names.len()
        invariant_except_break
            !found,
            rank(all, key@) == i + rank(all.skip(i as int), key@),
            forall|j: int| 0 <= j < i ==> text_before(#[trigger] all[j], key@),
        invariant
            i <= names.len(),
            all == texts(names@),
            ascending(all),
        ensures
            i <= names.len(),
            rank(all, key@) == i,
            forall|j: int| 0 <= j < i ==> text_before(#[trigger] all[j], key@),
            found ==> i < names.len() && all[i as int] == key@,
            !found && i < names.len() ==> text_before(key@, all[i as int]),
        decreases names.len() - i,
    {
        assert(all[i as int] == names[i as int]@);
        assert(all.skip(i as int)[0] == all[i as int]);
        assert(all.skip(i as int).drop_first() =~= all.skip(i + 1));
        match place(names[i].as_str(), key) {
            Placement::Before => {},
            Placement::Same => {
                proof {
                    lemma_before_irreflexive(key@);
                }
                found = true;
                break ;
            },
            Placement::After => {
                proof {
                    lemma_before_asymmetric(key@, all[i as int]);
                }
                break ;
            },
        }
        i += 1;
    }
    proof {
        if found {
            assert(all.contains(key@));
        } else {
            assert forall|j: int| 0 <= j < all.len() implies all[j] != key@ by {
                lemma_before_irreflexive(key@);
                if j > i {
                    assert(text_before(all[i as int], all[j]));
                    lemma_before_transitive(key@, all[i as int], all[j]);
                }
            }
        }
    }
    (i, found)
}

/// Puts `key` into an ascending list at the place its order gives it, unless
/// the list holds it already. Returns whether the list grew.
pub fn insert_text(names: &mut Vec<String>, key: String) -> (grew: bool)
    requires
        ascending(texts(old(names)@)),
    ensures
        texts(final(names)@) == inserted(texts(old(names)@), key@),
        ascending(texts(final(names)@)),
        grew == !texts(old(names)@).contains(key@),
{
    let (at, found) = slot_of(names, key.as_str());
    proof {
        lemma_inserted(texts(names@), key@);
    }
    if found {
        return false;
    }
    let ghost before = texts(names@);
    let ghost name = key@;
    names.insert(at, key);
    assert(texts(names@) =~= before.insert(at as int, name));
    true
}

/// Whether two lists hold the same names in the same order.
pub fn same_texts(a: &Vec<String>, b: &Vec<String>) -> (r: bool)
    ensures
        r == (texts(a@) == texts(b@)),
{
    if a.len() != b.len() {
        assert(texts(a@).len() != texts(b@).len());
        return false;
    }
    let mut i: usize = 0;
    while i < a.len()
        invariant
            i <= a.len(),
            a.len() == b.len(),
            forall|j: int| 0 <= j < i ==> a[j]@ == b[j]@,
        decreases a.len() - i,
    {
        if !same_text(a[i].as_str(), b[i].as_str()) {
            assert(texts(a@)[i as int] != texts(b@)[i as int]);
            return false;
        }
        i += 1;
    }
    assert(texts(a@) =~= texts(b@));
    true
}

/// A copy of a list of names.
pub fn copy_texts(a: &Vec<String>) -> (r: Vec<String>)
    ensures
        texts(r@) == texts(a@),
{
    let mut out: Vec<String> = Vec::new();
    let mut i: usize = 0;
    while i < a.len()
        invariant
            i <= a.len(),
            out.len() == i,
            forall|j: int| 0 <= j < i ==> out[j]@ == a[j]@,
        decreases a.len() - i,
    {
        out.push(a[i].clone());
        i += 1;
    }
    assert(texts(out@) =~= texts(a@));
    out
}

} // verus!
