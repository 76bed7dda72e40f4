//! Verified text utilities: splitting on delimiter characters, joining,
//! substring search, trimming and equality, together with the spec-level
//! functions the rest of the crate states its contracts over.

use vstd::prelude::*;
use vstd::string::*;

verus! {

/// ASCII whitespace, the set the protocol trims around search terms.
pub open spec fn is_space(c: char) -> bool {
    c == ' ' || c == '\t' || c == '\n' || c == '\r'
}

/// Index of the first character of `s` that occurs in `ds`, or `s.len()`
/// if none does.
pub open spec fn find_in(s: Seq<char>, ds: Seq<char>) -> int
    decreases s.len(),
{
    if s.len() == 0 {
        0
    } else if ds.contains(s[0]) {
        0
    } else {
        1 + find_in(s.drop_first(), ds)
    }
}

pub proof fn lemma_find_in(s: Seq<char>, ds: Seq<char>)
    ensures
        0 <= find_in(s, ds) <= s.len(),
        forall|j: int| 0 <= j < find_in(s, ds) ==> !ds.contains(#[trigger] s[j]),
        find_in(s, ds) < s.len() ==> ds.contains(s[find_in(s, ds)]),
    decreases s.len(),
{
    if s.len() != 0 && !ds.contains(s[0]) {
        lemma_find_in(s.drop_first(), ds);
        assert forall|j: int| 0 <= j < find_in(s, ds) implies !ds.contains(#[trigger] s[j]) by {
            if j > 0 {
                assert(s[j] == s.drop_first()[j - 1]);
            }
        }
    }
}

/// The first delimiter position is the unique index `k` such that nothing
/// before `k` is a delimiter and `k` is either a delimiter or the end.
pub proof fn lemma_find_in_is(s: Seq<char>, ds: Seq<char>, k: int)
    requires
        0 <= k <= s.len(),
        forall|j: int| 0 <= j < k ==> !ds.contains(#[trigger] s[j]),
        k < s.len() ==> ds.contains(s[k]),
    ensures
        find_in(s, ds) == k,
{
    lemma_find_in(s, ds);
    let f = find_in(s, ds);
    if f < k {
        assert(!ds.contains(s[f]));
    }
    if k < f {
        assert(!ds.contains(s[k]));
    }
}

/// `s` split at every character that occurs in `ds`; the delimiters are
/// dropped and the pieces between them kept, so the result always has one
/// more piece than `s` has delimiters.
pub open spec fn split_at(s: Seq<char>, ds: Seq<char>) -> Seq<Seq<char>>
    decreases s.len(),
{
    let i = find_in(s, ds);
    if 0 <= i < s.len() {
        seq![s.subrange(0, i)] + split_at(s.subrange(i + 1, s.len() as int), ds)
    } else {
        seq![s]
    }
}

pub proof fn lemma_split_at_len(s: Seq<char>, ds: Seq<char>)
    ensures
        split_at(s, ds).len() >= 1,
    decreases s.len(),
{
    let i = find_in(s, ds);
    if 0 <= i < s.len() {
        lemma_split_at_len(s.subrange(i + 1, s.len() as int), ds);
    }
}

/// The pieces, joined back with the single delimiter `d` between them.
pub open spec fn join_with(parts: Seq<Seq<char>>, d: char) -> Seq<char>
    decreases parts.len(),
{
    if parts.len() == 0 {
        Seq::empty()
    } else if parts.len() == 1 {
        parts[0]
    } else {
        parts[0] + seq![d] + join_with(parts.drop_first(), d)
    }
}

/// Splitting undoes joining, as long as no piece contains the delimiter.
pub proof fn lemma_split_join(parts: Seq<Seq<char>>, d: char)
    requires
        parts.len() > 0,
        forall|i: int| 0 <= i < parts.len() ==> !(#[trigger] parts[i]).contains(d),
    ensures
        split_at(join_with(parts, d), seq![d]) == parts,
    decreases parts.len(),
{
    let s = join_with(parts, d);
    let ds = seq![d];
    assert(forall|c: char| ds.contains(c) <==> c == d) by {
        assert(ds[0] == d);
    }
    if parts.len() == 1 {
        assert(s == parts[0]);
        assert(forall|j: int| 0 <= j < s.len() ==> !ds.contains(#[trigger] s[j]));
        lemma_find_in_is(s, ds, s.len() as int);
        assert(split_at(s, ds) =~~= parts);
    } else {
        let head = parts[0];
        let rest = parts.drop_first();
        let tail = join_with(rest, d);
        assert(s == head + seq![d] + tail);
        let k = head.len() as int;
        assert(forall|j: int| 0 <= j < k ==> #[trigger] s[j] == head[j]);
        assert(s[k] == d);
        lemma_find_in_is(s, ds, k);
        assert(s.subrange(0, k) =~= head);
        assert(s.subrange(k + 1, s.len() as int) =~= tail);
        assert(forall|i: int| 0 <= i < rest.len() ==> !(#[trigger] rest[i]).contains(d));
        lemma_split_join(rest, d);
        assert(split_at(s, ds) =~~= parts);
    }
}

/// `n` occurs in `h` starting at position `i`.
pub open spec fn match_at(h: Seq<char>, n: Seq<char>, i: int) -> bool {
    0 <= i && i + n.len() <= h.len() && h.subrange(i, i + n.len()) == n
}

/// `n` occurs somewhere in `h`; the empty sequence occurs everywhere.
pub open spec fn has_substring(h: Seq<char>, n: Seq<char>) -> bool {
    exists|i: int| match_at(h, n, i)
}

/// `s` without its leading whitespace.
pub open spec fn trim_front(s: Seq<char>) -> Seq<char>
    decreases s.len(),
{
    if s.len() > 0 && is_space(s[0]) {
        trim_front(s.drop_first())
    } else {
        s
    }
}

/// `s` without its trailing whitespace.
pub open spec fn trim_back(s: Seq<char>) -> Seq<char>
    decreases s.len(),
{
    if s.len() > 0 && is_space(s.last()) {
        trim_back(s.drop_last())
    } else {
        s
    }
}

/// `s` without leading and trailing whitespace.
pub open spec fn trim_spec(s: Seq<char>) -> Seq<char> {
    trim_back(trim_front(s))
}

pub proof fn lemma_trim_front_is(s: Seq<char>, k: int)
    requires
        0 <= k <= s.len(),
        forall|j: int| 0 <= j < k ==> is_space(#[trigger] s[j]),
        k < s.len() ==> !is_space(s[k]),
    ensures
        trim_front(s) == s.subrange(k, s.len() as int),
    decreases s.len(),
{
    if s.len() > 0 && is_space(s[0]) {
        let t = s.drop_first();
        assert forall|j: int| 0 <= j < k - 1 implies is_space(#[trigger] t[j]) by {
            assert(t[j] == s[j + 1]);
        }
        lemma_trim_front_is(t, k - 1);
        assert(t.subrange(k - 1, t.len() as int) =~= s.subrange(k, s.len() as int));
    } else {
        assert(trim_front(s) =~= s.subrange(k, s.len() as int));
    }
}

pub proof fn lemma_trim_back_is(s: Seq<char>, k: int)
    requires
        0 <= k <= s.len(),
        forall|j: int| k <= j < s.len() ==> is_space(#[trigger] s[j]),
        k > 0 ==> !is_space(s[k - 1]),
    ensures
        trim_back(s) == s.subrange(0, k),
    decreases s.len(),
{
    if s.len() > 0 && is_space(s.last()) {
        let t = s.drop_last();
        lemma_trim_back_is(t, k);
        assert(t.subrange(0, k) =~= s.subrange(0, k));
    } else {
        assert(trim_back(s) =~= s.subrange(0, k));
    }
}

/// Whether the executable character `c` is ASCII whitespace.
pub fn is_space_char(c: char) -> (r: bool)
    ensures
        r == is_space(c),
{
    c == ' ' || c == '\t' || c == '\n' || c == '\r'
}

fn slice_has_char(ds: &[char], c: char) -> (r: bool)
    ensures
        r == ds@.contains(c),
{
    let mut i: usize = 0;
    while i < ds.len()
        invariant
            0 <= i <= ds@.len(),
            forall|j: int| 0 <= j < i ==> ds@[j] != c,
        decreases ds@.len() - i,
    {
        if ds[i] == c {
            return true;
        }
        i += 1;
    }
    false
}

/// Splits `s` at every occurrence of a character from `ds`.
pub fn split_chars(s: &str, ds: &[char]) -> (r: Vec<String>)
    ensures
        r.deep_view() == split_at(s@, ds@),
        r.len() >= 1,
{
    let n = s.unicode_len();
    let mut parts: Vec<String> = Vec::new();
    let mut start: usize = 0;
    let mut i: usize = 0;
    proof {
        assert(s@.subrange(0, n as int) =~= s@);
        assert(parts.deep_view() =~= Seq::<Seq<char>>::empty());
        assert(parts.deep_view() + split_at(s@, ds@) =~= split_at(s@, ds@));
    }
    while i < n
        invariant
            0 <= start <= i <= n == s@.len(),
            forall|j: int| start <= j < i ==> !ds@.contains(#[trigger] s@[j]),
            split_at(s@, ds@) == parts.deep_view() + split_at(
                s@.subrange(start as int, n as int),
                ds@,
            ),
        decreases n - i,
    {
        let c = s.get_char(i);
        if slice_has_char(ds, c) {
            let ghost rem = s@.subrange(start as int, n as int);
            proof {
                assert forall|j: int| 0 <= j < i - start implies !ds@.contains(
                    #[trigger] rem[j],
                ) by {
                    assert(rem[j] == s@[start + j]);
                }
                assert(rem[i - start] == s@[i as int]);
                lemma_find_in_is(rem, ds@, i - start);
            }
            let field = s.substring_char(start, i);
            let ghost old_parts = parts.deep_view();
            parts.push(String::from_str(field));
            proof {
                assert(rem.subrange(0, i - start) =~= s@.subrange(start as int, i as int));
                assert(rem.subrange(i - start + 1, rem.len() as int) =~= s@.subrange(
                    i + 1 as int,
                    n as int,
                ));
                assert(split_at(rem, ds@) == seq![s@.subrange(start as int, i as int)]
                    + split_at(s@.subrange(i + 1 as int, n as int), ds@));
                assert(parts.deep_view() =~= old_parts.push(field@));
                assert(old_parts.push(field@) =~= old_parts + seq![field@]);
                assert(parts.deep_view() + split_at(s@.subrange(i + 1 as int, n as int), ds@)
                    =~= old_parts + split_at(rem, ds@));
            }
            start = i + 1;
        }
        i += 1;
    }
    let last = s.substring_char(start, n);
    let ghost old_parts = parts.deep_view();
    parts.push(String::from_str(last));
    proof {
        let rem = s@.subrange(start as int, n as int);
        assert forall|j: int| 0 <= j < rem.len() implies !ds@.contains(#[trigger] rem[j]) by {
            assert(rem[j] == s@[start + j]);
        }
        lemma_find_in_is(rem, ds@, rem.len() as int);
        assert(split_at(rem, ds@) == seq![rem]);
        assert(parts.deep_view() =~= old_parts.push(last@));
        assert(old_parts.push(last@) =~= old_parts + seq![rem]);
        assert(parts.deep_view() =~= split_at(s@, ds@));
    }
    parts
}

/// Character-wise equality of two string slices.
pub fn str_eq(a: &str, b: &str) -> (r: bool)
    ensures
        r == (a@ == b@),
{
    let na = a.unicode_len();
    let nb = b.unicode_len();
    if na != nb {
        return false;
    }
    let mut i: usize = 0;
    while i < na
        invariant
            0 <= i <= na == a@.len(),
            na == nb == b@.len(),
            forall|j: int| 0 <= j < i ==> a@[j] == b@[j],
        decreases na - i,
    {
        if a.get_char(i) != b.get_char(i) {
            return false;
        }
        i += 1;
    }
    proof {
        assert(a@ =~= b@);
    }
    true
}

/// Whether `n` occurs in `h` as a contiguous substring.
pub fn find_substring(h: &str, n: &str) -> (r: bool)
    ensures
        r == has_substring(h@, n@),
{
    let hn = h.unicode_len();
    let nn = n.unicode_len();
    if nn > hn {
        assert forall|i: int| !match_at(h@, n@, i) by {}
        return false;
    }
    if nn == 0 {
        proof {
            assert(h@.subrange(0, 0) =~= n@);
            assert(match_at(h@, n@, 0));
        }
        return true;
    }
    let mut i: usize = 0;
    while i <= hn - nn
        invariant
            0 <= i <= hn - nn + 1,
            1 <= nn <= hn,
            hn == h@.len(),
            nn == n@.len(),
            forall|k: int| 0 <= k < i ==> !match_at(h@, n@, k),
        decreases hn - i,
    {
        let mut j: usize = 0;
        let mut all_eq = true;
        while j < nn
            invariant
                0 <= j <= nn,
                0 <= i <= hn - nn,
                hn == h@.len(),
                nn == n@.len(),
                all_eq ==> forall|m: int| 0 <= m < j ==> h@[i + m] == n@[m],
                !all_eq ==> !match_at(h@, n@, i as int),
            decreases nn - j,
        {
            if all_eq && h.get_char(i + j) != n.get_char(j) {
                proof {
                    assert(h@.subrange(i as int, i + nn) [j as int] == h@[i + j]);
                }
                all_eq = false;
            }
            j += 1;
        }
        if all_eq {
            proof {
                assert(h@.subrange(i as int, i + nn) =~= n@);
                assert(match_at(h@, n@, i as int));
            }
            return true;
        }
        i += 1;
    }
    false
}

/// `s` with ASCII whitespace removed from both ends.
pub fn trim_ws<'a>(s: &'a str) -> (r: &'a str)
    ensures
        r@ == trim_spec(s@),
{
    let n = s.unicode_len();
    let mut a: usize = 0;
    while a < n && is_space_char(s.get_char(a))
        invariant
            0 <= a <= n == s@.len(),
            forall|j: int| 0 <= j < a ==> is_space(#[trigger] s@[j]),
        decreases n - a,
    {
        a += 1;
    }
    let mut b: usize = n;
    while b > a && is_space_char(s.get_char(b - 1))
        invariant
            a <= b <= n == s@.len(),
            forall|j: int| b <= j < n ==> is_space(#[trigger] s@[j]),
        decreases b,
    {
        b -= 1;
    }
    proof {
        lemma_trim_front_is(s@, a as int);
        let t = s@.subrange(a as int, n as int);
        assert forall|j: int| b - a <= j < t.len() implies is_space(#[trigger] t[j]) by {
            assert(t[j] == s@[a + j]);
        }
        if b > a {
            assert(t[b - a - 1] == s@[b - 1]);
        }
        lemma_trim_back_is(t, b - a);
        assert(t.subrange(0, b - a) =~= s@.subrange(a as int, b as int));
    }
    s.substring_char(a, b)
}

/// The case-folded form of a character sequence, as `str::to_lowercase`
/// computes it; it depends on the characters alone.
pub uninterp spec fn lower_of(s: Seq<char>) -> Seq<char>;

/// Relies on `str::to_lowercase`: the returned text is the Unicode lowercase
/// form of the input, a function of the input characters alone.
#[verifier::external_body]
pub(crate) fn to_lower(s: &str) -> (r: String)
    ensures
        r@ == lower_of(s@),
{
    s.to_lowercase()
}

} // verus!
