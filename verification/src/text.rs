use vstd::prelude::*;

verus! {

/// What `str::to_lowercase` makes of a string: its Unicode lowercase mapping (character by
/// character, except that a capital sigma depends on its neighbours), which may change the
/// number of characters.
pub uninterp spec fn spec_to_lowercase(s: Seq<char>) -> Seq<char>;

/// Every character is ASCII.
pub open spec fn all_ascii(s: Seq<char>) -> bool {
    forall|i: int| 0 <= i < s.len() ==> (#[trigger] s[i] as int) < 128
}

/// The lowercase of an ASCII character: `A`..`Z` become `a`..`z`, every other character
/// stays as it is.
pub open spec fn ascii_lower(c: char) -> char {
    if 'A' <= c <= 'Z' {
        ((c as int) + 32) as char
    } else {
        c
    }
}

/// The lowercase of a string as `str::to_lowercase` gives it, written out where the string
/// is ASCII only and named otherwise.
pub open spec fn lowercase(s: Seq<char>) -> Seq<char> {
    if all_ascii(s) {
        s.map_values(|c: char| ascii_lower(c))
    } else {
        spec_to_lowercase(s)
    }
}

/// On each of these strings, `lowercase` is what `str::to_lowercase` returns.
pub open spec fn std_lowercase_on(texts: Seq<Seq<char>>) -> bool {
    forall|i: int| 0 <= i < texts.len() ==> lowercase(#[trigger] texts[i]) == spec_to_lowercase(texts[i])
}

/// Calls `str::to_lowercase`. Its result is named: it is a function of the characters of
/// `s` alone, given by Unicode's case tables. Of a string made of ASCII characters only,
/// the contract also states the result: `A`..`Z` become `a`..`z` and every other character
/// stays (Unicode's lowercase of an ASCII character is its ASCII lowercase). Beyond ASCII
/// the mapping is left to the name.
#[verifier::external_body]
pub(crate) fn to_lowercase(s: &str) -> (res: String)
    ensures
        res@ == spec_to_lowercase(s@),
        all_ascii(s@) ==> res@ == s@.map_values(|c: char| ascii_lower(c)),
{
    s.to_lowercase()
}

/// The sequence of characters of `s`, in order.
pub fn chars_of(s: &str) -> (v: Vec<char>)
    ensures
        v@ == s@,
{
    let mut v: Vec<char> = Vec::new();
    for c in it: s.chars()
        invariant
            v@ == it.seq().take(it.index() as int),
    {
        v.push(c);
    }
    v
}

/// `needle` occurs in `hay` as a run of consecutive characters.
/// The empty needle occurs in every sequence.
pub open spec fn seq_contains(hay: Seq<char>, needle: Seq<char>) -> bool {
    exists|i: int|
        0 <= i && i + needle.len() <= hay.len() && #[trigger] hay.subrange(i, i + needle.len())
            == needle
}

/// Whether `needle` stands in `hay` starting at position `at`.
fn occurs_at(hay: &Vec<char>, needle: &Vec<char>, at: usize) -> (b: bool)
    requires
        at + needle.len() <= hay.len(),
    ensures
        b == (hay@.subrange(at as int, at + needle.len()) == needle@),
{
    let n: usize = needle.len();
    let mut k: usize = 0;
    while k < n
        invariant
            n == needle.len(),
            at + n <= hay.len(),
            k <= n,
            forall|j: int| 0 <= j < k ==> hay@[at + j] == needle@[j],
        decreases n - k,
    {
        if hay[at + k] != needle[k] {
            assert(hay@.subrange(at as int, at + n)[k as int] != needle@[k as int]);
            return false;
        }
        k = k + 1;
    }
    assert(hay@.subrange(at as int, at + n) =~= needle@);
    true
}

/// Substring search on character sequences.
pub fn chars_contain(hay: &Vec<char>, needle: &Vec<char>) -> (b: bool)
    ensures
        b == seq_contains(hay@, needle@),
{
    let n: usize = needle.len();
    if n > hay.len() {
        assert(!seq_contains(hay@, needle@));
        return false;
    }
    let last: usize = hay.len() - n;
    let mut i: usize = 0;
    loop
        invariant
            n == needle.len(),
            last + n == hay.len(),
            i <= last,
            forall|j: int| 0 <= j < i ==> #[trigger] hay@.subrange(j, j + needle@.len()) != needle@,
        ensures
            forall|j: int| 0 <= j <= last ==> #[trigger] hay@.subrange(j, j + needle@.len()) != needle@,
        decreases last - i,
    {
        if occurs_at(hay, needle, i) {
            assert(hay@.subrange(i as int, i + n) == needle@);
            return true;
        }
        if i == last {
            break;
        }
        i = i + 1;
    }
    assert forall|j: int| 0 <= j && j + needle@.len() <= hay@.len() implies #[trigger] hay@.subrange(
        j,
        j + needle@.len(),
    ) != needle@ by {
        assert(j <= last);
    }
    false
}

/// Whether `word` occurs in `text` (the behaviour of `str::contains` with a string pattern).
pub fn str_contains(text: &str, word: &str) -> (b: bool)
    ensures
        b == seq_contains(text@, word@),
{
    let t = chars_of(text);
    let w = chars_of(word);
    chars_contain(&t, &w)
}

} // verus!
