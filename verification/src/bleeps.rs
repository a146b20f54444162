use vstd::prelude::*;

use crate::arith::fits_i64;
use crate::text::{lowercase, seq_contains, spec_to_lowercase, std_lowercase_on, str_contains, to_lowercase};
use crate::transcript::{
    piece_views, segment_pieces, segment_pieces_spec, transcript_words, transcript_words_spec,
    Piece, Segment,
};

verus! {

/// A stretch of the transcript to be covered by noise: the listed word that was heard
/// inside it, and its bounds in milliseconds.
#[derive(Debug, PartialEq, Eq)]
pub struct CensoringPosition {
    pub word: String,
    pub start_ms: i64,
    pub end_ms: i64,
}

impl View for CensoringPosition {
    type V = (Seq<char>, int, int);

    open spec fn view(&self) -> (Seq<char>, int, int) {
        (self.word@, self.start_ms as int, self.end_ms as int)
    }
}

/// The views of a list of strings.
pub open spec fn word_views(words: Seq<String>) -> Seq<Seq<char>> {
    words.map_values(|w: String| w@)
}

/// The views of a list of positions.
pub open spec fn position_views(ps: Seq<CensoringPosition>) -> Seq<(Seq<char>, int, int)> {
    ps.map_values(|p: CensoringPosition| p@)
}

/// The listed words lowercased: what is looked for in the lowercased transcript, so that
/// matching ignores case on both sides.
pub open spec fn keys_of(words: Seq<Seq<char>>) -> Seq<Seq<char>> {
    words.map_values(|w: Seq<char>| lowercase(w))
}

/// Some key occurs in `text`.
pub open spec fn any_key_in(text: Seq<char>, keys: Seq<Seq<char>>) -> bool {
    exists|j: int| 0 <= j < keys.len() && seq_contains(text, #[trigger] keys[j])
}

/// The index of the first key, in list order, that occurs in `text`.
pub open spec fn first_found(text: Seq<char>, keys: Seq<Seq<char>>) -> Option<int>
    decreases keys.len(),
{
    if keys.len() == 0 {
        None
    } else if seq_contains(text, keys[0]) {
        Some(0)
    } else {
        match first_found(text, keys.drop_first()) {
            Some(j) => Some(j + 1),
            None => None,
        }
    }
}

/// A first key is found exactly when some key occurs, and it is the first that occurs.
pub proof fn lemma_first_found(text: Seq<char>, keys: Seq<Seq<char>>)
    ensures
        first_found(text, keys) is Some <==> any_key_in(text, keys),
        first_found(text, keys) matches Some(j) ==> {
            &&& 0 <= j < keys.len()
            &&& seq_contains(text, keys[j])
            &&& forall|i: int| 0 <= i < j ==> !seq_contains(text, #[trigger] keys[i])
        },
    decreases keys.len(),
{
    if keys.len() > 0 {
        let rest = keys.drop_first();
        lemma_first_found(text, rest);
        if !seq_contains(text, keys[0]) {
            if any_key_in(text, keys) {
                let j = choose|j: int| 0 <= j < keys.len() && seq_contains(text, #[trigger] keys[j]);
                assert(rest[j - 1] == keys[j]);
            }
            if any_key_in(text, rest) {
                let j = choose|j: int| 0 <= j < rest.len() && seq_contains(text, #[trigger] rest[j]);
                assert(keys[j + 1] == rest[j]);
            }
            if let Some(j) = first_found(text, rest) {
                assert forall|i: int| 0 <= i < j + 1 implies !seq_contains(text, #[trigger] keys[i]) by {
                    if i > 0 {
                        assert(keys[i] == rest[i - 1]);
                    }
                }
                assert(keys[j + 1] == rest[j]);
            }
        } else {
            assert(any_key_in(text, keys));
        }
    }
}

/// Looking for the keys `A + C`: the first of `A` that occurs if one does, else the first
/// of `C` that occurs (counted after `A`).
pub proof fn lemma_first_found_append(text: Seq<char>, ka: Seq<Seq<char>>, kc: Seq<Seq<char>>)
    ensures
        first_found(text, ka + kc) == match first_found(text, ka) {
            Some(j) => Some(j),
            None => match first_found(text, kc) {
                Some(j) => Some(j + ka.len()),
                None => None,
            },
        },
    decreases ka.len(),
{
    if ka.len() == 0 {
        assert(ka + kc =~= kc);
    } else {
        lemma_first_found_append(text, ka.drop_first(), kc);
        assert((ka + kc).drop_first() =~= ka.drop_first() + kc);
        assert((ka + kc)[0] == ka[0]);
    }
}

/// For a piece of text spanning `[t0, t1]` (tens of milliseconds): one position if some
/// listed word's key occurs in the text, naming the first such listed word (in list order)
/// and spanning `[10 * t0, 10 * t1]` milliseconds; none otherwise. `keys[j]` is the key of
/// `words[j]`.
pub open spec fn word_hits(
    text: Seq<char>,
    keys: Seq<Seq<char>>,
    words: Seq<Seq<char>>,
    t0: int,
    t1: int,
) -> Seq<(Seq<char>, int, int)> {
    match first_found(text, keys) {
        Some(j) => seq![(words[j], t0 * 10, t1 * 10)],
        None => seq![],
    }
}

/// Partial matching in one piece: a piece yields a position exactly when the key of some
/// listed word occurs in its text, and then just one, naming the first listed word whose
/// key occurs and spanning the piece's bounds in milliseconds.
pub proof fn lemma_word_hits_are_partial_matches(
    text: Seq<char>,
    keys: Seq<Seq<char>>,
    words: Seq<Seq<char>>,
    t0: int,
    t1: int,
)
    requires
        keys.len() == words.len(),
    ensures
        word_hits(text, keys, words, t0, t1).len() <= 1,
        word_hits(text, keys, words, t0, t1).len() == 1 <==> any_key_in(text, keys),
        word_hits(text, keys, words, t0, t1).len() == 1 ==> exists|j: int|
            0 <= j < words.len() && seq_contains(text, #[trigger] keys[j]) && (forall|i: int|
                0 <= i < j ==> !seq_contains(text, #[trigger] keys[i])) && word_hits(
                text,
                keys,
                words,
                t0,
                t1,
            )[0] == (words[j], t0 * 10, t1 * 10),
{
    lemma_first_found(text, keys);
}

/// Looking for more words keeps what was found: for `A + C`, the position for `A` where
/// there is one, else the position for `C`.
pub proof fn lemma_word_hits_append(
    text: Seq<char>,
    ka: Seq<Seq<char>>,
    a: Seq<Seq<char>>,
    kc: Seq<Seq<char>>,
    c: Seq<Seq<char>>,
    t0: int,
    t1: int,
)
    requires
        ka.len() == a.len(),
        kc.len() == c.len(),
    ensures
        word_hits(text, ka + kc, a + c, t0, t1) == if word_hits(text, ka, a, t0, t1).len() > 0 {
            word_hits(text, ka, a, t0, t1)
        } else {
            word_hits(text, kc, c, t0, t1)
        },
{
    lemma_first_found_append(text, ka, kc);
    lemma_first_found(text, ka);
    lemma_first_found(text, kc);
    if let Some(j) = first_found(text, ka) {
        assert((a + c)[j] == a[j]);
    } else if let Some(j) = first_found(text, kc) {
        assert((a + c)[j + a.len()] == c[j]);
    }
}

/// The millisecond bounds of a piece of text are computed (and must fit in `i64`) only
/// where some key occurs in it.
pub open spec fn stamps_fit(text: Seq<char>, keys: Seq<Seq<char>>, t0: int, t1: int) -> bool {
    any_key_in(text, keys) ==> fits_i64(t0 * 10) && fits_i64(t1 * 10)
}

/// The position for one piece of lowercased text spanning `[t0, t1]` tens of milliseconds:
/// where the key `keys[j]` of some listed word occurs in `lowered`, one position naming
/// the first such listed word and spanning `[10 * t0, 10 * t1]`; else none.
pub fn match_words(
    lowered: &str,
    keys: &Vec<String>,
    words: &Vec<String>,
    t0: i64,
    t1: i64,
) -> (res: Vec<CensoringPosition>)
    requires
        keys@.len() == words@.len(),
        stamps_fit(lowered@, word_views(keys@), t0 as int, t1 as int),
    ensures
        position_views(res@) == word_hits(
            lowered@,
            word_views(keys@),
            word_views(words@),
            t0 as int,
            t1 as int,
        ),
{
    let ghost ks = word_views(keys@);
    proof {
        lemma_first_found(lowered@, ks);
    }
    let mut res: Vec<CensoringPosition> = Vec::new();
    let n: usize = words.len();
    let mut j: usize = 0;
    while j < n
        invariant
            n == words.len(),
            n == keys.len(),
            j <= n,
            ks == word_views(keys@),
            res@.len() == 0,
            stamps_fit(lowered@, ks, t0 as int, t1 as int),
            forall|i: int| 0 <= i < j ==> !seq_contains(lowered@, #[trigger] ks[i]),
        decreases n - j,
    {
        if str_contains(lowered, keys[j].as_str()) {
            assert(seq_contains(lowered@, ks[j as int]));
            assert(any_key_in(lowered@, ks));
            proof {
                lemma_first_found(lowered@, ks);
            }
            let ghost found = first_found(lowered@, ks)->0;
            assert(found == j) by {
                if found < j {
                    assert(!seq_contains(lowered@, ks[found]));
                } else if found > j {
                    assert(!seq_contains(lowered@, ks[j as int]));
                }
            }
            let p = CensoringPosition { word: words[j].clone(), start_ms: t0 * 10, end_ms: t1 * 10 };
            res.push(p);
            assert(position_views(res@) =~= word_hits(
                lowered@,
                ks,
                word_views(words@),
                t0 as int,
                t1 as int,
            ));
            return res;
        }
        j = j + 1;
    }
    assert(!any_key_in(lowered@, ks));
    proof {
        lemma_first_found(lowered@, ks);
    }
    assert(position_views(res@) =~= Seq::<(Seq<char>, int, int)>::empty());
    res
}

/// The positions found in a run of pieces: for each piece in order, the one position (if
/// any) of `word_hits` for its lowercased text and the lowercased listed words.
pub open spec fn pieces_hits(pieces: Seq<(Seq<char>, int, int)>, words: Seq<Seq<char>>) -> Seq<
    (Seq<char>, int, int),
>
    decreases pieces.len(),
{
    if pieces.len() == 0 {
        seq![]
    } else {
        let p = pieces.last();
        pieces_hits(pieces.drop_last(), words) + word_hits(
            lowercase(p.0),
            keys_of(words),
            words,
            p.1,
            p.2,
        )
    }
}

/// Every piece in which a listed word is found has bounds whose millisecond values fit.
pub open spec fn pieces_fit(pieces: Seq<(Seq<char>, int, int)>, words: Seq<Seq<char>>) -> bool {
    forall|i: int|
        0 <= i < pieces.len() ==> stamps_fit(
            lowercase(#[trigger] pieces[i].0),
            keys_of(words),
            pieces[i].1,
            pieces[i].2,
        )
}

/// Over a whole run of pieces, every position names a listed word whose lowercased form
/// occurs in the lowercased text of some piece, and spans that piece in milliseconds. There
/// are at most as many positions as pieces, and looking for the words `A + C` finds at
/// least as many as looking for `A`.
pub proof fn lemma_pieces_hits_laws(
    pieces: Seq<(Seq<char>, int, int)>,
    a: Seq<Seq<char>>,
    c: Seq<Seq<char>>,
)
    ensures
        forall|k: int|
            0 <= k < pieces_hits(pieces, a).len() ==> {
                let h = #[trigger] pieces_hits(pieces, a)[k];
                &&& a.contains(h.0)
                &&& exists|i: int|
                    0 <= i < pieces.len() && seq_contains(
                        lowercase(#[trigger] pieces[i].0),
                        lowercase(h.0),
                    ) && h.1 == pieces[i].1 * 10 && h.2 == pieces[i].2 * 10
            },
        pieces_hits(pieces, a).len() <= pieces.len(),
        pieces_hits(pieces, a).len() <= pieces_hits(pieces, a + c).len(),
    decreases pieces.len(),
{
    if pieces.len() > 0 {
        let rest = pieces.drop_last();
        let p = pieces.last();
        let last = pieces.len() - 1;
        lemma_pieces_hits_laws(rest, a, c);
        let lt = lowercase(p.0);
        lemma_word_hits_are_partial_matches(lt, keys_of(a), a, p.1, p.2);
        lemma_word_hits_are_partial_matches(lt, keys_of(c), c, p.1, p.2);
        assert(keys_of(a + c) =~= keys_of(a) + keys_of(c));
        lemma_word_hits_append(lt, keys_of(a), a, keys_of(c), c, p.1, p.2);
        let hits = pieces_hits(pieces, a);
        let prev = pieces_hits(rest, a);
        let here = word_hits(lt, keys_of(a), a, p.1, p.2);
        assert(hits == prev + here);
        assert forall|k: int| 0 <= k < hits.len() implies {
            let h = #[trigger] hits[k];
            &&& a.contains(h.0)
            &&& exists|i: int|
                0 <= i < pieces.len() && seq_contains(
                    lowercase(#[trigger] pieces[i].0),
                    lowercase(h.0),
                ) && h.1 == pieces[i].1 * 10 && h.2 == pieces[i].2 * 10
        } by {
            if k < prev.len() {
                assert(hits[k] == prev[k]);
                let i = choose|i: int|
                    0 <= i < rest.len() && seq_contains(
                        lowercase(#[trigger] rest[i].0),
                        lowercase(prev[k].0),
                    ) && prev[k].1 == rest[i].1 * 10 && prev[k].2 == rest[i].2 * 10;
                assert(pieces[i] == rest[i]);
            } else {
                let h = hits[k];
                assert(h == here[0]);
                let j = choose|j: int|
                    0 <= j < a.len() && seq_contains(lt, #[trigger] keys_of(a)[j]) && (forall|i: int|
                        0 <= i < j ==> !seq_contains(lt, #[trigger] keys_of(a)[i])) && here[0] == (
                        a[j],
                        p.1 * 10,
                        p.2 * 10,
                    );
                assert(keys_of(a)[j] == lowercase(a[j]));
                assert(pieces[last] == p);
            }
        }
    }
}

/// `h` is the position that piece `p` yields: it names the first listed word (in list
/// order) whose lowercased form occurs in the piece's lowercased text, and spans the
/// piece's bounds in milliseconds.
pub open spec fn names_first_found(
    p: (Seq<char>, int, int),
    words: Seq<Seq<char>>,
    h: (Seq<char>, int, int),
) -> bool {
    exists|j: int|
        0 <= j < words.len() && seq_contains(lowercase(p.0), lowercase(#[trigger] words[j]))
            && (forall|i: int|
            0 <= i < j ==> !seq_contains(lowercase(p.0), lowercase(#[trigger] words[i])))
            && h == (words[j], p.1 * 10, p.2 * 10)
}

/// A listed word (lowercased) occurs in the lowercased text of piece `p`.
pub open spec fn piece_matches(p: (Seq<char>, int, int), words: Seq<Seq<char>>) -> bool {
    exists|j: int| 0 <= j < words.len() && seq_contains(lowercase(p.0), lowercase(#[trigger] words[j]))
}

/// `hits[k]` is the position of piece `src[k]`; the sources increase; and every piece in
/// which a listed word occurs is a source.
pub open spec fn positions_from(
    pieces: Seq<(Seq<char>, int, int)>,
    words: Seq<Seq<char>>,
    hits: Seq<(Seq<char>, int, int)>,
    src: Seq<int>,
) -> bool {
    &&& src.len() == hits.len()
    &&& forall|k: int, l: int| 0 <= k < l < src.len() ==> #[trigger] src[k] < #[trigger] src[l]
    &&& forall|k: int|
        0 <= k < src.len() ==> 0 <= #[trigger] src[k] < pieces.len() && names_first_found(
            pieces[src[k]],
            words,
            hits[k],
        )
    &&& forall|i: int|
        0 <= i < pieces.len() && piece_matches(#[trigger] pieces[i], words) ==> exists|k: int|
            0 <= k < src.len() && src[k] == i
}

/// Completeness and soundness of matching over a run of pieces: the positions are exactly
/// one for each piece in which a listed word occurs (ignoring case), in the order of the
/// pieces, each naming the first listed word found in its piece and spanning that piece's
/// bounds. A piece is never skipped, whatever the pieces before it hold.
pub proof fn lemma_positions_are_matched_pieces(pieces: Seq<(Seq<char>, int, int)>, words: Seq<Seq<char>>)
    ensures
        exists|src: Seq<int>| positions_from(pieces, words, pieces_hits(pieces, words), src),
    decreases pieces.len(),
{
    if pieces.len() == 0 {
        assert(positions_from(pieces, words, pieces_hits(pieces, words), Seq::<int>::empty()));
    } else {
        let rest = pieces.drop_last();
        let p = pieces.last();
        let n = pieces.len() - 1;
        lemma_positions_are_matched_pieces(rest, words);
        let prev = pieces_hits(rest, words);
        let src0 = choose|src: Seq<int>| positions_from(rest, words, prev, src);
        let lt = lowercase(p.0);
        let keys = keys_of(words);
        lemma_word_hits_are_partial_matches(lt, keys, words, p.1, p.2);
        let here = word_hits(lt, keys, words, p.1, p.2);
        let hits = pieces_hits(pieces, words);
        assert(hits == prev + here);
        assert(pieces[n] == p);
        assert(forall|i: int| 0 <= i < n ==> #[trigger] pieces[i] == rest[i]);
        assert(forall|j: int| 0 <= j < words.len() ==> #[trigger] keys[j] == lowercase(words[j]));
        assert(piece_matches(p, words) <==> any_key_in(lt, keys)) by {
            if piece_matches(p, words) {
                let j = choose|j: int| 0 <= j < words.len() && seq_contains(lowercase(p.0), lowercase(#[trigger] words[j]));
                assert(seq_contains(lt, keys[j]));
            }
            if any_key_in(lt, keys) {
                let j = choose|j: int| 0 <= j < keys.len() && seq_contains(lt, #[trigger] keys[j]);
                assert(seq_contains(lowercase(p.0), lowercase(words[j])));
            }
        }
        let src = if here.len() == 1 { src0.push(n as int) } else { src0 };
        if here.len() == 1 {
            let j = choose|j: int|
                0 <= j < words.len() && seq_contains(lt, #[trigger] keys[j]) && (forall|i: int|
                    0 <= i < j ==> !seq_contains(lt, #[trigger] keys[i])) && here[0] == (
                    words[j],
                    p.1 * 10,
                    p.2 * 10,
                );
            assert(forall|i: int| 0 <= i < j ==> !seq_contains(lowercase(p.0), lowercase(#[trigger] words[i]))) by {
                assert forall|i: int| 0 <= i < j implies !seq_contains(lowercase(p.0), lowercase(#[trigger] words[i])) by {
                    assert(keys[i] == lowercase(words[i]));
                }
            }
            assert(names_first_found(p, words, here[0]));
        }
        assert forall|k: int| 0 <= k < src.len() implies 0 <= #[trigger] src[k] < pieces.len()
            && names_first_found(pieces[src[k]], words, hits[k]) by {
            if k < src0.len() {
                assert(src[k] == src0[k]);
                assert(hits[k] == prev[k]);
                assert(pieces[src0[k]] == rest[src0[k]]);
            } else {
                assert(src[k] == n);
                assert(hits[k] == here[0]);
            }
        }
        assert forall|k: int, l: int| 0 <= k < l < src.len() implies #[trigger] src[k] < #[trigger] src[l] by {
            if l < src0.len() {
                assert(src[k] == src0[k] && src[l] == src0[l]);
            } else {
                assert(src[k] == src0[k]);
                assert(0 <= src0[k] < rest.len());
            }
        }
        assert forall|i: int| 0 <= i < pieces.len() && piece_matches(#[trigger] pieces[i], words) implies exists|k: int|
            0 <= k < src.len() && src[k] == i by {
            if i < n {
                assert(piece_matches(rest[i], words));
                let k = choose|k: int| 0 <= k < src0.len() && src0[k] == i;
                assert(src[k] == src0[k]);
            } else {
                assert(src[src.len() - 1] == n);
            }
        }
        assert(positions_from(pieces, words, hits, src));
    }
}

/// `a` appears in `b` in order, at the increasing positions `idx`.
pub open spec fn subsequence_at<A>(a: Seq<A>, b: Seq<A>, idx: Seq<int>) -> bool {
    &&& idx.len() == a.len()
    &&& forall|i: int| 0 <= i < idx.len() ==> 0 <= #[trigger] idx[i] < b.len() && b[idx[i]] == a[i]
    &&& forall|i: int, j: int| 0 <= i < j < idx.len() ==> #[trigger] idx[i] < #[trigger] idx[j]
}

/// `a` is a subsequence of `b`.
pub open spec fn is_subsequence<A>(a: Seq<A>, b: Seq<A>) -> bool {
    exists|idx: Seq<int>| subsequence_at(a, b, idx)
}

/// Looking for more words never loses a position: what the words `A` find is a
/// subsequence of what the words `A + C` find.
pub proof fn lemma_more_words_keep_positions(
    pieces: Seq<(Seq<char>, int, int)>,
    a: Seq<Seq<char>>,
    c: Seq<Seq<char>>,
)
    ensures
        is_subsequence(pieces_hits(pieces, a), pieces_hits(pieces, a + c)),
    decreases pieces.len(),
{
    if pieces.len() == 0 {
        assert(subsequence_at(pieces_hits(pieces, a), pieces_hits(pieces, a + c), Seq::<int>::empty()));
    } else {
        let rest = pieces.drop_last();
        let p = pieces.last();
        lemma_more_words_keep_positions(rest, a, c);
        let prev_a = pieces_hits(rest, a);
        let prev_b = pieces_hits(rest, a + c);
        let idx0 = choose|idx: Seq<int>| subsequence_at(prev_a, prev_b, idx);
        let lt = lowercase(p.0);
        assert(keys_of(a + c) =~= keys_of(a) + keys_of(c));
        lemma_word_hits_append(lt, keys_of(a), a, keys_of(c), c, p.1, p.2);
        let here_a = word_hits(lt, keys_of(a), a, p.1, p.2);
        let here_b = word_hits(lt, keys_of(a + c), a + c, p.1, p.2);
        let whole_a = pieces_hits(pieces, a);
        let whole_b = pieces_hits(pieces, a + c);
        assert(whole_a == prev_a + here_a);
        assert(whole_b == prev_b + here_b);
        assert(here_b.len() >= here_a.len());
        assert(forall|j: int| 0 <= j < here_a.len() ==> here_b[j] == here_a[j]);
        let idx = idx0 + Seq::new(here_a.len(), |j: int| prev_b.len() + j);
        assert forall|i: int| 0 <= i < idx.len() implies 0 <= #[trigger] idx[i] < whole_b.len()
            && whole_b[idx[i]] == whole_a[i] by {
            if i < idx0.len() {
                assert(idx[i] == idx0[i]);
            } else {
                assert(idx[i] == prev_b.len() + (i - idx0.len()));
            }
        }
        assert forall|i: int, j: int| 0 <= i < j < idx.len() implies #[trigger] idx[i] < #[trigger] idx[j] by {
            if j < idx0.len() {
                assert(idx[i] == idx0[i] && idx[j] == idx0[j]);
            } else if i < idx0.len() {
                assert(idx[i] == idx0[i]);
                assert(idx[j] == prev_b.len() + (j - idx0.len()));
            }
        }
        assert(subsequence_at(whole_a, whole_b, idx));
    }
}

/// The texts of a run of pieces.
pub open spec fn piece_texts(ps: Seq<(Seq<char>, int, int)>) -> Seq<Seq<char>> {
    ps.map_values(|p: (Seq<char>, int, int)| p.0)
}

/// Lowercases every listed word.
fn lowercase_all(words: &Vec<String>) -> (keys: Vec<String>)
    ensures
        word_views(keys@) == keys_of(word_views(words@)),
        keys@.len() == words@.len(),
        std_lowercase_on(word_views(words@)),
{
    let mut keys: Vec<String> = Vec::new();
    let n: usize = words.len();
    let mut j: usize = 0;
    while j < n
        invariant
            n == words.len(),
            j <= n,
            word_views(keys@) == keys_of(word_views(words@)).take(j as int),
            forall|m: int|
                0 <= m < j ==> lowercase(#[trigger] word_views(words@)[m]) == spec_to_lowercase(
                    word_views(words@)[m],
                ),
        decreases n - j,
    {
        let ghost before = keys@;
        keys.push(to_lowercase(words[j].as_str()));
        assert(word_views(words@)[j as int] == words@[j as int]@);
        assert(word_views(keys@) =~= keys_of(word_views(words@)).take(j + 1)) by {
            assert(word_views(before).len() == j);
        }
        j = j + 1;
    }
    assert(keys_of(word_views(words@)).take(n as int) =~= keys_of(word_views(words@)));
    assert(word_views(keys@).len() == keys@.len());
    keys
}

/// Finds the listed words in each piece, ignoring case on both sides: for each piece in
/// order where the lowercased form of some listed word occurs in the piece's lowercased
/// text, one position naming the first such listed word and spanning the piece's bounds in
/// milliseconds.
pub fn match_pieces(pieces: &Vec<Piece>, words: &Vec<String>) -> (res: Vec<CensoringPosition>)
    requires
        pieces_fit(piece_views(pieces@), word_views(words@)),
    ensures
        position_views(res@) == pieces_hits(piece_views(pieces@), word_views(words@)),
        std_lowercase_on(word_views(words@)),
        std_lowercase_on(piece_texts(piece_views(pieces@))),
{
    let ghost ws = word_views(words@);
    let ghost ps = piece_views(pieces@);
    let keys = lowercase_all(words);
    let mut res: Vec<CensoringPosition> = Vec::new();
    let n: usize = pieces.len();
    let mut i: usize = 0;
    while i < n
        invariant
            n == pieces.len(),
            i <= n,
            ws == word_views(words@),
            ps == piece_views(pieces@),
            word_views(keys@) == keys_of(ws),
            keys@.len() == words@.len(),
            pieces_fit(ps, ws),
            std_lowercase_on(ws),
            position_views(res@) == pieces_hits(ps.take(i as int), ws),
            forall|m: int|
                0 <= m < i ==> lowercase(#[trigger] piece_texts(ps)[m]) == spec_to_lowercase(
                    piece_texts(ps)[m],
                ),
        decreases n - i,
    {
        let piece = &pieces[i];
        assert(ps[i as int] == piece@);
        let lowered = to_lowercase(piece.text.as_str());
        assert(piece_texts(ps)[i as int] == piece.text@);
        assert(stamps_fit(lowercase(ps[i as int].0), keys_of(ws), ps[i as int].1, ps[i as int].2));
        let mut hits = match_words(lowered.as_str(), &keys, words, piece.t0, piece.t1);
        let ghost before = res@;
        let ghost added = hits@;
        res.append(&mut hits);
        assert(ps.take(i + 1).drop_last() =~= ps.take(i as int));
        assert(ps.take(i + 1).last() == ps[i as int]);
        assert(position_views(res@) =~= position_views(before) + position_views(added));
        i = i + 1;
    }
    assert(ps.take(n as int) =~= ps);
    res
}

/// Whether `10 * t` fits in `i64`.
fn tenfold_fits(t: i64) -> (b: bool)
    ensures
        b == fits_i64(t * 10),
{
    -922337203685477580 <= t && t <= 922337203685477580
}

/// Whether some key occurs in `text`.
fn any_key_occurs(text: &str, keys: &Vec<String>) -> (b: bool)
    ensures
        b == any_key_in(text@, word_views(keys@)),
{
    let n: usize = keys.len();
    let mut j: usize = 0;
    while j < n
        invariant
            n == keys.len(),
            j <= n,
            forall|m: int| 0 <= m < j ==> !seq_contains(text@, #[trigger] word_views(keys@)[m]),
        decreases n - j,
    {
        if str_contains(text, keys[j].as_str()) {
            assert(seq_contains(text@, word_views(keys@)[j as int]));
            return true;
        }
        j = j + 1;
    }
    false
}

/// Matching on any run of pieces: `None` exactly where a piece in which a listed word is
/// found has bounds whose millisecond values do not fit in `i64`, else the positions of
/// `match_pieces`.
pub fn try_match_pieces(pieces: &Vec<Piece>, words: &Vec<String>) -> (res: Option<
    Vec<CensoringPosition>,
>)
    ensures
        res is Some <==> pieces_fit(piece_views(pieces@), word_views(words@)),
        res matches Some(v) ==> position_views(v@) == pieces_hits(
            piece_views(pieces@),
            word_views(words@),
        ),
        res is Some ==> std_lowercase_on(word_views(words@)),
        res is Some ==> std_lowercase_on(piece_texts(piece_views(pieces@))),
{
    let ghost ps = piece_views(pieces@);
    let keys = lowercase_all(words);
    let n: usize = pieces.len();
    let mut i: usize = 0;
    while i < n
        invariant
            n == pieces.len(),
            i <= n,
            ps == piece_views(pieces@),
            word_views(keys@) == keys_of(word_views(words@)),
            forall|m: int|
                0 <= m < i ==> stamps_fit(
                    lowercase(#[trigger] ps[m].0),
                    keys_of(word_views(words@)),
                    ps[m].1,
                    ps[m].2,
                ),
        decreases n - i,
    {
        let piece = &pieces[i];
        assert(ps[i as int] == piece@);
        let lowered = to_lowercase(piece.text.as_str());
        if any_key_occurs(lowered.as_str(), &keys) && !(tenfold_fits(piece.t0) && tenfold_fits(piece.t1)) {
            assert(!stamps_fit(
                lowercase(ps[i as int].0),
                keys_of(word_views(words@)),
                ps[i as int].1,
                ps[i as int].2,
            ));
            return None;
        }
        i = i + 1;
    }
    Some(match_pieces(pieces, words))
}

/// Segment-level matching: one position for each whole segment in whose text a listed word
/// is found (naming the first such listed word), over the bounds of the segment.
pub fn find_bleeps_by_segment(segments: &Vec<Segment>, words: &Vec<String>) -> (res: Vec<
    CensoringPosition,
>)
    requires
        pieces_fit(segment_pieces_spec(segments@), word_views(words@)),
    ensures
        position_views(res@) == pieces_hits(segment_pieces_spec(segments@), word_views(words@)),
        std_lowercase_on(word_views(words@)),
        std_lowercase_on(piece_texts(segment_pieces_spec(segments@))),
{
    let pieces = segment_pieces(segments);
    match_pieces(&pieces, words)
}

/// Word-level matching: the tokens of each segment are recombined into words, and each word
/// in which a listed word is found gives one position (naming the first such listed word)
/// over the bounds of that word.
pub fn find_bleeps_by_token(segments: &Vec<Segment>, words: &Vec<String>) -> (res: Vec<
    CensoringPosition,
>)
    requires
        pieces_fit(transcript_words_spec(segments@), word_views(words@)),
    ensures
        position_views(res@) == pieces_hits(transcript_words_spec(segments@), word_views(words@)),
        std_lowercase_on(word_views(words@)),
        std_lowercase_on(piece_texts(transcript_words_spec(segments@))),
{
    let pieces = transcript_words(segments);
    match_pieces(&pieces, words)
}

/// Segment-level matching on any transcript: `None` exactly where a matched segment has
/// bounds whose millisecond values do not fit in `i64`.
pub fn try_find_bleeps_by_segment(segments: &Vec<Segment>, words: &Vec<String>) -> (res: Option<
    Vec<CensoringPosition>,
>)
    ensures
        res is Some <==> pieces_fit(segment_pieces_spec(segments@), word_views(words@)),
        res matches Some(v) ==> position_views(v@) == pieces_hits(
            segment_pieces_spec(segments@),
            word_views(words@),
        ),
        res is Some ==> std_lowercase_on(word_views(words@)),
        res is Some ==> std_lowercase_on(piece_texts(segment_pieces_spec(segments@))),
{
    let pieces = segment_pieces(segments);
    try_match_pieces(&pieces, words)
}

/// Word-level matching on any transcript: `None` exactly where a matched word has bounds
/// whose millisecond values do not fit in `i64`.
pub fn try_find_bleeps_by_token(segments: &Vec<Segment>, words: &Vec<String>) -> (res: Option<
    Vec<CensoringPosition>,
>)
    ensures
        res is Some <==> pieces_fit(transcript_words_spec(segments@), word_views(words@)),
        res matches Some(v) ==> position_views(v@) == pieces_hits(
            transcript_words_spec(segments@),
            word_views(words@),
        ),
        res is Some ==> std_lowercase_on(word_views(words@)),
        res is Some ==> std_lowercase_on(piece_texts(transcript_words_spec(segments@))),
{
    let pieces = transcript_words(segments);
    try_match_pieces(&pieces, words)
}

/// The words that are censored, in the order in which they are looked for.
pub open spec fn swear_words_spec() -> Seq<Seq<char>> {
    seq![
        "fuck"@,
        "shit"@,
        "damn"@,
        "bitch"@,
        "dick"@,
        "cunt"@,
        "bastard"@,
        "asshole"@,
    ]
}

/// The words that are censored.
pub fn swear_words() -> (words: Vec<String>)
    ensures
        word_views(words@) == swear_words_spec(),
{
    let mut words: Vec<String> = Vec::new();
    words.push(String::from_str("fuck"));
    words.push(String::from_str("shit"));
    words.push(String::from_str("damn"));
    words.push(String::from_str("bitch"));
    words.push(String::from_str("dick"));
    words.push(String::from_str("cunt"));
    words.push(String::from_str("bastard"));
    words.push(String::from_str("asshole"));
    assert(word_views(words@) =~= swear_words_spec());
    words
}

/// The positions to censor in a transcript: one for each word in which a swear word is
/// found, over the bounds of that word. `None` exactly where a matched word has bounds
/// whose millisecond values do not fit in `i64`.
pub fn transcript_bleeps(segments: &Vec<Segment>) -> (res: Option<Vec<CensoringPosition>>)
    ensures
        res is Some <==> pieces_fit(transcript_words_spec(segments@), swear_words_spec()),
        res matches Some(v) ==> position_views(v@) == pieces_hits(
            transcript_words_spec(segments@),
            swear_words_spec(),
        ),
        res matches Some(v) ==> forall|k: int|
            0 <= k < v@.len() ==> swear_words_spec().contains((#[trigger] v@[k]).word@),
        res is Some ==> std_lowercase_on(swear_words_spec()),
        res is Some ==> std_lowercase_on(piece_texts(transcript_words_spec(segments@))),
{
    let words = swear_words();
    let res = try_find_bleeps_by_token(segments, &words);
    proof {
        lemma_pieces_hits_laws(transcript_words_spec(segments@), swear_words_spec(), seq![]);
        if let Some(v) = &res {
            assert forall|k: int| 0 <= k < v@.len() implies swear_words_spec().contains((#[trigger] v@[k]).word@) by {
                assert(position_views(v@)[k] == v@[k]@);
            }
        }
    }
    res
}

} // verus!
