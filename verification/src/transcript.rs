use vstd::prelude::*;

use crate::text::chars_of;

verus! {

/// A token of the transcript with its bounds, in the recogniser's unit of ten milliseconds.
/// A special token (a timestamp or control token of the recogniser) carries no speech.
#[derive(Debug)]
pub struct Token {
    pub text: String,
    pub t0: i64,
    pub t1: i64,
    pub special: bool,
}

/// A segment of the transcript: its whole text, its bounds (in units of ten
/// milliseconds) and its tokens.
#[derive(Debug)]
pub struct Segment {
    pub text: String,
    pub t0: i64,
    pub t1: i64,
    pub tokens: Vec<Token>,
}

/// A piece of the transcript that is matched against the listed words (a word, or a whole
/// segment): its text and its bounds in units of ten milliseconds.
#[derive(Debug, PartialEq, Eq)]
pub struct Piece {
    pub text: String,
    pub t0: i64,
    pub t1: i64,
}

impl View for Piece {
    type V = (Seq<char>, int, int);

    open spec fn view(&self) -> (Seq<char>, int, int) {
        (self.text@, self.t0 as int, self.t1 as int)
    }
}

pub open spec fn piece_views(ps: Seq<Piece>) -> Seq<(Seq<char>, int, int)> {
    ps.map_values(|p: Piece| p@)
}

pub open spec fn opt_piece_view(o: Option<Piece>) -> Option<(Seq<char>, int, int)> {
    match o {
        Some(p) => Some(p@),
        None => None,
    }
}

/// The whole segments of a transcript as pieces.
pub open spec fn segment_pieces_spec(segs: Seq<Segment>) -> Seq<(Seq<char>, int, int)> {
    segs.map_values(|s: Segment| (s.text@, s.t0 as int, s.t1 as int))
}

/// A token opens a new word when its text starts with a space.
pub open spec fn opens_word(text: Seq<char>) -> bool {
    text.len() > 0 && text[0] == ' '
}

/// Tokens recombined into words, read left to right: the words completed so far and the
/// word still open. A special token closes the open word and is dropped; a token that
/// opens a word (or comes when no word is open) closes the open word and starts a new one
/// with its text and bounds; any other token is appended to the open word, whose end
/// becomes the token's end.
pub open spec fn group_words(toks: Seq<Token>) -> (
    Seq<(Seq<char>, int, int)>,
    Option<(Seq<char>, int, int)>,
)
    decreases toks.len(),
{
    if toks.len() == 0 {
        (seq![], None)
    } else {
        let (done, open) = group_words(toks.drop_last());
        let t = toks.last();
        let closed = match open {
            Some(w) => done.push(w),
            None => done,
        };
        if t.special {
            (closed, None)
        } else {
            match open {
                Some(w) => if opens_word(t.text@) {
                    (closed, Some((t.text@, t.t0 as int, t.t1 as int)))
                } else {
                    (done, Some((w.0 + t.text@, w.1, t.t1 as int)))
                },
                None => (done, Some((t.text@, t.t0 as int, t.t1 as int))),
            }
        }
    }
}

/// The words of a run of tokens, in order.
pub open spec fn words_of(toks: Seq<Token>) -> Seq<(Seq<char>, int, int)> {
    let (done, open) = group_words(toks);
    match open {
        Some(w) => done.push(w),
        None => done,
    }
}

/// The words of a transcript: those of each segment's tokens, segment after segment (a word
/// never spans two segments).
pub open spec fn transcript_words_spec(segs: Seq<Segment>) -> Seq<(Seq<char>, int, int)>
    decreases segs.len(),
{
    if segs.len() == 0 {
        seq![]
    } else {
        transcript_words_spec(segs.drop_last()) + words_of(segs.last().tokens@)
    }
}

/// The texts of a run of tokens, one after the other.
pub open spec fn token_texts(toks: Seq<Token>) -> Seq<char>
    decreases toks.len(),
{
    if toks.len() == 0 {
        seq![]
    } else {
        token_texts(toks.drop_last()) + toks.last().text@
    }
}

/// Word `w` is made of the tokens `lo..hi` (end excluded) of `toks`: a non-empty run of
/// tokens none of which is special, whose texts together are the word's text, starting at
/// the start of the first of them and ending at the end of the last.
pub open spec fn word_from(toks: Seq<Token>, lo: int, hi: int, w: (Seq<char>, int, int)) -> bool {
    &&& 0 <= lo < hi <= toks.len()
    &&& forall|j: int| lo <= j < hi ==> !(#[trigger] toks[j]).special
    &&& w == (token_texts(toks.subrange(lo, hi)), toks[lo].t0 as int, toks[hi - 1].t1 as int)
}

/// Word `w` is made of some run of the tokens `toks`, as `word_from` says.
pub open spec fn made_of_tokens(toks: Seq<Token>, w: (Seq<char>, int, int)) -> bool {
    exists|lo: int, hi: int| #[trigger] word_from(toks, lo, hi, w)
}

proof fn lemma_word_from_extend(toks: Seq<Token>, lo: int, hi: int, w: (Seq<char>, int, int))
    requires
        toks.len() > 0,
        word_from(toks.drop_last(), lo, hi, w),
    ensures
        word_from(toks, lo, hi, w),
{
    let rest = toks.drop_last();
    assert(toks.subrange(lo, hi) =~= rest.subrange(lo, hi));
    assert forall|j: int| lo <= j < hi implies !(#[trigger] toks[j]).special by {
        assert(toks[j] == rest[j]);
    }
    assert(toks[lo] == rest[lo]);
    assert(toks[hi - 1] == rest[hi - 1]);
}

proof fn lemma_group_words_ranges(toks: Seq<Token>)
    ensures
        forall|k: int|
            #![trigger group_words(toks).0[k]]
            0 <= k < group_words(toks).0.len() ==> made_of_tokens(toks, group_words(toks).0[k]),
        group_words(toks).1 is Some ==> exists|lo: int|
            #[trigger] word_from(toks, lo, toks.len() as int, group_words(toks).1->0),
    decreases toks.len(),
{
    if toks.len() > 0 {
        let rest = toks.drop_last();
        let n = rest.len() as int;
        let t = toks.last();
        lemma_group_words_ranges(rest);
        let prev = group_words(rest);
        let done = prev.0;
        let open = prev.1;
        let g = group_words(toks);
        assert(toks[n] == t);
        assert forall|k: int| #![trigger done[k]] 0 <= k < done.len() implies made_of_tokens(toks, done[k]) by {
            let (lo, hi) = choose|lo: int, hi: int| #[trigger] word_from(rest, lo, hi, done[k]);
            lemma_word_from_extend(toks, lo, hi, done[k]);
        }
        let tw = (t.text@, t.t0 as int, t.t1 as int);
        if !t.special {
            let one = toks.subrange(n, n + 1);
            assert(one.drop_last() =~= Seq::<Token>::empty());
            assert(one.last() == t);
            assert(token_texts(one.drop_last()) == Seq::<char>::empty());
            assert(token_texts(one) == Seq::<char>::empty() + t.text@);
            assert(token_texts(one) =~= t.text@);
            assert(word_from(toks, n, n + 1, tw));
        }
        let mut olo: int = 0;
        if open is Some {
            let w = open->0;
            olo = choose|lo: int| #[trigger] word_from(rest, lo, n, w);
            lemma_word_from_extend(toks, olo, n, w);
        }
        let closed = match open {
            Some(w) => done.push(w),
            None => done,
        };
        assert forall|k: int| #![trigger closed[k]] 0 <= k < closed.len() implies made_of_tokens(toks, closed[k]) by {
            if k < done.len() {
                assert(closed[k] == done[k]);
                let (lo, hi) = choose|lo: int, hi: int| #[trigger] word_from(toks, lo, hi, done[k]);
                assert(word_from(toks, lo, hi, closed[k]));
            } else {
                assert(closed[k] == open->0);
                assert(word_from(toks, olo, n, closed[k]));
            }
        }
        if t.special {
            assert(g == (closed, Option::<(Seq<char>, int, int)>::None));
        } else if open is Some {
            let w = open->0;
            if opens_word(t.text@) {
                assert(g == (closed, Some(tw)));
                assert(word_from(toks, n, n + 1, g.1->0));
            } else {
                let w2 = (w.0 + t.text@, w.1, t.t1 as int);
                assert(g == (done, Some(w2)));
                assert(toks.subrange(olo, n + 1).drop_last() =~= toks.subrange(olo, n));
                assert(toks.subrange(olo, n + 1).last() == t);
                assert(word_from(toks, olo, n + 1, w2));
                assert(word_from(toks, olo, n + 1, g.1->0));
            }
        } else {
            assert(g == (done, Some(tw)));
            assert(word_from(toks, n, n + 1, g.1->0));
        }
        assert(g.0 == closed || g.0 == done);
        assert forall|k: int| #![trigger group_words(toks).0[k]] 0 <= k < group_words(toks).0.len() implies made_of_tokens(toks, group_words(toks).0[k]) by {
            if g.0 == closed {
                let (lo, hi) = choose|lo: int, hi: int| #[trigger] word_from(toks, lo, hi, closed[k]);
                assert(word_from(toks, lo, hi, g.0[k]));
            } else {
                let (lo, hi) = choose|lo: int, hi: int| #[trigger] word_from(toks, lo, hi, done[k]);
                assert(word_from(toks, lo, hi, g.0[k]));
            }
        }
    } else {
        assert(group_words(toks).0 =~= Seq::<(Seq<char>, int, int)>::empty());
    }
}

/// Every word recombined from a run of tokens is made of a non-empty run of them, none
/// special: its text is their texts one after the other, it starts where the first of them
/// starts and ends where the last of them ends. A special token gives no word any text and
/// neither of its bounds.
pub proof fn lemma_words_come_from_tokens(toks: Seq<Token>)
    ensures
        forall|k: int|
            #![trigger words_of(toks)[k]]
            0 <= k < words_of(toks).len() ==> made_of_tokens(toks, words_of(toks)[k]),
{
    lemma_group_words_ranges(toks);
    let (done, open) = group_words(toks);
    let ws = words_of(toks);
    assert forall|k: int| #![trigger words_of(toks)[k]] 0 <= k < words_of(toks).len() implies made_of_tokens(toks, words_of(toks)[k]) by {
        if k < done.len() {
            assert(ws[k] == done[k]);
            let (lo, hi) = choose|lo: int, hi: int| #[trigger] word_from(toks, lo, hi, done[k]);
            assert(word_from(toks, lo, hi, ws[k]));
        } else {
            assert(ws[k] == open->0);
            let lo = choose|lo: int| #[trigger] word_from(toks, lo, toks.len() as int, open->0);
            assert(word_from(toks, lo, toks.len() as int, ws[k]));
        }
    }
}

/// The texts of the tokens that are not special, one after the other.
pub open spec fn speech_texts(toks: Seq<Token>) -> Seq<char>
    decreases toks.len(),
{
    if toks.len() == 0 {
        seq![]
    } else if toks.last().special {
        speech_texts(toks.drop_last())
    } else {
        speech_texts(toks.drop_last()) + toks.last().text@
    }
}

/// The texts of words, one after the other.
pub open spec fn joined_texts(ws: Seq<(Seq<char>, int, int)>) -> Seq<char>
    decreases ws.len(),
{
    if ws.len() == 0 {
        seq![]
    } else {
        joined_texts(ws.drop_last()) + ws.last().0
    }
}

proof fn lemma_group_words_texts(toks: Seq<Token>)
    ensures
        joined_texts(group_words(toks).0) + match group_words(toks).1 {
            Some(w) => w.0,
            None => Seq::<char>::empty(),
        } == speech_texts(toks),
    decreases toks.len(),
{
    if toks.len() == 0 {
        assert(joined_texts(group_words(toks).0) + Seq::<char>::empty() =~= Seq::<char>::empty());
    } else {
        let rest = toks.drop_last();
        let t = toks.last();
        lemma_group_words_texts(rest);
        let done = group_words(rest).0;
        let open = group_words(rest).1;
        let g = group_words(toks);
        match open {
            Some(w) => {
                assert(done.push(w).drop_last() =~= done);
                assert(joined_texts(done.push(w)) == joined_texts(done) + w.0);
                if t.special {
                    assert(joined_texts(g.0) + Seq::<char>::empty() =~= joined_texts(done) + w.0);
                } else if opens_word(t.text@) {
                    assert(joined_texts(g.0) + t.text@ =~= (joined_texts(done) + w.0) + t.text@);
                } else {
                    assert(joined_texts(g.0) + (w.0 + t.text@) =~= (joined_texts(done) + w.0) + t.text@);
                }
            },
            None => {
                if t.special {
                    assert(joined_texts(g.0) + Seq::<char>::empty() =~= joined_texts(done) + Seq::<char>::empty());
                } else {
                    assert(joined_texts(g.0) + t.text@ =~= (joined_texts(done) + Seq::<char>::empty()) + t.text@);
                }
            },
        }
    }
}

/// No speech is lost or added in recombining tokens into words: the texts of the words, one
/// after the other, are the texts of the tokens that are not special, one after the other.
pub proof fn lemma_words_keep_all_speech(toks: Seq<Token>)
    ensures
        joined_texts(words_of(toks)) == speech_texts(toks),
{
    lemma_group_words_texts(toks);
    let done = group_words(toks).0;
    match group_words(toks).1 {
        Some(w) => {
            assert(done.push(w).drop_last() =~= done);
            assert(joined_texts(done.push(w)) == joined_texts(done) + w.0);
        },
        None => {
            assert(joined_texts(done) + Seq::<char>::empty() =~= joined_texts(done));
        },
    }
}

/// Whether a token's text opens a word.
fn opens_word_exec(text: &str) -> (b: bool)
    ensures
        b == opens_word(text@),
{
    let cs = chars_of(text);
    cs.len() > 0 && cs[0] == ' '
}

/// The words spoken in a run of tokens, each with the bounds of its first and last token.
pub fn words_of_tokens(tokens: &Vec<Token>) -> (words: Vec<Piece>)
    ensures
        piece_views(words@) == words_of(tokens@),
{
    let mut done: Vec<Piece> = Vec::new();
    let mut open: Option<Piece> = None;
    let n: usize = tokens.len();
    let mut k: usize = 0;
    while k < n
        invariant
            n == tokens.len(),
            k <= n,
            (piece_views(done@), opt_piece_view(open)) == group_words(tokens@.take(k as int)),
        decreases n - k,
    {
        let tok = &tokens[k];
        assert(tokens@.take(k + 1).drop_last() =~= tokens@.take(k as int));
        assert(tokens@.take(k + 1).last() == tokens@[k as int]);
        let ghost before = done@;
        let current = open;
        open = None;
        if tok.special {
            if let Some(w) = current {
                done.push(w);
                assert(piece_views(done@) =~= piece_views(before).push(w@));
            }
        } else {
            match current {
                Some(w) => {
                    if opens_word_exec(tok.text.as_str()) {
                        done.push(w);
                        assert(piece_views(done@) =~= piece_views(before).push(w@));
                        open = Some(Piece { text: tok.text.clone(), t0: tok.t0, t1: tok.t1 });
                    } else {
                        let mut w = w;
                        w.text.append(tok.text.as_str());
                        w.t1 = tok.t1;
                        open = Some(w);
                    }
                },
                None => {
                    open = Some(Piece { text: tok.text.clone(), t0: tok.t0, t1: tok.t1 });
                },
            }
        }
        k = k + 1;
    }
    assert(tokens@.take(n as int) =~= tokens@);
    let ghost before = done@;
    if let Some(w) = open {
        done.push(w);
        assert(piece_views(done@) =~= piece_views(before).push(w@));
    }
    done
}

/// The whole segments of a transcript as pieces.
pub fn segment_pieces(segments: &Vec<Segment>) -> (pieces: Vec<Piece>)
    ensures
        piece_views(pieces@) == segment_pieces_spec(segments@),
{
    let mut pieces: Vec<Piece> = Vec::new();
    let n: usize = segments.len();
    let mut i: usize = 0;
    while i < n
        invariant
            n == segments.len(),
            i <= n,
            piece_views(pieces@) == segment_pieces_spec(segments@.take(i as int)),
        decreases n - i,
    {
        let s = &segments[i];
        let ghost before = pieces@;
        assert(piece_views(before).len() == i);
        let text = s.text.clone();
        assert(text@ == s.text@);
        pieces.push(Piece { text, t0: s.t0, t1: s.t1 });
        assert forall|j: int| 0 <= j <= i implies piece_views(pieces@)[j] == segment_pieces_spec(
            segments@.take(i + 1),
        )[j] by {
            if j < i {
                assert(pieces@[j] == before[j]);
                assert(piece_views(before)[j] == segment_pieces_spec(segments@.take(i as int))[j]);
            }
        }
        assert(piece_views(pieces@) =~= segment_pieces_spec(segments@.take(i + 1)));
        i = i + 1;
    }
    assert(segments@.take(n as int) =~= segments@);
    pieces
}

/// The words of a transcript, segment after segment.
pub fn transcript_words(segments: &Vec<Segment>) -> (words: Vec<Piece>)
    ensures
        piece_views(words@) == transcript_words_spec(segments@),
{
    let mut words: Vec<Piece> = Vec::new();
    let n: usize = segments.len();
    let mut i: usize = 0;
    while i < n
        invariant
            n == segments.len(),
            i <= n,
            piece_views(words@) == transcript_words_spec(segments@.take(i as int)),
        decreases n - i,
    {
        let mut more = words_of_tokens(&segments[i].tokens);
        let ghost before = words@;
        let ghost added = more@;
        words.append(&mut more);
        assert(segments@.take(i + 1).drop_last() =~= segments@.take(i as int));
        assert(piece_views(words@) =~= piece_views(before) + piece_views(added));
        i = i + 1;
    }
    assert(segments@.take(n as int) =~= segments@);
    words
}

} // verus!
