use no_swear::bleeps::{
    find_bleeps_by_segment, find_bleeps_by_token, match_pieces, match_words, swear_words,
    transcript_bleeps, try_find_bleeps_by_segment, try_find_bleeps_by_token, try_match_pieces,
    CensoringPosition,
};
use no_swear::text::{chars_contain, chars_of, str_contains};
use no_swear::transcript::{segment_pieces, transcript_words, words_of_tokens, Piece, Segment, Token};

fn words(ws: &[&str]) -> Vec<String> {
    ws.iter().map(|w| w.to_string()).collect()
}

fn pos(word: &str, start_ms: i64, end_ms: i64) -> CensoringPosition {
    CensoringPosition { word: word.to_string(), start_ms, end_ms }
}

fn token(text: &str, t0: i64, t1: i64) -> Token {
    Token { text: text.to_string(), t0, t1, special: false }
}

fn special(text: &str, t: i64) -> Token {
    Token { text: text.to_string(), t0: t, t1: t, special: true }
}

fn piece(text: &str, t0: i64, t1: i64) -> Piece {
    Piece { text: text.to_string(), t0, t1 }
}

fn segment(text: &str, t0: i64, t1: i64, tokens: Vec<Token>) -> Segment {
    Segment { text: text.to_string(), t0, t1, tokens }
}

#[test]
fn partial_match_examples() {
    assert!(str_contains("woman", "man"));
    assert!(str_contains("we'll", "we"));
    assert!(str_contains("right", "right"));
    assert!(!str_contains("man", "woman"));
    assert!(!str_contains("cat", "dog"));
}

#[test]
fn contains_edge_cases() {
    assert!(str_contains("", ""));
    assert!(str_contains("abc", ""));
    assert!(!str_contains("", "a"));
    assert!(str_contains("héllo wörld", "llo w"));
    assert!(str_contains("abab", "bab"));
    assert!(!str_contains("abab", "bb"));
    assert!(str_contains("xyz", "z"));
    assert!(str_contains("xyz", "x"));
}

#[test]
fn chars_roundtrip() {
    assert_eq!(chars_of("añb"), vec!['a', 'ñ', 'b']);
    assert!(chars_contain(&vec!['a', 'b', 'c'], &vec!['b', 'c']));
    assert!(!chars_contain(&vec!['a', 'b'], &vec!['a', 'b', 'c']));
}

#[test]
fn first_listed_word_names_the_piece() {
    let ws = words(&["fuck", "shit", "damn"]);
    let got = match_words("oh shit, what the fuck", &ws, &ws, 150, 320);
    assert_eq!(got, vec![pos("fuck", 1500, 3200)]);
    let got = match_words("oh shit", &ws, &ws, 150, 320);
    assert_eq!(got, vec![pos("shit", 1500, 3200)]);
}

#[test]
fn keys_are_looked_for_and_listed_words_reported() {
    let keys = words(&["damn"]);
    let listed = words(&["Damn"]);
    assert_eq!(match_words("damn it", &keys, &listed, 1, 2), vec![pos("Damn", 10, 20)]);
}

#[test]
fn nothing_matched_gives_nothing() {
    let ws = words(&["fuck"]);
    assert!(match_words("hello there", &ws, &ws, 0, 10).is_empty());
    assert!(match_words("anything", &Vec::new(), &Vec::new(), 0, 10).is_empty());
}

#[test]
fn matching_ignores_case_on_both_sides() {
    let ws = words(&["Damn", "BITCH"]);
    let pieces = vec![piece(" damn", 10, 20), piece(" Bitch!", 30, 40), piece(" DAMN", 50, 60)];
    assert_eq!(
        match_pieces(&pieces, &ws),
        vec![pos("Damn", 100, 200), pos("BITCH", 300, 400), pos("Damn", 500, 600)]
    );
}

#[test]
fn segment_matching_is_case_insensitive() {
    let ws = words(&["bitch", "damn"]);
    let segs = vec![
        segment(" You BITCH!", 1572, 1732, vec![]),
        segment(" nice weather", 1800, 1900, vec![]),
        segment(" Damn it", 2000, 2100, vec![]),
    ];
    let got = find_bleeps_by_segment(&segs, &ws);
    assert_eq!(got, vec![pos("bitch", 15720, 17320), pos("damn", 20000, 21000)]);
}

#[test]
fn a_segment_gives_one_position() {
    let ws = words(&["fuck", "shit"]);
    let segs = vec![segment(" Fuck this shit.", 6464, 6724, vec![])];
    let got = find_bleeps_by_segment(&segs, &ws);
    assert_eq!(got, vec![pos("fuck", 64640, 67240)]);
}

#[test]
fn tokens_recombine_into_words() {
    let toks = vec![
        special("[_BEG_]", 0),
        token(" You", 0, 20),
        token(" bast", 20, 50),
        token("ard", 50, 80),
        token(",", 80, 85),
        token(" as", 90, 100),
        token("sh", 100, 110),
        token("ole", 110, 130),
        special("[_TT_130]", 130),
        token("again", 140, 150),
    ];
    assert_eq!(
        words_of_tokens(&toks),
        vec![
            piece(" You", 0, 20),
            piece(" bastard,", 20, 85),
            piece(" asshole", 90, 130),
            piece("again", 140, 150),
        ]
    );
    assert!(words_of_tokens(&vec![]).is_empty());
}

#[test]
fn word_matching_uses_word_bounds() {
    let ws = words(&["fuck", "shit"]);
    let segs = vec![
        segment(
            " Fuck this shit.",
            6464,
            6724,
            vec![token(" Fuck", 6464, 6572), token(" this", 6572, 6600), token(" SH", 6600, 6650), token("IT.", 6650, 6724)],
        ),
        segment(" fine", 7000, 7100, vec![token(" fine", 7000, 7100)]),
    ];
    let got = find_bleeps_by_token(&segs, &ws);
    assert_eq!(got, vec![pos("fuck", 64640, 65720), pos("shit", 66000, 67240)]);
}

#[test]
fn split_word_is_found() {
    let segs = vec![segment(
        " You bastard",
        100,
        300,
        vec![token(" You", 100, 120), token(" bast", 120, 160), token("ard", 160, 200)],
    )];
    assert_eq!(transcript_bleeps(&segs), Some(vec![pos("bastard", 1200, 2000)]));
}

#[test]
fn words_do_not_span_segments() {
    let segs = vec![
        segment(" bast", 0, 10, vec![token(" bast", 0, 10)]),
        segment("ard", 10, 20, vec![token("ard", 10, 20)]),
    ];
    assert_eq!(
        transcript_words(&segs),
        vec![piece(" bast", 0, 10), piece("ard", 10, 20)]
    );
    assert_eq!(transcript_bleeps(&segs), Some(vec![]));
}

#[test]
fn segment_pieces_keep_segment_bounds() {
    let segs = vec![segment(" a b", 1, 2, vec![token(" a", 1, 1)]), segment(" c", 3, 4, vec![])];
    assert_eq!(segment_pieces(&segs), vec![piece(" a b", 1, 2), piece(" c", 3, 4)]);
}

#[test]
fn overflowing_bounds_are_refused_only_when_matched() {
    let ws = words(&["damn"]);
    let big = i64::MAX / 5;
    let unmatched = vec![segment("hello", big, big, vec![token("hello", big, big)])];
    assert_eq!(try_find_bleeps_by_segment(&unmatched, &ws), Some(vec![]));
    assert_eq!(try_find_bleeps_by_token(&unmatched, &ws), Some(vec![]));
    let matched = vec![segment("damn", big, big, vec![token("damn", big, big)])];
    assert_eq!(try_find_bleeps_by_segment(&matched, &ws), None);
    assert_eq!(try_find_bleeps_by_token(&matched, &ws), None);
    let edge = 922337203685477580i64;
    let fits = vec![piece("damn", -edge, edge)];
    assert_eq!(try_match_pieces(&fits, &ws), Some(vec![pos("damn", -edge * 10, edge * 10)]));
    let over = vec![piece("damn", 0, edge + 1)];
    assert_eq!(try_match_pieces(&over, &ws), None);
}

#[test]
fn default_word_list() {
    assert_eq!(
        swear_words(),
        words(&["fuck", "shit", "damn", "bitch", "dick", "cunt", "bastard", "asshole"])
    );
}

#[test]
fn transcript_matches_word_by_word() {
    let segs = vec![segment(
        " You bastard, asshole",
        100,
        300,
        vec![token(" You", 100, 120), token(" bastard,", 120, 200), token(" asshole", 200, 300)],
    )];
    assert_eq!(
        transcript_bleeps(&segs),
        Some(vec![pos("bastard", 1200, 2000), pos("asshole", 2000, 3000)])
    );
}

#[test]
fn partial_words_inside_others_match() {
    // "dickens" holds "dick", as partial matching means.
    let segs = vec![segment(" Charles Dickens", 10, 30, vec![token(" Charles", 10, 20), token(" Dickens", 20, 30)])];
    assert_eq!(transcript_bleeps(&segs), Some(vec![pos("dick", 200, 300)]));
}

#[test]
fn more_words_find_more() {
    let a = words(&["fuck"]);
    let ab = words(&["fuck", "shit"]);
    let pieces = vec![piece("fuck shit", 0, 1), piece("shit", 2, 3), piece("fine", 4, 5)];
    let ra = match_pieces(&pieces, &a);
    let rab = match_pieces(&pieces, &ab);
    assert_eq!(ra, vec![pos("fuck", 0, 10)]);
    assert_eq!(rab, vec![pos("fuck", 0, 10), pos("shit", 20, 30)]);
    assert!(rab.len() <= pieces.len());
}
