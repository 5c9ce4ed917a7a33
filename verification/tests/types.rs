use wordle_solver::{score_guess, Feedback, SolverError, Word, FEEDBACK_STATES, WORD_LEN};

fn word(text: &str) -> Word {
    Word::parse(text).expect("test word should parse")
}

#[test]
fn duplicate_letters_are_scored_correctly() {
    let guess = Word::parse("allee").expect("test word should parse");
    let answer = Word::parse("apple").expect("test word should parse");
    assert_eq!(score_guess(guess, answer).as_string(), "gybbg");
}

#[test]
fn feedback_roundtrip_accepts_letters() {
    let feedback = Feedback::parse("bgybg").expect("test feedback should parse");
    assert_eq!(feedback.as_string(), "bgybg");
}

#[test]
fn word_packs_five_bits_per_letter_first_letter_lowest() {
    let w = word("abcde");
    assert_eq!(w.packed(), 0 | (1 << 5) | (2 << 10) | (3 << 15) | (4 << 20));
    assert_eq!(Word::from_packed(w.packed()), w);
    assert_eq!(w.letters(), *b"abcde");
    assert_eq!(w.as_string(), "abcde");
}

#[test]
fn word_text_roundtrips() {
    for text in ["cigar", "trace", "zzzzz", "aaaaa", "humph"] {
        assert_eq!(word(text).as_string(), text);
    }
}

#[test]
fn words_outside_five_lowercase_letters_are_rejected() {
    for text in ["", "abcd", "abcdef", "Apple", "appl3", "app e", "éclat"] {
        assert!(matches!(Word::parse(text), Err(SolverError::InvalidWord)), "{text}");
    }
}

#[test]
fn word_from_str_agrees_with_parse() {
    let parsed: Word = "crane".parse().expect("word should parse");
    assert_eq!(parsed, word("crane"));
    assert!("CRANE".parse::<Word>().is_err());
}

#[test]
fn feedback_accepts_letters_of_either_case_and_digits() {
    assert_eq!(Feedback::parse("BYG01").unwrap().as_string(), "bygby");
    assert_eq!(Feedback::parse("22222").unwrap(), Feedback::solved());
    assert_eq!(Feedback::parse("bbbbb").unwrap().code(), 0);
    assert_eq!(Feedback::parse("ybbbb").unwrap().code(), 1);
    assert_eq!(Feedback::parse("bybbb").unwrap().code(), 3);
    assert_eq!(Feedback::parse("ggggg").unwrap().code(), 242);
}

#[test]
fn malformed_feedback_is_rejected() {
    for text in ["", "bbbb", "bbbbbb", "bbxbb", "3bbbb", "bb bb"] {
        assert!(matches!(Feedback::parse(text), Err(SolverError::InvalidFeedback)), "{text}");
    }
}

#[test]
fn feedback_cells_are_base_three_digits_first_tile_lowest() {
    let feedback = Feedback::from_code(1 + 2 * 3 + 0 * 9 + 1 * 27 + 2 * 81);
    assert_eq!(feedback.cells(), [1, 2, 0, 1, 2]);
    assert_eq!(feedback.as_string(), "ygbyg");
    assert_eq!(Feedback::parse("ygbyg").unwrap(), feedback);
    assert_eq!(
        [Feedback::MISS, Feedback::PRESENT, Feedback::EXACT],
        [0, 1, 2]
    );
}

#[test]
fn every_feedback_code_roundtrips_through_text() {
    for code in 0..FEEDBACK_STATES as u8 {
        let feedback = Feedback::from_code(code);
        let text = feedback.as_string();
        assert_eq!(text.len(), WORD_LEN);
        assert_eq!(Feedback::parse(&text).unwrap(), feedback);
    }
}

#[test]
fn only_all_exact_feedback_is_solved() {
    assert!(Feedback::solved().is_solved());
    assert_eq!(Feedback::solved().code(), 242);
    assert!(!Feedback::from_code(241).is_solved());
    assert!(!Feedback::from_code(0).is_solved());
}

#[test]
fn scoring_matches_known_games() {
    assert_eq!(score_guess(word("trace"), word("cigar")).as_string(), "byyyb");
    assert_eq!(score_guess(word("cigar"), word("cigar")).as_string(), "ggggg");
    assert_eq!(score_guess(word("speed"), word("abide")).as_string(), "bbyby");
    assert_eq!(score_guess(word("eerie"), word("there")).as_string(), "ybybg");
    assert_eq!(score_guess(word("llama"), word("hello")).as_string(), "yybbb");
    assert_eq!(score_guess(word("humph"), word("trace")).code(), 0);
}

#[test]
fn a_word_scored_against_itself_is_solved() {
    for text in ["allee", "mamma", "trace", "qajaq", "zzzzz"] {
        let w = word(text);
        assert!(score_guess(w, w).is_solved(), "{text}");
    }
}

#[test]
fn solved_feedback_means_same_word() {
    let words = ["apple", "appel", "papel", "pepla", "lapse"];
    for a in words {
        for b in words {
            assert_eq!(score_guess(word(a), word(b)).is_solved(), a == b, "{a} {b}");
        }
    }
}

#[test]
fn every_score_is_a_feedback_code() {
    let words = ["allee", "apple", "eerie", "there", "mamma", "humph", "zebra"];
    for a in words {
        for b in words {
            assert!((score_guess(word(a), word(b)).code() as usize) < FEEDBACK_STATES);
        }
    }
}

#[test]
fn coloured_tiles_per_letter_are_the_smaller_count() {
    let words = ["allee", "apple", "eerie", "there", "llama", "hello", "speed", "abide"];
    for g in words {
        for a in words {
            let cells = score_guess(word(g), word(a)).cells();
            let back = score_guess(word(a), word(g)).cells();
            for letter in b'a'..=b'z' {
                let in_guess = g.bytes().filter(|&b| b == letter).count();
                let in_answer = a.bytes().filter(|&b| b == letter).count();
                let coloured = g
                    .bytes()
                    .zip(cells)
                    .filter(|&(b, c)| b == letter && c != 0)
                    .count();
                assert_eq!(coloured, in_guess.min(in_answer), "{g} {a}");
            }
            let count = |cells: [u8; 5], f: fn(u8) -> bool| cells.iter().filter(|&&c| f(c)).count();
            assert_eq!(count(cells, |c| c != 0), count(back, |c| c != 0));
            assert_eq!(count(cells, |c| c == 2), count(back, |c| c == 2));
        }
    }
}
