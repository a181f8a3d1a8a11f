use pi_natives::apple::{
    check, completes, confidence, first_extension, is_known_word, line_query, Finding, RangeError,
    SpellingRange, COMPLETION_CONFIDENCE, FINISHED_WORD_CONFIDENCE, NOT_FOUND,
};
use pi_natives::engine::{shows, Method, Query};
use pi_natives::ngram::hygiene::{for_each_neighbour, for_each_slip};
use pi_natives::ngram::lexicon::bos;
use pi_natives::ngram::text::{
    case_tail_into, classify_gap, context_before, lowercase_aligned, lowercase_into, Gap, Slot,
};
use pi_natives::prose::{
    is_learnable, is_letter, is_typed_like, is_word_char, mask_non_prose, prose_share, prose_words,
};
use pi_natives::strings::{contains, eq_ignore_ascii_case, parse, split, to_hex, trim, words};

fn context(text: &str) -> (Option<String>, Option<String>) {
    let (mut u, mut v) = (String::new(), String::new());
    let ctx = context_before(text, text.len(), &mut u, &mut v);
    let show = |slot: Slot, word: String| match slot {
        Slot::Unknown => None,
        Slot::Bos => Some(bos().to_owned()),
        Slot::Word => Some(word),
    };
    (show(ctx.u, u), show(ctx.v, v))
}

#[test]
fn context_follows_prose_and_stops_at_code_or_sentences() {
    assert_eq!(context("Can you fix the "), (Some("fix".into()), Some("the".into())));
    assert_eq!(context("done. "), (None, Some(bos().into())));
    assert_eq!(context("done. Then "), (Some(bos().into()), Some("then".into())));
    assert_eq!(context("Hello, world "), (Some("hello".into()), Some("world".into())));
    assert_eq!(context("run foo_bar "), (None, None));
    assert_eq!(context("the parseArgs "), (None, None));
    assert_eq!(context("Fix "), (Some(bos().into()), Some("fix".into())));
}

#[test]
fn gaps_and_case_tails() {
    let gap = |text: &str| {
        let chars: Vec<char> = text.chars().collect();
        classify_gap(&chars, 0, chars.len())
    };
    assert_eq!(gap(" "), Gap::Join);
    assert_eq!(gap(". "), Gap::Stop);
    assert_eq!(gap(" = "), Gap::Break);
    assert_eq!(bos(), "<s>");
    let mut out = String::from("old");
    lowercase_into("ÀB", &mut out);
    assert_eq!(out, "àb");
    case_tail_into("OAuth", &mut out);
    assert_eq!(out, "oAuth");
    let aligned: String = lowercase_aligned(&['A', '\u{130}', 'É']).into_iter().collect();
    assert_eq!(aligned, "a\u{130}é");
}

fn prose(prompt: &str) -> Vec<&str> {
    prose_words(prompt).into_iter().map(|w| &prompt[w.start..w.end]).collect()
}

#[test]
fn code_and_markup_are_not_prose() {
    let prompt = "fix the `parse_args` call\n```rust\nlet value = 1;\n```\nthen <b>bold</b> it \
                  camelCase foo_bar v2 ok";
    assert_eq!(prose(prompt), ["fix", "the", "call", "then", "it", "ok"]);
}

#[test]
fn masking_preserves_byte_offsets() {
    let text = "é `ü` <i>ß</i> done";
    let masked = mask_non_prose(text);
    assert_eq!(masked.len(), text.len());
    assert_eq!(&masked[masked.len() - 4..], "done");
    assert!(masked[2..masked.len() - 5].trim().is_empty());
}

#[test]
fn prompts_that_look_typed() {
    assert!(is_typed_like("please fix the parser"));
    assert!(!is_typed_like("/model set something"));
    assert!(!is_typed_like(&"word ".repeat(2000)));
    assert!(is_learnable("please fix the parser"));
    let (mask, all) = prose_share("plain words here");
    assert!(mask <= all);
    assert!(is_letter('é') && !is_letter('1'));
    assert!(is_word_char('\'') || is_word_char('a'));
}

#[test]
fn neighbours_are_one_edit_away() {
    let near = for_each_neighbour("wrold");
    assert!(near.contains(&"world".to_string()));
    assert!(!near.contains(&"wrold".to_string()));
    assert!(for_each_slip("letter").contains(&"leter".to_string()));
}

#[test]
fn the_last_letter_never_moves() {
    // The last two letters are not swapped.
    assert!(!for_each_neighbour("teh").contains(&"the".to_string()));
    assert!(!for_each_slip("the").contains(&"teh".to_string()));
    for word in ["teh", "letter", "wrold", "ab"] {
        let last = word.chars().last();
        assert!(for_each_neighbour(word).iter().all(|w| w.chars().last() == last), "{word}");
        assert!(for_each_slip(word).iter().all(|w| w.chars().last() == last), "{word}");
    }
}

#[test]
fn letters_are_the_letter_and_mark_categories() {
    for c in ['a', 'Z', 'ª', 'µ', 'é', 'ß', 'ж', '語', '\u{301}', '\u{93e}'] {
        assert!(is_letter(c), "{c:?}");
    }
    // Letterlike numbers and circled letters are alphabetic, but no letters.
    for c in ['1', '_', ' ', '×', '÷', '\u{2167}', '\u{2170}', '\u{24b6}', '²'] {
        assert!(!is_letter(c), "{c:?}");
    }
    assert_eq!(prose("chapter \u{2167} ends"), ["chapter", "ends"]);
}

#[test]
fn engines_by_name_and_their_gate() {
    assert_eq!(Method::parse("ngram"), Ok(Method::Ngram));
    assert_eq!(Method::parse("smollm"), Ok(Method::SmolLm));
    assert_eq!(Method::parse("apple"), Ok(Method::Apple));
    assert_eq!(Method::parse("auto"), Err("auto".to_string()));
    let bits = |value: f32| value.to_bits();
    assert!(shows(bits(0.3), None, bits(0.3), "o"));
    assert!(!shows(bits(0.2), None, bits(0.3), "o"));
    assert!(!shows(bits(0.2), Some(bits(0.1)), bits(0.3), "o"), "single letters keep their floor");
    assert!(shows(bits(0.2), Some(bits(0.1)), bits(0.3), "ou"));
    assert!(!shows(bits(f32::NAN), None, bits(0.3), "ou"));
    let query = Query { before: "figure ", prefix: "o" };
    assert_eq!(query.before.len() + query.prefix.len(), 8);
}

#[test]
fn single_letter_prefixes_get_no_completion() {
    for prefix in ["o", "é", ""] {
        assert!(!completes(prefix), "{prefix:?}");
    }
    assert!(completes("ou"));
}

#[test]
fn spelling_answers_become_ranges() {
    let finding = |spelling, location, length| Finding { spelling, location, length };
    assert_eq!(
        check(&vec![finding(true, 4, 3), finding(false, 0, 9), finding(true, NOT_FOUND, 0)]),
        Ok(vec![SpellingRange { start: 4, length: 3 }])
    );
    assert_eq!(check(&vec![finding(true, 1 << 32, 1)]), Err(RangeError::Start));
    assert_eq!(check(&vec![finding(true, 0, 1 << 32)]), Err(RangeError::Length));
    assert!(is_known_word(NOT_FOUND, 0));
    assert!(!is_known_word(0, 3));
    let line = line_query("first\nsecond 😀 ", "wo").ok().unwrap();
    assert_eq!((line.line.as_str(), line.start, line.length), ("second 😀 wo", 10, 2));
    let candidates = vec!["Wo".to_string(), "wOrld".to_string()];
    assert_eq!(first_extension(&candidates, "wo").as_deref(), Some("rld"));
    assert_eq!(first_extension(&candidates, "x"), None);
    assert_eq!(confidence(true), FINISHED_WORD_CONFIDENCE);
    assert_eq!(f32::from_bits(confidence(false)), 1.0);
    assert_eq!(f32::from_bits(COMPLETION_CONFIDENCE), 1.0);
    assert_eq!(f32::from_bits(FINISHED_WORD_CONFIDENCE), 0.25);
}

fn chars(text: &str) -> Vec<char> {
    text.chars().collect()
}

fn texts(list: Vec<Vec<char>>) -> Vec<String> {
    list.into_iter().map(|part| part.into_iter().collect()).collect()
}

#[test]
fn strings_are_split_trimmed_and_read() {
    assert_eq!(texts(split(&chars("a.b..c"), &['.'])), ["a", "b", "", "c"]);
    assert_eq!(texts(split(&chars(""), &['.'])), [""]);
    assert_eq!(texts(words(&chars("  a\tb \n"))), ["a", "b"]);
    assert_eq!(trim(&chars(" x y ")), chars("x y"));
    assert!(contains(&chars("abcd"), &chars("bc")) && !contains(&chars("abcd"), &chars("cb")));
    assert!(eq_ignore_ascii_case(&chars("KDE"), &chars("kde")));
    assert_eq!(parse(&chars("+12"), 10, 100), Some(12));
    assert_eq!(parse(&chars("101"), 10, 100), None);
    assert_eq!(parse(&chars("ff"), 16, u64::MAX), Some(255));
    assert_eq!(parse(&chars(""), 10, 100), None);
    assert_eq!(parse(&chars("1x"), 10, 100), None);
    assert_eq!(to_hex(0, 0), chars("0"));
    assert_eq!(to_hex(255, 4), chars("00ff"));
}
