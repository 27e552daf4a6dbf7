use markov::codec::filename;
use markov::speech::{ends_sentence, speech_batches, speech_step, SpeechMessage, Speechifier, ToWide};

#[test]
fn speechifier_sends_only_while_running() {
    let mut sp = Speechifier::new();
    assert!(sp.queue("hi".to_string()).is_none());
    assert!(sp.stop().is_none());
    sp.start();
    match sp.queue("hi there".to_string()) {
        Some(SpeechMessage::Word(w)) => assert_eq!(w, "hi there"),
        _ => panic!("expected a word"),
    }
    assert!(matches!(sp.stop(), Some(SpeechMessage::Stop)));
    assert!(sp.queue("late".to_string()).is_none());
    assert!(sp.stop().is_none());
}

#[test]
fn speech_step_speaks_words_and_stops_otherwise() {
    assert_eq!(speech_step(Some(SpeechMessage::Word("ab".to_string()))), Some(vec![97u16, 98, 0]));
    assert_eq!(speech_step(Some(SpeechMessage::Stop)), None);
    assert_eq!(speech_step(None), None);
}

#[test]
fn to_wide_encodes_utf16() {
    assert_eq!("ab".to_string().to_wide(), vec![97u16, 98]);
    assert_eq!("é😀".to_string().to_wide(), vec![0xe9u16, 0xd83d, 0xde00]);
    assert_eq!("".to_string().to_wide_null(), vec![0u16]);
    assert_eq!("a".to_string().to_wide_null(), vec![97u16, 0]);
}

#[test]
fn default_snapshot_file() {
    assert_eq!(filename(), "chains.markov");
}

#[test]
fn ends_sentence_finds_marks_anywhere() {
    assert!(ends_sentence("end."));
    assert!(ends_sentence("what?"));
    assert!(ends_sentence("!"));
    assert!(ends_sentence("a.b"));
    assert!(!ends_sentence("word"));
    assert!(!ends_sentence(""));
}

#[test]
fn speech_batches_group_sentences_and_drop_the_unfinished_one() {
    let words: Vec<String> = ["the", "cat", "sat.", "who", "ran?", "and", "then"].iter().map(|w| w.to_string()).collect();
    assert_eq!(speech_batches(&words), vec!["the cat sat. ".to_string(), "who ran? ".to_string()]);
    assert!(speech_batches(&vec![]).is_empty());
    assert!(speech_batches(&vec!["no".to_string(), "end".to_string()]).is_empty());
}
