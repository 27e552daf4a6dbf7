//! Decisions of the speech hand-off: which message goes to the speaking
//! worker, and what the worker does with each message it receives.

use vstd::prelude::*;
use vstd::string::{StrSliceExecFns, StringExecFns};
use crate::symbols::words_of;

verus! {

/// The UTF-16 code units of one character: itself below 0x10000,
/// otherwise a high and a low surrogate.
pub open spec fn char_utf16(c: char) -> Seq<u16> {
    let v = c as u32 as int;
    if v < 0x10000 {
        seq![v as u16]
    } else {
        let u = v - 0x10000;
        seq![(0xD800 + u / 0x400) as u16, (0xDC00 + u % 0x400) as u16]
    }
}

/// The UTF-16 code units of a text, character by character.
pub open spec fn utf16_of(s: Seq<char>) -> Seq<u16>
    decreases s.len(),
{
    if s.len() == 0 {
        Seq::empty()
    } else {
        utf16_of(s.drop_last()) + char_utf16(s.last())
    }
}

/// Relies on `str::encode_utf16`: the text's UTF-16 code units, in order.
#[verifier::external_body]
fn encode_utf16(s: &str) -> (r: Vec<u16>)
    ensures
        r@ == utf16_of(s@),
{
    s.encode_utf16().collect()
}

/// Text as wide (UTF-16) characters, as speech services take it.
pub trait ToWide {
    spec fn text(&self) -> Seq<char>;

    /// The UTF-16 code units of the text.
    fn to_wide(&self) -> (r: Vec<u16>)
        ensures
            r@ == utf16_of(self.text()),
    ;

    /// The UTF-16 code units of the text, then a terminating zero.
    fn to_wide_null(&self) -> (r: Vec<u16>)
        ensures
            r@ == utf16_of(self.text()).push(0),
    ;
}

impl ToWide for String {
    open spec fn text(&self) -> Seq<char> {
        self@
    }

    fn to_wide(&self) -> (r: Vec<u16>) {
        encode_utf16(self.as_str())
    }

    fn to_wide_null(&self) -> (r: Vec<u16>) {
        let mut v = encode_utf16(self.as_str());
        v.push(0);
        v
    }
}

/// A message for the speaking worker.
pub enum SpeechMessage {
    /// Text to speak.
    Word(String),
    /// Finish and shut down.
    Stop,
}

/// The sending side of the speech hand-off: it knows whether a worker is
/// running and decides what to send to it.
pub struct Speechifier {
    running: bool,
}

impl Speechifier {
    /// True while a worker is running.
    pub closed spec fn is_running(&self) -> bool {
        self.running
    }

    /// No worker runs yet.
    pub fn new() -> (r: Speechifier)
        ensures
            !r.is_running(),
    {
        Speechifier { running: false }
    }

    /// Marks the worker as running; the caller has started it.
    pub fn start(&mut self)
        ensures
            final(self).is_running(),
    {
        self.running = true;
    }

    /// The message that ends a running worker, if one runs; afterwards no
    /// worker runs.
    pub fn stop(&mut self) -> (r: Option<SpeechMessage>)
        ensures
            !final(self).is_running(),
            old(self).is_running() ==> r matches Some(SpeechMessage::Stop),
            !old(self).is_running() ==> r is None,
    {
        let r = if self.running {
            Some(SpeechMessage::Stop)
        } else {
            None
        };
        self.running = false;
        r
    }

    /// The message that hands `word` to a running worker; `None` when no
    /// worker runs.
    pub fn queue(&self, word: String) -> (r: Option<SpeechMessage>)
        ensures
            self.is_running() ==> (r matches Some(SpeechMessage::Word(w)) && w@ == word@),
            !self.is_running() ==> r is None,
    {
        if self.running {
            Some(SpeechMessage::Word(word))
        } else {
            None
        }
    }
}

/// What the worker does with what it received (`None`: the sender is
/// gone): the wide text to speak, or `None` to shut down.
pub fn speech_step(msg: Option<SpeechMessage>) -> (r: Option<Vec<u16>>)
    ensures
        msg matches Some(SpeechMessage::Word(w)) ==> (r matches Some(v) && v@ == utf16_of(
            w@,
        ).push(0)),
        !(msg matches Some(SpeechMessage::Word(_))) ==> r is None,
{
    match msg {
        Some(SpeechMessage::Word(w)) => Some(w.to_wide_null()),
        _ => None,
    }
}

/// True when `c` closes a sentence.
pub open spec fn is_sentence_mark(c: char) -> bool {
    c == '.' || c == '?' || c == '!'
}

/// True when some character of `w` closes a sentence.
pub open spec fn ends_sentence_spec(w: Seq<char>) -> bool {
    exists|i: int| 0 <= i < w.len() && is_sentence_mark(w[i])
}

/// The sentences of `ws`, each word followed by a space, with `buf`
/// already begun: a sentence is handed on once a word closes it, and an
/// unfinished last one is dropped.
pub open spec fn batches_from(ws: Seq<Seq<char>>, buf: Seq<char>) -> Seq<Seq<char>>
    decreases ws.len(),
{
    if ws.len() == 0 {
        Seq::empty()
    } else {
        let b = buf + ws[0] + seq![' '];
        if ends_sentence_spec(ws[0]) {
            seq![b] + batches_from(ws.drop_first(), Seq::empty())
        } else {
            batches_from(ws.drop_first(), b)
        }
    }
}

/// True when a character of `w` is `.`, `?` or `!`.
pub fn ends_sentence(w: &str) -> (r: bool)
    ensures
        r == ends_sentence_spec(w@),
{
    let n = w.unicode_len();
    let mut i: usize = 0;
    while i < n
        invariant
            n == w@.len(),
            0 <= i <= n,
            forall|k: int| 0 <= k < i ==> !is_sentence_mark(w@[k]),
        decreases n - i,
    {
        let c = w.get_char(i);
        if c == '.' || c == '?' || c == '!' {
            assert(is_sentence_mark(w@[i as int]));
            return true;
        }
        i = i + 1;
    }
    false
}

/// The words grouped into the sentences that are handed to the speaking
/// worker (see `batches_from`).
pub fn speech_batches(words: &Vec<String>) -> (r: Vec<String>)
    ensures
        words_of(r@) == batches_from(words_of(words@), Seq::empty()),
{
    let ghost ws = words_of(words@);
    let mut out: Vec<String> = Vec::new();
    let mut buf = String::new();
    let n = words.len();
    let mut i: usize = 0;
    proof {
        reveal_strlit(" ");
        assert(ws.skip(0) =~= ws);
        assert(words_of(out@) + batches_from(ws, buf@) =~= batches_from(ws, Seq::empty()));
    }
    while i < n
        invariant
            n == words@.len(),
            ws == words_of(words@),
            0 <= i <= n,
            words_of(out@) + batches_from(ws.skip(i as int), buf@) == batches_from(ws, Seq::empty()),
        decreases n - i,
    {
        let w = words[i].as_str();
        let ghost rest = ws.skip(i as int);
        let ghost old_out = words_of(out@);
        let ghost b = buf@ + w@ + seq![' '];
        proof {
            reveal_strlit(" ");
            assert(rest[0] == w@);
            assert(rest.drop_first() =~= ws.skip(i as int + 1));
        }
        buf.append(w);
        buf.append(" ");
        assert(buf@ =~= b);
        if ends_sentence(w) {
            let mut done = String::new();
            std::mem::swap(&mut done, &mut buf);
            out.push(done);
            proof {
                assert(words_of(out@) =~= old_out.push(b));
                assert(old_out.push(b) + batches_from(ws.skip(i as int + 1), Seq::empty()) =~= old_out
                    + (seq![b] + batches_from(ws.skip(i as int + 1), Seq::empty())));
                assert(buf@ =~= Seq::<char>::empty());
            }
        }
        i = i + 1;
    }
    proof {
        assert(ws.skip(n as int) =~= Seq::<Seq<char>>::empty());
        assert(words_of(out@) + Seq::<Seq<char>>::empty() =~= words_of(out@));
    }
    out
}

} // verus!
