//! Replaying text into a chain as (context, next word) observations.

use vstd::prelude::*;
use crate::chain::{
    Chain, ChainView, Words3, chain_record, chain_record_never_lowers, chain_record_wf, view_wf,
};
use crate::table::{Context, weight_of};
use crate::symbols::words_of;

verus! {

/// The whitespace-separated words of a text, in order.
pub uninterp spec fn words_in(s: Seq<char>) -> Seq<Seq<char>>;

/// Relies on `str::split_whitespace`: the runs of text between whitespace,
/// in order, each made an owned string; runs are never empty.
#[verifier::external_body]
fn split_words(s: &str) -> (r: Vec<String>)
    ensures
        words_of(r@) == words_in(s@),
        forall|i: int| 0 <= i < r@.len() ==> (#[trigger] r@[i])@.len() > 0,
{
    s.split_whitespace().map(|w| w.to_string()).collect()
}

/// The chain after observing each of `toks` in turn, the window starting at
/// `start` and sliding by one word each time.
pub open spec fn train_spec(v: ChainView, start: Words3, toks: Seq<Seq<char>>) -> ChainView
    decreases toks.len(),
{
    if toks.len() == 0 {
        v
    } else {
        train_spec(
            chain_record(v, start, toks[0]),
            (start.1, start.2, toks[0]),
            toks.drop_first(),
        )
    }
}

/// The window after sliding from `start` over `toks`.
pub open spec fn end_window(start: Words3, toks: Seq<Seq<char>>) -> Words3
    decreases toks.len(),
{
    if toks.len() == 0 {
        start
    } else {
        end_window((start.1, start.2, toks[0]), toks.drop_first())
    }
}

/// The window of three sentinels.
pub open spec fn empty_window() -> Words3 {
    (Seq::<char>::empty(), Seq::<char>::empty(), Seq::<char>::empty())
}

/// Records each word of `toks` after the three words before it, the first
/// window being `start`. Returns the last window.
pub fn train_tokens(chain: &mut Chain, start: (String, String, String), toks: &Vec<String>) -> (r: (
    String,
    String,
    String,
))
    requires
        old(chain).wf(),
    ensures
        final(chain).wf(),
        final(chain)@ == train_spec(old(chain)@, (start.0@, start.1@, start.2@), words_of(toks@)),
        (r.0@, r.1@, r.2@) == end_window((start.0@, start.1@, start.2@), words_of(toks@)),
{
    let ghost ws = words_of(toks@);
    let ghost v0 = chain@;
    let ghost s0 = (start.0@, start.1@, start.2@);
    let (mut a, mut b, mut c) = start;
    let n = toks.len();
    let mut i: usize = 0;
    assert(ws.skip(0) =~= ws);
    while i < n
        invariant
            n == toks@.len(),
            ws == words_of(toks@),
            0 <= i <= n,
            chain.wf(),
            train_spec(v0, s0, ws) == train_spec(chain@, (a@, b@, c@), ws.skip(i as int)),
            end_window(s0, ws) == end_window((a@, b@, c@), ws.skip(i as int)),
        decreases n - i,
    {
        let w = &toks[i];
        chain.record((a.as_str(), b.as_str(), c.as_str()), w.as_str());
        proof {
            let rest = ws.skip(i as int);
            assert(rest[0] == w@);
            assert(rest.drop_first() =~= ws.skip(i as int + 1));
        }
        a = b;
        b = c;
        c = w.clone();
        i = i + 1;
    }
    proof {
        assert(ws.skip(n as int) =~= Seq::<Seq<char>>::empty());
    }
    (a, b, c)
}

/// Trains on one chunk of text as an utterance of its own: the window
/// starts at three sentinels, whatever was trained before.
pub struct SentenceTrainer {
    text: String,
}

impl SentenceTrainer {
    pub closed spec fn text(&self) -> Seq<char> {
        self.text@
    }

    pub fn new(text: &str) -> (r: SentenceTrainer)
        ensures
            r.text() == text@,
    {
        SentenceTrainer { text: text.to_owned() }
    }

    /// Records every word of the text after the words before it.
    pub fn train(&self, chain: &mut Chain)
        requires
            old(chain).wf(),
        ensures
            final(chain).wf(),
            final(chain)@ == train_spec(old(chain)@, empty_window(), words_in(self.text())),
            forall|i: int|
                0 <= i < words_in(self.text()).len() ==> (#[trigger] words_in(self.text())[i]).len() > 0,
    {
        let toks = split_words(self.text.as_str());
        assert(forall|i: int| 0 <= i < toks@.len() ==> words_of(toks@)[i] == toks@[i]@);
        let _ = train_tokens(chain, (String::new(), String::new(), String::new()), &toks);
    }
}

/// Trains on text that arrives piece by piece: the last two words of one
/// piece lead into the next, so observations span the boundaries.
pub struct StreamTrainer {
    trail: (String, String),
}

impl StreamTrainer {
    /// The two words carried into the next piece.
    pub closed spec fn trail(&self) -> (Seq<char>, Seq<char>) {
        (self.trail.0@, self.trail.1@)
    }

    /// A trainer that has seen nothing: the carried words are sentinels.
    pub fn new() -> (r: StreamTrainer)
        ensures
            r.trail() == (Seq::<char>::empty(), Seq::<char>::empty()),
    {
        StreamTrainer { trail: (String::new(), String::new()) }
    }

    /// Records the words of `line`, the window starting at a sentinel and
    /// the two carried words, and carries the last two words of the window on.
    pub fn next(&mut self, chain: &mut Chain, line: &str)
        requires
            old(chain).wf(),
        ensures
            final(chain).wf(),
            final(chain)@ == train_spec(
                old(chain)@,
                (Seq::<char>::empty(), old(self).trail().0, old(self).trail().1),
                words_in(line@),
            ),
            ({
                let w = end_window(
                    (Seq::<char>::empty(), old(self).trail().0, old(self).trail().1),
                    words_in(line@),
                );
                final(self).trail() == (w.1, w.2)
            }),
            forall|i: int| 0 <= i < words_in(line@).len() ==> (#[trigger] words_in(line@)[i]).len() > 0,
    {
        let toks = split_words(line);
        assert(forall|i: int| 0 <= i < toks@.len() ==> words_of(toks@)[i] == toks@[i]@);
        let mut trail = (String::new(), String::new());
        std::mem::swap(&mut trail, &mut self.trail);
        let (_, b, c) = train_tokens(chain, (String::new(), trail.0, trail.1), &toks);
        self.trail = (b, c);
    }
}

/// The chain after stream training on each of `lines` in turn, `trail`
/// being the two words carried into the first.
pub open spec fn stream_spec(v: ChainView, trail: (Seq<char>, Seq<char>), lines: Seq<Seq<char>>) -> ChainView
    decreases lines.len(),
{
    if lines.len() == 0 {
        v
    } else {
        let start = (Seq::<char>::empty(), trail.0, trail.1);
        let w = end_window(start, words_in(lines[0]));
        stream_spec(train_spec(v, start, words_in(lines[0])), (w.1, w.2), lines.drop_first())
    }
}

/// Feeds each line through one stream trainer, so that observations run on
/// from one line into the next.
pub fn train_reader(chain: &mut Chain, lines: &Vec<String>)
    requires
        old(chain).wf(),
    ensures
        final(chain).wf(),
        final(chain)@ == stream_spec(
            old(chain)@,
            (Seq::<char>::empty(), Seq::<char>::empty()),
            words_of(lines@),
        ),
{
    let ghost ls = words_of(lines@);
    let ghost v0 = chain@;
    let mut trainer = StreamTrainer::new();
    let n = lines.len();
    let mut i: usize = 0;
    assert(ls.skip(0) =~= ls);
    while i < n
        invariant
            n == lines@.len(),
            ls == words_of(lines@),
            0 <= i <= n,
            chain.wf(),
            stream_spec(v0, (Seq::<char>::empty(), Seq::<char>::empty()), ls) == stream_spec(
                chain@,
                trainer.trail(),
                ls.skip(i as int),
            ),
        decreases n - i,
    {
        proof {
            assert(ls.skip(i as int)[0] == lines@[i as int]@);
            assert(ls.skip(i as int).drop_first() =~= ls.skip(i as int + 1));
        }
        trainer.next(chain, lines[i].as_str());
        i = i + 1;
    }
    assert(ls.skip(n as int) =~= Seq::<Seq<char>>::empty());
}

/// A training run lowers no weight: after sliding over `toks`, every
/// (context, target) pair of ids has at least the weight it had, and the
/// chain is still well formed.
pub proof fn train_never_lowers(v: ChainView, start: Words3, toks: Seq<Seq<char>>, c: Context, t: u64)
    requires
        view_wf(v),
    ensures
        view_wf(train_spec(v, start, toks)),
        weight_of(train_spec(v, start, toks).table, c, t) >= weight_of(v.table, c, t),
    decreases toks.len(),
{
    if toks.len() > 0 {
        chain_record_never_lowers(v, start, toks[0], c, t);
        chain_record_wf(v, start, toks[0]);
        train_never_lowers(
            chain_record(v, start, toks[0]),
            (start.1, start.2, toks[0]),
            toks.drop_first(),
            c,
            t,
        );
    }
}

/// Stream training over any lines lowers no weight.
pub proof fn stream_never_lowers(
    v: ChainView,
    trail: (Seq<char>, Seq<char>),
    lines: Seq<Seq<char>>,
    c: Context,
    t: u64,
)
    requires
        view_wf(v),
    ensures
        view_wf(stream_spec(v, trail, lines)),
        weight_of(stream_spec(v, trail, lines).table, c, t) >= weight_of(v.table, c, t),
    decreases lines.len(),
{
    if lines.len() > 0 {
        let start = (Seq::<char>::empty(), trail.0, trail.1);
        let w = end_window(start, words_in(lines[0]));
        train_never_lowers(v, start, words_in(lines[0]), c, t);
        stream_never_lowers(
            train_spec(v, start, words_in(lines[0])),
            (w.1, w.2),
            lines.drop_first(),
            c,
            t,
        );
    }
}

/// True when the three words of `w` and every word of `toks` are known.
pub open spec fn all_known(names: Seq<Seq<char>>, w: Words3, toks: Seq<Seq<char>>) -> bool {
    &&& names.contains(w.0)
    &&& names.contains(w.1)
    &&& names.contains(w.2)
    &&& forall|i: int| 0 <= i < toks.len() ==> names.contains(#[trigger] toks[i])
}

proof fn lemma_end_window_known(names: Seq<Seq<char>>, start: Words3, toks: Seq<Seq<char>>)
    requires
        all_known(names, start, toks),
    ensures
        ({
            let w = end_window(start, toks);
            names.contains(w.0) && names.contains(w.1) && names.contains(w.2)
        }),
    decreases toks.len(),
{
    if toks.len() > 0 {
        let rest = toks.drop_first();
        assert(names.contains(toks[0]));
        assert forall|i: int| 0 <= i < rest.len() implies names.contains(#[trigger] rest[i]) by {
            assert(rest[i] == toks[i + 1]);
        }
        lemma_end_window_known(names, (start.1, start.2, toks[0]), rest);
    }
}

/// Training on words that are all known allocates no id: the words keep
/// their ids and no new one appears.
pub proof fn train_keeps_known_words(v: ChainView, start: Words3, toks: Seq<Seq<char>>)
    requires
        all_known(v.names, start, toks),
    ensures
        train_spec(v, start, toks).names == v.names,
    decreases toks.len(),
{
    if toks.len() > 0 {
        assert(v.names.contains(toks[0]));
        let v1 = chain_record(v, start, toks[0]);
        assert(v1.names == v.names);
        let rest = toks.drop_first();
        assert forall|i: int| 0 <= i < rest.len() implies v.names.contains(#[trigger] rest[i]) by {
            assert(rest[i] == toks[i + 1]);
        }
        train_keeps_known_words(v1, (start.1, start.2, toks[0]), rest);
    }
}

/// Stream training on lines whose words are all known allocates no id.
pub proof fn stream_keeps_known_words(v: ChainView, trail: (Seq<char>, Seq<char>), lines: Seq<Seq<char>>)
    requires
        v.names.len() >= 1,
        v.names[0] == Seq::<char>::empty(),
        v.names.contains(trail.0),
        v.names.contains(trail.1),
        forall|i: int, j: int|
            0 <= i < lines.len() && 0 <= j < words_in(lines[i]).len() ==> v.names.contains(
                #[trigger] words_in(lines[i])[j],
            ),
    ensures
        stream_spec(v, trail, lines).names == v.names,
    decreases lines.len(),
{
    if lines.len() > 0 {
        let start = (Seq::<char>::empty(), trail.0, trail.1);
        let toks = words_in(lines[0]);
        assert(v.names[0] == start.0);
        assert(v.names.contains(start.0));
        assert forall|j: int| 0 <= j < toks.len() implies v.names.contains(#[trigger] toks[j]) by {
            assert(v.names.contains(words_in(lines[0])[j]));
        }
        train_keeps_known_words(v, start, toks);
        lemma_end_window_known(v.names, start, toks);
        let w = end_window(start, toks);
        let rest = lines.drop_first();
        assert forall|i: int, j: int|
            0 <= i < rest.len() && 0 <= j < words_in(rest[i]).len() implies v.names.contains(
                #[trigger] words_in(rest[i])[j],
            ) by {
            assert(rest[i] == lines[i + 1]);
            assert(v.names.contains(words_in(lines[i + 1])[j]));
        }
        stream_keeps_known_words(train_spec(v, start, toks), (w.1, w.2), rest);
    }
}

} // verus!
