use markov::chain::{join_words, Chain};
use markov::codec::{SnapshotError, SNAPSHOT_VERSION};
use markov::symbols::SymbolTable;
use markov::table::{Choice, ChoiceList, Context, TransitionTable};
use markov::training::{train_reader, train_tokens, SentenceTrainer, StreamTrainer};
use rand::rngs::StdRng;
use rand::SeedableRng;

fn s(x: &str) -> String {
    x.to_string()
}

fn trained(text: &str) -> Chain {
    let mut chain = Chain::new();
    SentenceTrainer::new(text).train(&mut chain);
    chain
}

fn id(chain: &Chain, w: &str) -> u64 {
    chain.symbols().find(&s(w)).unwrap()
}

#[test]
fn intern_returns_same_id_and_name() {
    let mut t = SymbolTable::new();
    let a = t.intern("cat");
    let b = t.intern("dog");
    assert_eq!(a, 1);
    assert_eq!(b, 2);
    assert_eq!(t.intern("cat"), a);
    assert_eq!(t.name_of(a).unwrap(), "cat");
    assert_eq!(t.intern(""), 0);
    assert_eq!(t.len(), 3);
    assert!(t.name_of(3).is_none());
}

#[test]
fn from_names_rejects_duplicates_and_missing_sentinel() {
    assert!(SymbolTable::from_names(vec![s(""), s("a"), s("b")]).is_some());
    assert!(SymbolTable::from_names(vec![s(""), s("a"), s("a")]).is_none());
    assert!(SymbolTable::from_names(vec![s("a")]).is_none());
    assert!(SymbolTable::from_names(vec![]).is_none());
}

#[test]
fn record_never_lowers_weights() {
    let mut chain = Chain::new();
    chain.record(("", "", ""), "x");
    chain.record(("", "", ""), "y");
    let before: Vec<Choice> = chain.lookup(("", "", "")).unwrap().choices.clone();
    chain.record(("", "", ""), "x");
    chain.record(("a", "b", "c"), "x");
    let after = &chain.lookup(("", "", "")).unwrap().choices;
    for c in before.iter() {
        let n = after.iter().find(|d| d.item == c.item).unwrap();
        assert!(n.weight >= c.weight);
    }
    assert_eq!(after[0].weight, 2);
    assert_eq!(after[1].weight, 1);
}

#[test]
fn table_record_and_lookup() {
    let mut t = TransitionTable::new();
    let ctx = Context(0, 0, 0);
    t.record(ctx, 5);
    t.record(ctx, 5);
    t.record(ctx, 6);
    let l = t.choices_of(ctx).unwrap();
    assert_eq!(l.choices, vec![Choice { item: 5, weight: 2 }, Choice { item: 6, weight: 1 }]);
    assert_eq!(t.total(), 3);
    assert!(t.choices_of(Context(0, 0, 1)).is_none());
}

#[test]
fn pick_walks_cumulative_weights() {
    let l = ChoiceList {
        choices: vec![Choice { item: 10, weight: 3 }, Choice { item: 20, weight: 1 }, Choice { item: 30, weight: 2 }],
    };
    assert_eq!(l.total(), 6);
    assert_eq!(l.pick(0), 10);
    assert_eq!(l.pick(2), 10);
    assert_eq!(l.pick(3), 20);
    assert_eq!(l.pick(4), 30);
    assert_eq!(l.pick(5), 30);
}

#[test]
fn stats_count_everything() {
    let chain = trained("the cat sat . the cat ran .");
    let st = chain.stats();
    assert_eq!(st.vocabulary_size, 5);
    assert_eq!(st.total_observations, 8);
    assert_eq!(st.context_count, 8);
    assert_eq!(st.edge_count, 8);
    let empty = Chain::new().stats();
    assert_eq!(empty.vocabulary_size, 0);
    assert_eq!(empty.context_count, 0);
    assert_eq!(empty.edge_count, 0);
    assert_eq!(empty.total_observations, 0);
}

#[test]
fn save_then_load_keeps_stats_and_lookups() {
    let mut chain = trained("the cat sat . the cat ran .");
    chain.record(("the", "cat", "sat"), ".");
    chain.record(("the", "cat", "sat"), "!");
    let bytes = chain.save();
    let (loaded, err) = Chain::load(&bytes);
    assert!(err.is_none());
    assert_eq!(loaded.stats(), chain.stats());
    for ctx in [("", "", ""), ("", "", "the"), ("", "the", "cat"), ("the", "cat", "sat"), ("cat", "sat", ".")] {
        assert_eq!(
            loaded.lookup(ctx).map(|l| l.choices.clone()),
            chain.lookup(ctx).map(|l| l.choices.clone())
        );
    }
    for i in 0..6u64 {
        assert_eq!(loaded.name_of(i), chain.name_of(i));
    }
}

#[test]
fn weighted_sampling_follows_weights() {
    let mut chain = Chain::new();
    for _ in 0..3 {
        chain.record(("", "", ""), "a");
    }
    chain.record(("", "", ""), "b");
    let a = id(&chain, "a");
    let mut rng = StdRng::seed_from_u64(42);
    let draws = 8000;
    let mut hits = 0;
    for _ in 0..draws {
        let x = chain.sample(Context(0, 0, 0), &mut rng).unwrap();
        if x == a {
            hits += 1;
        }
    }
    let p = hits as f64 / draws as f64;
    assert!((p - 0.75).abs() < 0.03, "share {}", p);
}

#[test]
fn sampling_is_reproducible_with_a_seed() {
    let chain = trained("a b c a c b a b b c a");
    let run = |seed: u64| {
        let mut rng = StdRng::seed_from_u64(seed);
        let mut v = Vec::new();
        for _ in 0..50 {
            v.push(chain.sample(Context(0, 0, 0), &mut rng));
        }
        (v, chain.generate_sequence(20, &mut rng))
    };
    assert_eq!(run(9), run(9));
}

#[test]
fn sample_unseen_context_is_none() {
    let chain = trained("hello world");
    let mut rng = StdRng::seed_from_u64(1);
    assert_eq!(chain.sample(Context(7, 7, 7), &mut rng), None);
}

fn snapshot_with_empty_entry() -> Vec<u8> {
    let names = vec![s(""), s("a"), s("b")];
    let entries: Vec<(u64, u64, u64, Vec<(u64, u64)>)> =
        vec![(0, 0, 0, vec![(1, 2)]), (0, 0, 1, vec![]), (0, 1, 2, vec![(2, 1), (1, 1)])];
    bincode::serialize(&(SNAPSHOT_VERSION, names, entries)).unwrap()
}

#[test]
fn prune_empty_is_idempotent() {
    let (mut chain, err) = Chain::load(&snapshot_with_empty_entry());
    assert!(err.is_none());
    assert_eq!(chain.table().len(), 3);
    assert_eq!(chain.stats().context_count, 2);
    chain.prune_empty();
    assert_eq!(chain.table().len(), 2);
    let once: Vec<(Context, Vec<Choice>)> =
        (0..chain.table().len()).map(|i| { let (c, l) = chain.table().entry(i); (c, l.choices.clone()) }).collect();
    chain.prune_empty();
    let twice: Vec<(Context, Vec<Choice>)> =
        (0..chain.table().len()).map(|i| { let (c, l) = chain.table().entry(i); (c, l.choices.clone()) }).collect();
    assert_eq!(once, twice);
    assert!(chain.lookup(("", "", "")).is_some());
    assert!(chain.lookup(("", "a", "b")).is_some());
    assert!(chain.lookup(("", "", "a")).is_none());
}

#[test]
fn generate_stays_in_vocabulary() {
    let chain = trained("the cat sat . the cat ran .");
    let mut rng = StdRng::seed_from_u64(3);
    let text = chain.generate_sequence(10, &mut rng);
    let words: Vec<&str> = text.split(' ').filter(|w| !w.is_empty()).collect();
    assert!(words.len() <= 10);
    assert!(!words.is_empty());
    for w in words {
        assert!(["the", "cat", "sat", "ran", "."].contains(&w), "{}", w);
    }
}

#[test]
fn generate_on_empty_chain_is_empty() {
    let chain = Chain::new();
    let mut rng = StdRng::seed_from_u64(3);
    assert_eq!(chain.generate_sequence(10, &mut rng), "");
    assert!(chain.iterate(10, &mut rng).is_empty());
}

#[test]
fn generate_reproduces_a_single_path() {
    let chain = trained("one two three four");
    let mut rng = StdRng::seed_from_u64(5);
    assert_eq!(chain.generate_sequence(10, &mut rng), "one two three four");
    assert_eq!(chain.generate_sequence(2, &mut rng), "one two");
    assert_eq!(chain.iterate(3, &mut rng), vec![s("one"), s("two"), s("three")]);
}

#[test]
fn lookup_after_hello_world() {
    let chain = trained("hello world");
    let l = chain.lookup(("", "", "")).unwrap();
    assert_eq!(l.choices.len(), 1);
    assert_eq!(chain.name_of(l.choices[0].item).unwrap(), "hello");
    assert_eq!(l.choices[0].weight, 1);
    assert!(chain.lookup(("nope", "", "")).is_none());
}

#[test]
fn stream_training_spans_boundaries() {
    let mut chain = Chain::new();
    let mut trainer = StreamTrainer::new();
    trainer.next(&mut chain, "a b c");
    trainer.next(&mut chain, "d e f");
    let l = chain.lookup(("", "b", "c")).unwrap();
    let d = id(&chain, "d");
    assert!(l.choices.iter().any(|c| c.item == d));

    let mut other = Chain::new();
    SentenceTrainer::new("a b c").train(&mut other);
    SentenceTrainer::new("d e f").train(&mut other);
    let d = id(&other, "d");
    for i in 0..other.table().len() {
        let (ctx, l) = other.table().entry(i);
        if ctx.1 == id(&other, "b") && ctx.2 == id(&other, "c") {
            assert!(!l.choices.iter().any(|c| c.item == d));
        }
    }
    assert!(other.lookup(("", "b", "c")).is_none());
}

#[test]
fn train_reader_carries_context_between_lines() {
    let mut chain = Chain::new();
    train_reader(&mut chain, &vec![s("a b c\n"), s("d e f\n")]);
    let l = chain.lookup(("", "b", "c")).unwrap();
    assert!(l.choices.iter().any(|c| c.item == id(&chain, "d")));
}

#[test]
fn train_tokens_returns_last_window() {
    let mut chain = Chain::new();
    let end = train_tokens(&mut chain, (s(""), s(""), s("")), &vec![s("x"), s("y")]);
    assert_eq!(end, (s(""), s("x"), s("y")));
    assert_eq!(chain.stats().total_observations, 2);
    assert!(chain.lookup(("", "", "x")).is_some());
}

#[test]
fn sentence_training_splits_on_whitespace() {
    let chain = trained("  alpha\tbeta \n gamma  ");
    assert_eq!(chain.stats().vocabulary_size, 3);
    assert!(chain.lookup(("", "alpha", "beta")).is_some());
}

#[test]
fn empty_or_truncated_snapshot_gives_empty_chain() {
    let (chain, err) = Chain::load(&[]);
    assert_eq!(err, Some(SnapshotError::Undecodable));
    assert_eq!(chain.stats().context_count, 0);
    assert_eq!(chain.stats().vocabulary_size, 0);

    let full = trained("the cat sat").save();
    let (chain, err) = Chain::load(&full[..full.len() / 2]);
    assert!(err.is_some());
    assert_eq!(chain.stats().context_count, 0);
    assert_eq!(chain.stats().vocabulary_size, 0);
}

#[test]
fn load_reports_wrong_version() {
    let bytes = bincode::serialize(&(SNAPSHOT_VERSION + 1, vec![s("")], Vec::<(u64, u64, u64, Vec<(u64, u64)>)>::new())).unwrap();
    let (chain, err) = Chain::load(&bytes);
    assert_eq!(err, Some(SnapshotError::WrongVersion));
    assert_eq!(chain.stats().vocabulary_size, 0);
}

#[test]
fn load_reports_inconsistent_contents() {
    let cases: Vec<(Vec<String>, Vec<(u64, u64, u64, Vec<(u64, u64)>)>)> = vec![
        (vec![s("a")], vec![]),
        (vec![s(""), s("a"), s("a")], vec![]),
        (vec![s(""), s("a")], vec![(0, 0, 0, vec![(1, 0)])]),
        (vec![s(""), s("a")], vec![(0, 0, 0, vec![(1, 1), (1, 2)])]),
        (vec![s(""), s("a")], vec![(0, 0, 0, vec![(1, 1)]), (0, 0, 0, vec![(1, 1)])]),
        (vec![s(""), s("a")], vec![(0, 0, 0, vec![(9, 1)])]),
        (vec![s(""), s("a")], vec![(0, 0, 5, vec![(1, 1)])]),
        (vec![s(""), s("a")], vec![(0, 0, 0, vec![(1, u64::MAX)]), (0, 0, 1, vec![(1, 1)])]),
    ];
    for (names, entries) in cases {
        let r = Chain::from_snapshot(SNAPSHOT_VERSION, names, &entries);
        assert!(matches!(r, Err(SnapshotError::Inconsistent)));
    }
    let ok = Chain::from_snapshot(SNAPSHOT_VERSION, vec![s(""), s("a")], &vec![(0, 0, 0, vec![(1, u64::MAX)])]);
    assert!(ok.is_ok());
    assert!(matches!(Chain::from_snapshot(2, vec![s("")], &vec![]), Err(SnapshotError::WrongVersion)));
}

#[test]
fn record_stops_at_the_observation_limit() {
    let mut chain = Chain::from_snapshot(SNAPSHOT_VERSION, vec![s(""), s("a")], &vec![(0, 0, 0, vec![(1, u64::MAX)])]).ok().unwrap();
    chain.record(("", "", ""), "a");
    chain.record(("x", "y", "z"), "w");
    assert_eq!(chain.stats().total_observations, u64::MAX);
    assert_eq!(chain.stats().vocabulary_size, 1);
}

#[test]
fn join_words_uses_single_spaces() {
    assert_eq!(join_words(&vec![]), "");
    assert_eq!(join_words(&vec![s("a")]), "a");
    assert_eq!(join_words(&vec![s("a"), s("bc"), s("d")]), "a bc d");
}

#[test]
fn every_cut_of_a_snapshot_loads_empty() {
    let full = trained("the cat sat . the cat ran .").save();
    for k in 0..full.len() {
        let (chain, err) = Chain::load(&full[..k]);
        assert_eq!(err, Some(SnapshotError::Undecodable), "cut at {}", k);
        assert_eq!(chain.stats().vocabulary_size, 0);
        assert_eq!(chain.stats().context_count, 0);
    }
}

#[test]
fn inconsistent_snapshot_loads_empty_with_reason() {
    let bytes = bincode::serialize(&(SNAPSHOT_VERSION, vec![s(""), s("a"), s("a")], Vec::<(u64, u64, u64, Vec<(u64, u64)>)>::new())).unwrap();
    let (chain, err) = Chain::load(&bytes);
    assert_eq!(err, Some(SnapshotError::Inconsistent));
    assert_eq!(chain.stats().vocabulary_size, 0);
    assert!(chain.lookup(("", "", "")).is_none());
}

#[test]
fn retraining_known_text_keeps_ids() {
    let mut chain = Chain::new();
    train_reader(&mut chain, &vec![s("a b c"), s("c b a")]);
    let before: Vec<String> = (0..chain.symbols().len() as u64).map(|i| chain.name_of(i).unwrap().clone()).collect();
    train_reader(&mut chain, &vec![s("b a c"), s("a")]);
    let after: Vec<String> = (0..chain.symbols().len() as u64).map(|i| chain.name_of(i).unwrap().clone()).collect();
    assert_eq!(before, after);
}
