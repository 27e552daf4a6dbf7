//! The chain: a symbol table and a transition table kept in step.

use vstd::prelude::*;
use vstd::string::StringExecFns;
use rand::rngs::StdRng;
use crate::symbols::{SymbolTable, intern_spec, names_unique};
use crate::table::{
    Choice, ChoiceList, Context, TableView, TransitionTable, choice_sum, choices_wf, edge_count,
    has_item, lookup_spec, non_empty_count, record_never_lowers, record_spec_wf, weight_of, prune_spec, record_spec, table_sum, table_wf,
};

verus! {

/// Three words, oldest first.
pub type Words3 = (Seq<char>, Seq<char>, Seq<char>);

/// What a chain holds: its words in id order and its transition table.
pub struct ChainView {
    pub names: Seq<Seq<char>>,
    pub table: TableView,
}

/// Every id that the table mentions is below `n`.
pub open spec fn ids_below(t: TableView, n: int) -> bool {
    forall|i: int| #![trigger t[i]] 0 <= i < t.len() ==> {
        &&& t[i].0.0 < n
        &&& t[i].0.1 < n
        &&& t[i].0.2 < n
        &&& forall|j: int| 0 <= j < t[i].1.len() ==> (#[trigger] t[i].1[j]).item < n
    }
}

/// A chain view that a chain can hold.
pub open spec fn view_wf(v: ChainView) -> bool {
    &&& v.names.len() >= 1
    &&& v.names[0] == Seq::<char>::empty()
    &&& names_unique(v.names)
    &&& table_wf(v.table)
    &&& 0 <= table_sum(v.table) <= u64::MAX
    &&& ids_below(v.table, v.names.len() as int)
}

/// The chain after one observation of `next` following `ctx`. A chain holds
/// at most `u64::MAX` observations; one more leaves it as it is.
pub open spec fn chain_record(v: ChainView, ctx: Words3, next: Seq<char>) -> ChainView {
    if table_sum(v.table) >= u64::MAX {
        v
    } else {
        let (n1, a) = intern_spec(v.names, ctx.0);
        let (n2, b) = intern_spec(n1, ctx.1);
        let (n3, c) = intern_spec(n2, ctx.2);
        let (n4, d) = intern_spec(n3, next);
        ChainView {
            names: n4,
            table: record_spec(v.table, Context(a as u64, b as u64, c as u64), d as u64),
        }
    }
}

/// Counts that describe a chain.
#[derive(Clone, Copy, Debug, PartialEq, Eq, Structural)]
pub struct Stats {
    /// Words known, the sentinel left out.
    pub vocabulary_size: u64,
    /// Contexts with at least one choice.
    pub context_count: u64,
    /// Choices over all contexts.
    pub edge_count: u64,
    /// Sum of all weights.
    pub total_observations: u64,
}

/// Order-3 word-transition model.
pub struct Chain {
    symbols: SymbolTable,
    table: TransitionTable,
}

impl View for Chain {
    type V = ChainView;

    closed spec fn view(&self) -> ChainView {
        ChainView { names: self.symbols@, table: self.table@ }
    }
}

proof fn lemma_choice_len_le_sum(cs: Seq<Choice>)
    requires
        forall|i: int| 0 <= i < cs.len() ==> cs[i].weight > 0,
    ensures
        cs.len() <= choice_sum(cs),
    decreases cs.len(),
{
    if cs.len() > 0 {
        lemma_choice_len_le_sum(cs.drop_last());
    }
}

proof fn lemma_counts(t: TableView)
    requires
        table_wf(t),
    ensures
        0 <= non_empty_count(t) <= edge_count(t) <= table_sum(t),
    decreases t.len(),
{
    if t.len() > 0 {
        let d = t.drop_last();
        assert(table_wf(d)) by {
            assert forall|i: int| 0 <= i < d.len() implies choices_wf(#[trigger] d[i].1) by {
                assert(d[i] == t[i]);
            }
        }
        lemma_counts(d);
        assert(choices_wf(t[t.len() - 1].1));
        lemma_choice_len_le_sum(t.last().1);
    }
}

proof fn lemma_counts_prefix(t: TableView, k: int)
    requires
        table_wf(t),
        0 <= k < t.len(),
    ensures
        table_wf(t.take(k)),
        t.take(k + 1).drop_last() == t.take(k),
        t.take(k + 1).last() == t[k],
        table_sum(t.take(k + 1)) <= table_sum(t),
    decreases t.len(),
{
    assert(t.take(k + 1).drop_last() =~= t.take(k));
    let p = t.take(k);
    assert forall|i: int| 0 <= i < p.len() implies choices_wf(#[trigger] p[i].1) by {
        assert(p[i] == t[i]);
    }
    if k + 1 == t.len() {
        assert(t.take(k + 1) =~= t);
    } else {
        let d = t.drop_last();
        assert(table_wf(d)) by {
            assert forall|i: int| 0 <= i < d.len() implies choices_wf(#[trigger] d[i].1) by {
                assert(d[i] == t[i]);
            }
        }
        lemma_counts_prefix(d, k);
        assert(d.take(k + 1) =~= t.take(k + 1));
        assert(choices_wf(t[t.len() - 1].1));
        lemma_choice_len_le_sum(t.last().1);
    }
}

impl Chain {
    pub closed spec fn wf(&self) -> bool {
        &&& self.symbols.wf()
        &&& self.table.wf()
        &&& ids_below(self.table@, self.symbols@.len() as int)
    }

    /// A well-formed chain has a well-formed view.
    pub proof fn lemma_view_wf(&self)
        requires
            self.wf(),
        ensures
            view_wf(self@),
    {
        self.table.lemma_sum_fits();
    }

    /// An empty chain: only the sentinel is known, and no context.
    pub fn new() -> (r: Chain)
        ensures
            r.wf(),
            r@.names == seq![Seq::<char>::empty()],
            r@.table == Seq::<(Context, Seq<Choice>)>::empty(),
    {
        Chain { symbols: SymbolTable::new(), table: TransitionTable::new() }
    }

    /// Builds a chain from its two tables; `None` unless every id that the
    /// table mentions is known to the symbol table.
    pub fn from_tables(symbols: SymbolTable, table: TransitionTable) -> (r: Option<Chain>)
        requires
            symbols.wf(),
            table.wf(),
        ensures
            r is Some <==> ids_below(table@, symbols@.len() as int),
            r matches Some(c) ==> c.wf() && c@ == (ChainView { names: symbols@, table: table@ }),
    {
        let n = symbols.len() as u64;
        let t = &table;
        let m = t.len();
        let mut i: usize = 0;
        while i < m
            invariant
                m == table@.len(),
                n == symbols@.len(),
                0 <= i <= m,
                table.wf(),
                forall|k: int| #![trigger table@[k]] 0 <= k < i ==> {
                    &&& table@[k].0.0 < n
                    &&& table@[k].0.1 < n
                    &&& table@[k].0.2 < n
                    &&& forall|j: int| 0 <= j < table@[k].1.len() ==> (#[trigger] table@[k].1[j]).item < n
                },
            decreases m - i,
        {
            let (ctx, list) = table.entry(i);
            if ctx.0 >= n || ctx.1 >= n || ctx.2 >= n {
                return None;
            }
            let l = list.choices.len();
            let mut j: usize = 0;
            while j < l
                invariant
                    m == table@.len(),
                    n == symbols@.len(),
                    0 <= i < m,
                    l == list.choices@.len(),
                    list.choices@ == table@[i as int].1,
                    0 <= j <= l,
                    forall|q: int| 0 <= q < j ==> (#[trigger] list.choices@[q]).item < n,
                decreases l - j,
            {
                if list.choices[j].item >= n {
                    assert(table@[i as int].1[j as int].item >= n);
                    return None;
                }
                j = j + 1;
            }
            i = i + 1;
        }
        Some(Chain { symbols, table })
    }

    /// The symbol table.
    pub fn symbols(&self) -> (r: &SymbolTable)
        ensures
            r@ == self@.names,
            self.wf() ==> r.wf(),
    {
        &self.symbols
    }

    /// The transition table.
    pub fn table(&self) -> (r: &TransitionTable)
        ensures
            r@ == self@.table,
            self.wf() ==> r.wf(),
    {
        &self.table
    }

    /// One more observation of `next` after the three words of `context`.
    /// Each word is interned first; the empty word is the sentinel.
    pub fn record(&mut self, context: (&str, &str, &str), next: &str)
        requires
            old(self).wf(),
        ensures
            final(self).wf(),
            final(self)@ == chain_record(old(self)@, (context.0@, context.1@, context.2@), next@),
    {
        proof {
            self.table.lemma_sum_fits();
        }
        if self.table.total() == u64::MAX {
            return;
        }
        let ghost t = self.table@;
        let a = self.symbols.intern(context.0);
        let b = self.symbols.intern(context.1);
        let c = self.symbols.intern(context.2);
        let d = self.symbols.intern(next);
        let ghost n = self.symbols@.len();
        let ctx = Context(a, b, c);
        self.table.record(ctx, d);
        proof {
            let nt = self.table@;
            assert(nt == record_spec(t, ctx, d));
            assert(ids_below(nt, n as int)) by {
                assert forall|i: int| #![trigger nt[i]] 0 <= i < nt.len() implies {
                    &&& nt[i].0.0 < n
                    &&& nt[i].0.1 < n
                    &&& nt[i].0.2 < n
                    &&& forall|j: int| 0 <= j < nt[i].1.len() ==> (#[trigger] nt[i].1[j]).item < n
                } by {
                    lemma_record_ids(t, ctx, d, n as int, i);
                }
            }
        }
    }

    /// The choices recorded after three words; `None` when a word is
    /// unknown or the context was never observed. The empty word stands for
    /// the sentinel.
    pub fn lookup(&self, context: (&str, &str, &str)) -> (r: Option<&ChoiceList>)
        requires
            self.wf(),
        ensures
            r is Some <==> (self@.names.contains(context.0@) && self@.names.contains(context.1@)
                && self@.names.contains(context.2@) && lookup_spec(
                self@.table,
                context_of(self@.names, (context.0@, context.1@, context.2@)),
            ) is Some),
            r matches Some(l) ==> lookup_spec(
                self@.table,
                context_of(self@.names, (context.0@, context.1@, context.2@)),
            ) == Some(l.choices@),
    {
        let a = self.symbols.find(&context.0.to_owned());
        let b = self.symbols.find(&context.1.to_owned());
        let c = self.symbols.find(&context.2.to_owned());
        match (a, b, c) {
            (Some(a), Some(b), Some(c)) => {
                proof {
                    lemma_id_of(self@.names, context.0@, a as int);
                    lemma_id_of(self@.names, context.1@, b as int);
                    lemma_id_of(self@.names, context.2@, c as int);
                }
                self.table.choices_of(Context(a, b, c))
            },
            _ => None,
        }
    }

    /// The word with id `id`, if there is one.
    pub fn name_of(&self, id: u64) -> (r: Option<&String>)
        ensures
            r is Some <==> id < self@.names.len(),
            r matches Some(s) ==> s@ == self@.names[id as int],
    {
        self.symbols.name_of(id)
    }

    /// Counts of words, non-empty contexts, choices and observations.
    pub fn stats(&self) -> (r: Stats)
        requires
            self.wf(),
        ensures
            r.vocabulary_size == self@.names.len() - 1,
            r.context_count == non_empty_count(self@.table),
            r.edge_count == edge_count(self@.table),
            r.total_observations == table_sum(self@.table),
    {
        let ghost t = self.table@;
        proof {
            self.table.lemma_sum_fits();
        }
        let m = self.table.len();
        let mut contexts: u64 = 0;
        let mut edges: u64 = 0;
        let mut i: usize = 0;
        while i < m
            invariant
                m == t.len(),
                t == self.table@,
                self.table.wf(),
                table_wf(t),
                table_sum(t) <= u64::MAX,
                0 <= i <= m,
                contexts == non_empty_count(t.take(i as int)),
                edges == edge_count(t.take(i as int)),
            decreases m - i,
        {
            proof {
                lemma_counts_prefix(t, i as int);
                lemma_counts(t.take(i as int + 1));
            }
            let (_, list) = self.table.entry(i);
            let l = list.choices.len();
            edges = edges + l as u64;
            if l > 0 {
                contexts = contexts + 1;
            }
            i = i + 1;
        }
        assert(t.take(m as int) =~= t);
        Stats {
            vocabulary_size: (self.symbols.len() - 1) as u64,
            context_count: contexts,
            edge_count: edges,
            total_observations: self.table.total(),
        }
    }

    /// Drops every context that holds no choice.
    pub fn prune_empty(&mut self)
        requires
            old(self).wf(),
        ensures
            final(self).wf(),
            final(self)@ == (ChainView { names: old(self)@.names, table: prune_spec(old(self)@.table) }),
    {
        let ghost t = self.table@;
        let ghost n = self.symbols@.len();
        self.table.prune_empty();
        proof {
            lemma_prune_ids(t, n as int);
        }
    }
}

/// The id that `w` has among `names`.
pub open spec fn id_of(names: Seq<Seq<char>>, w: Seq<char>) -> u64 {
    (choose|i: int| 0 <= i < names.len() && names[i] == w) as u64
}

/// The context of ids that three known words stand for.
pub open spec fn context_of(names: Seq<Seq<char>>, ws: Words3) -> Context {
    Context(id_of(names, ws.0), id_of(names, ws.1), id_of(names, ws.2))
}

proof fn lemma_id_of(names: Seq<Seq<char>>, w: Seq<char>, i: int)
    requires
        names_unique(names),
        0 <= i < names.len(),
        i <= u64::MAX,
        names[i] == w,
    ensures
        id_of(names, w) == i,
{
    let c = choose|k: int| 0 <= k < names.len() && names[k] == w;
    assert(names[c] == w);
}

proof fn lemma_record_ids(t: TableView, ctx: Context, d: u64, n: int, k: int)
    requires
        ids_below(t, n),
        ctx.0 < n && ctx.1 < n && ctx.2 < n && d < n,
        0 <= k < record_spec(t, ctx, d).len(),
    ensures
        ({
            let nt = record_spec(t, ctx, d);
            &&& nt[k].0.0 < n
            &&& nt[k].0.1 < n
            &&& nt[k].0.2 < n
            &&& forall|j: int| 0 <= j < nt[k].1.len() ==> (#[trigger] nt[k].1[j]).item < n
        }),
{
    let nt = record_spec(t, ctx, d);
    if k < t.len() {
        assert(t[k].0.0 < n);
    }
    if crate::table::has_context(t, ctx) {
        let p = crate::table::ctx_pos(t, ctx);
        assert(0 <= p < t.len() && t[p].0 == ctx);
        assert(nt == t.update(p, (ctx, crate::table::record_choices(t[p].1, d))));
        if k == p {
            let cs = t[p].1;
            assert forall|j: int| 0 <= j < nt[k].1.len() implies (#[trigger] nt[k].1[j]).item < n by {
                if j < cs.len() {
                    assert(cs[j].item < n);
                }
            }
        } else {
            assert(nt[k] == t[k]);
        }
    } else if k < t.len() {
        assert(nt[k] == t[k]);
    } else {
        assert(nt[k].1 == seq![Choice { item: d, weight: 1 }]);
    }
}

proof fn lemma_prune_ids(t: TableView, n: int)
    requires
        ids_below(t, n),
    ensures
        ids_below(prune_spec(t), n),
    decreases t.len(),
{
    if t.len() > 0 {
        let d = t.drop_last();
        assert(ids_below(d, n)) by {
            assert forall|i: int| 0 <= i < d.len() implies #[trigger] d[i] == t[i] by {}
        }
        lemma_prune_ids(d, n);
        let p = prune_spec(d);
        if t.last().1.len() > 0 {
            let q = p.push(t.last());
            assert forall|i: int| 0 <= i < q.len() implies #[trigger] q[i] == (if i < p.len() { p[i] } else { t[t.len() - 1] }) by {}
        }
    }
}

/// The context of three sentinels, where generation starts.
pub open spec fn start_context() -> Context {
    Context(0, 0, 0)
}

/// True when `ctx` has at least one choice.
pub open spec fn can_continue(t: TableView, ctx: Context) -> bool {
    lookup_spec(t, ctx) matches Some(cs) && cs.len() > 0
}

/// True when each of `ids`, from `ctx` on, is a recorded choice of the
/// context that the words before it form.
pub open spec fn is_walk(t: TableView, ctx: Context, ids: Seq<u64>) -> bool
    decreases ids.len(),
{
    ids.len() == 0 || (lookup_spec(t, ctx) matches Some(cs) && has_item(cs, ids[0]) && is_walk(
        t,
        Context(ctx.1, ctx.2, ids[0]),
        ids.drop_first(),
    ))
}

/// The context after emitting `ids` from `ctx`.
pub open spec fn walk_end(ctx: Context, ids: Seq<u64>) -> Context
    decreases ids.len(),
{
    if ids.len() == 0 {
        ctx
    } else {
        walk_end(Context(ctx.1, ctx.2, ids[0]), ids.drop_first())
    }
}

/// The words of `ws` joined by single spaces.
pub open spec fn joined(ws: Seq<Seq<char>>) -> Seq<char>
    decreases ws.len(),
{
    if ws.len() == 0 {
        Seq::empty()
    } else if ws.len() == 1 {
        ws[0]
    } else {
        joined(ws.drop_last()) + seq![' '] + ws.last()
    }
}

proof fn lemma_walk_push(t: TableView, ctx: Context, ids: Seq<u64>, x: u64)
    requires
        is_walk(t, ctx, ids),
        lookup_spec(t, walk_end(ctx, ids)) matches Some(cs) && has_item(cs, x),
    ensures
        is_walk(t, ctx, ids.push(x)),
        walk_end(ctx, ids.push(x)) == Context(walk_end(ctx, ids).1, walk_end(ctx, ids).2, x),
    decreases ids.len(),
{
    if ids.len() == 0 {
        let q = ids.push(x);
        assert(q.drop_first() =~= Seq::<u64>::empty());
        assert(q[0] == x);
        assert(is_walk(t, Context(ctx.1, ctx.2, x), q.drop_first()));
        assert(walk_end(Context(ctx.1, ctx.2, x), q.drop_first()) == Context(ctx.1, ctx.2, x));
    } else {
        let q = ids.push(x);
        assert(q.drop_first() =~= ids.drop_first().push(x));
        assert(q[0] == ids[0]);
        lemma_walk_push(t, Context(ctx.1, ctx.2, ids[0]), ids.drop_first(), x);
    }
}

proof fn lemma_walk_ids(t: TableView, n: int, ctx: Context, ids: Seq<u64>)
    requires
        table_wf(t),
        ids_below(t, n),
        is_walk(t, ctx, ids),
    ensures
        forall|k: int| 0 <= k < ids.len() ==> ids[k] < n,
    decreases ids.len(),
{
    if ids.len() > 0 {
        let cs = lookup_spec(t, ctx)->0;
        let p = crate::table::ctx_pos(t, ctx);
        assert(t[p].1 == cs);
        let j = choose|j: int| 0 <= j < cs.len() && cs[j].item == ids[0];
        assert(t[p].1[j].item < n);
        lemma_walk_ids(t, n, Context(ctx.1, ctx.2, ids[0]), ids.drop_first());
        assert forall|k: int| 0 <= k < ids.len() implies ids[k] < n by {
            if k > 0 {
                assert(ids[k] == ids.drop_first()[k - 1]);
            }
        }
    }
}

impl Chain {
    /// A weighted draw of the word that follows `ctx`; `None` when the
    /// context has no choice.
    pub fn sample(&self, ctx: Context, rng: &mut StdRng) -> (r: Option<u64>)
        requires
            self.wf(),
        ensures
            r is Some <==> can_continue(self@.table, ctx),
            r matches Some(x) ==> has_item(lookup_spec(self@.table, ctx)->0, x),
    {
        self.table.sample(ctx, rng)
    }

    /// Ids drawn one after another from the sentinel context, each context
    /// formed by the three words before: at most `max_words` of them, fewer
    /// only where a context has no continuation.
    pub fn walk(&self, max_words: usize, rng: &mut StdRng) -> (r: Vec<u64>)
        requires
            self.wf(),
        ensures
            r@.len() <= max_words,
            is_walk(self@.table, start_context(), r@),
            r@.len() < max_words ==> !can_continue(self@.table, walk_end(start_context(), r@)),
    {
        let mut ids: Vec<u64> = Vec::new();
        let mut ctx = Context(0, 0, 0);
        while ids.len() < max_words
            invariant
                self.wf(),
                ids@.len() <= max_words,
                is_walk(self@.table, start_context(), ids@),
                walk_end(start_context(), ids@) == ctx,
            decreases max_words - ids@.len(),
        {
            match self.sample(ctx, rng) {
                None => {
                    return ids;
                },
                Some(x) => {
                    proof {
                        lemma_walk_push(self@.table, start_context(), ids@, x);
                    }
                    ids.push(x);
                    ctx = Context(ctx.1, ctx.2, x);
                },
            }
        }
        ids
    }

    /// The words of a walk (see `walk`), in order.
    pub fn iterate(&self, max_words: usize, rng: &mut StdRng) -> (r: Vec<String>)
        requires
            self.wf(),
        ensures
            exists|ids: Seq<u64>|
                {
                    &&& ids.len() == r@.len()
                    &&& ids.len() <= max_words
                    &&& is_walk(self@.table, start_context(), ids)
                    &&& ids.len() < max_words ==> !can_continue(
                        self@.table,
                        walk_end(start_context(), ids),
                    )
                    &&& forall|k: int| 0 <= k < ids.len() ==> #[trigger] r@[k]@ == self@.names[ids[k] as int]
                },
    {
        let ids = self.walk(max_words, rng);
        proof {
            self.table.lemma_sum_fits();
            lemma_walk_ids(self@.table, self@.names.len() as int, start_context(), ids@);
        }
        let mut out: Vec<String> = Vec::new();
        let n = ids.len();
        let mut i: usize = 0;
        while i < n
            invariant
                self.wf(),
                n == ids@.len(),
                0 <= i <= n,
                out@.len() == i,
                forall|k: int| 0 <= k < n ==> ids@[k] < self@.names.len(),
                forall|k: int| 0 <= k < i ==> #[trigger] out@[k]@ == self@.names[ids@[k] as int],
            decreases n - i,
        {
            let name = self.symbols.name_of(ids[i]);
            match name {
                Some(s) => out.push(s.clone()),
                None => out.push(String::new()),
            }
            i = i + 1;
        }
        out
    }

    /// The words of a walk (see `walk`) joined by single spaces.
    pub fn generate_sequence(&self, max_words: usize, rng: &mut StdRng) -> (r: String)
        requires
            self.wf(),
        ensures
            exists|ws: Seq<Seq<char>>|
                {
                    &&& r@ == joined(ws)
                    &&& ws.len() <= max_words
                    &&& exists|ids: Seq<u64>|
                        {
                            &&& ids.len() == ws.len()
                            &&& is_walk(self@.table, start_context(), ids)
                            &&& ids.len() < max_words ==> !can_continue(
                                self@.table,
                                walk_end(start_context(), ids),
                            )
                            &&& forall|k: int| 0 <= k < ids.len() ==> #[trigger] ws[k] == self@.names[ids[k] as int]
                        }
                },
    {
        let words = self.iterate(max_words, rng);
        let r = join_words(&words);
        let ghost ws = crate::symbols::words_of(words@);
        assert(r@ == joined(ws));
        r
    }
}

/// The words of `words` joined by single spaces.
pub fn join_words(words: &Vec<String>) -> (r: String)
    ensures
        r@ == joined(crate::symbols::words_of(words@)),
{
    let ghost ws = crate::symbols::words_of(words@);
    let mut out = String::new();
    let n = words.len();
    let mut i: usize = 0;
    proof {
        reveal_strlit(" ");
    }
    while i < n
        invariant
            n == words@.len(),
            ws == crate::symbols::words_of(words@),
            0 <= i <= n,
            out@ == joined(ws.take(i as int)),
        decreases n - i,
    {
        proof {
            reveal_strlit(" ");
            let p = ws.take(i as int + 1);
            assert(p.drop_last() =~= ws.take(i as int));
            if i == 0 {
                assert(out@ =~= Seq::<char>::empty());
            }
        }
        if i > 0 {
            out.append(" ");
        }
        out.append(words[i].as_str());
        proof {
            if i == 0 {
                assert(out@ =~= ws.take(1)[0]);
            }
        }
        i = i + 1;
    }
    assert(ws.take(n as int) =~= ws);
    out
}

/// Recording into a chain lowers no weight: after `record`, every
/// (context, target) pair of ids has at least the weight it had before.
/// Ids already handed out keep their words, so this holds of words too.
pub proof fn chain_record_never_lowers(v: ChainView, ctx: Words3, next: Seq<char>, c2: Context, i2: u64)
    requires
        view_wf(v),
    ensures
        weight_of(chain_record(v, ctx, next).table, c2, i2) >= weight_of(v.table, c2, i2),
        chain_record(v, ctx, next).names.take(v.names.len() as int) == v.names,
{
    if table_sum(v.table) < u64::MAX {
        let (n1, a) = intern_spec(v.names, ctx.0);
        let (n2, b) = intern_spec(n1, ctx.1);
        let (n3, c) = intern_spec(n2, ctx.2);
        let (n4, d) = intern_spec(n3, next);
        record_never_lowers(v.table, Context(a as u64, b as u64, c as u64), d as u64, c2, i2);
        lemma_intern_prefix(v.names, ctx.0);
        lemma_intern_prefix(n1, ctx.1);
        lemma_intern_prefix(n2, ctx.2);
        lemma_intern_prefix(n3, next);
        assert(n4.take(v.names.len() as int) =~= v.names);
    } else {
        assert(v.names.take(v.names.len() as int) =~= v.names);
    }
}

proof fn lemma_intern_prefix(names: Seq<Seq<char>>, w: Seq<char>)
    ensures
        intern_spec(names, w).0.len() >= names.len(),
        intern_spec(names, w).0.take(names.len() as int) == names,
{
    assert(intern_spec(names, w).0.take(names.len() as int) =~= names);
}

proof fn lemma_intern_wf(names: Seq<Seq<char>>, w: Seq<char>)
    requires
        names.len() >= 1,
        names[0] == Seq::<char>::empty(),
        names_unique(names),
    ensures
        ({
            let (n2, i) = intern_spec(names, w);
            &&& n2.len() >= names.len()
            &&& n2[0] == Seq::<char>::empty()
            &&& names_unique(n2)
            &&& 0 <= i < n2.len()
        }),
{
    crate::symbols::intern_is_stable(names, w);
    let (n2, i) = intern_spec(names, w);
    if names.contains(w) {
        let k = choose|k: int| 0 <= k < names.len() && names[k] == w;
        assert(names[k] == w);
    } else {
        assert(n2[0] == names[0]);
        assert forall|a: int, b: int|
            0 <= a < n2.len() && 0 <= b < n2.len() && a != b implies n2[a] != n2[b] by {
            if a == names.len() {
                assert(n2[b] == names[b]);
            } else if b == names.len() {
                assert(n2[a] == names[a]);
            }
        }
    }
}

proof fn lemma_ids_below_grow(t: TableView, n: int, m: int)
    requires
        ids_below(t, n),
        n <= m,
    ensures
        ids_below(t, m),
{
}

/// Recording keeps a chain view well formed.
pub proof fn chain_record_wf(v: ChainView, ctx: Words3, next: Seq<char>)
    requires
        view_wf(v),
    ensures
        view_wf(chain_record(v, ctx, next)),
{
    if table_sum(v.table) < u64::MAX {
        let (n1, a) = intern_spec(v.names, ctx.0);
        let (n2, b) = intern_spec(n1, ctx.1);
        let (n3, c) = intern_spec(n2, ctx.2);
        let (n4, d) = intern_spec(n3, next);
        lemma_intern_wf(v.names, ctx.0);
        lemma_intern_wf(n1, ctx.1);
        lemma_intern_wf(n2, ctx.2);
        lemma_intern_wf(n3, next);
        let k = Context(a as u64, b as u64, c as u64);
        record_spec_wf(v.table, k, d as u64);
        lemma_ids_below_grow(v.table, v.names.len() as int, n4.len() as int);
        let nt = record_spec(v.table, k, d as u64);
        assert forall|i: int| #![trigger nt[i]] 0 <= i < nt.len() implies {
            &&& nt[i].0.0 < n4.len()
            &&& nt[i].0.1 < n4.len()
            &&& nt[i].0.2 < n4.len()
            &&& forall|j: int| 0 <= j < nt[i].1.len() ==> (#[trigger] nt[i].1[j]).item < n4.len()
        } by {
            lemma_record_ids(v.table, k, d as u64, n4.len() as int, i);
        }
    }
}

/// The chain after recording each observation of `obs` in turn.
pub open spec fn record_all(v: ChainView, obs: Seq<(Words3, Seq<char>)>) -> ChainView
    decreases obs.len(),
{
    if obs.len() == 0 {
        v
    } else {
        record_all(chain_record(v, obs[0].0, obs[0].1), obs.drop_first())
    }
}

/// No sequence of observations lowers a weight: after recording all of
/// `obs`, every (context, target) pair of ids has at least the weight it
/// had before.
pub proof fn records_never_lower(v: ChainView, obs: Seq<(Words3, Seq<char>)>, c2: Context, i2: u64)
    requires
        view_wf(v),
    ensures
        view_wf(record_all(v, obs)),
        weight_of(record_all(v, obs).table, c2, i2) >= weight_of(v.table, c2, i2),
    decreases obs.len(),
{
    if obs.len() > 0 {
        let v1 = chain_record(v, obs[0].0, obs[0].1);
        chain_record_never_lowers(v, obs[0].0, obs[0].1, c2, i2);
        chain_record_wf(v, obs[0].0, obs[0].1);
        records_never_lower(v1, obs.drop_first(), c2, i2);
    }
}

} // verus!
