//! The weighted transition table: for each three-word context, the words
//! seen after it and how often.

use vstd::prelude::*;
use vstd::pervasive::VecAdditionalExecFns;
use rand::rngs::StdRng;
use crate::random::draw_below;

verus! {

/// Three ids, oldest first: the words that precede a choice.
#[derive(Clone, Copy, Debug, PartialEq, Eq, Structural)]
pub struct Context(pub u64, pub u64, pub u64);

/// A word that followed some context, and how many times it did.
#[derive(Clone, Copy, Debug, PartialEq, Eq, Structural)]
pub struct Choice {
    pub item: u64,
    pub weight: u64,
}

/// Sum of the weights of `cs`.
pub open spec fn choice_sum(cs: Seq<Choice>) -> int
    decreases cs.len(),
{
    if cs.len() == 0 {
        0
    } else {
        choice_sum(cs.drop_last()) + cs.last().weight
    }
}

/// No target occurs twice, and each weight is positive.
pub open spec fn choices_wf(cs: Seq<Choice>) -> bool {
    &&& forall|i: int, j: int|
        0 <= i < cs.len() && 0 <= j < cs.len() && i != j ==> cs[i].item != cs[j].item
    &&& forall|i: int| 0 <= i < cs.len() ==> cs[i].weight > 0
}

/// True when `item` is the target of one of `cs`.
pub open spec fn has_item(cs: Seq<Choice>, item: u64) -> bool {
    exists|i: int| 0 <= i < cs.len() && cs[i].item == item
}

/// `cs` after one more observation of `item`.
pub open spec fn record_choices(cs: Seq<Choice>, item: u64) -> Seq<Choice> {
    if has_item(cs, item) {
        let i = item_pos(cs, item);
        cs.update(i, Choice { item, weight: (cs[i].weight + 1) as u64 })
    } else {
        cs.push(Choice { item, weight: 1 })
    }
}

/// The choices of `cs` in order, each with its weight.
pub struct ChoiceList {
    pub choices: Vec<Choice>,
}

/// A table as a sequence of (context, choices) entries.
pub type TableView = Seq<(Context, Seq<Choice>)>;

/// Sum of all weights of the table.
pub open spec fn table_sum(t: TableView) -> int
    decreases t.len(),
{
    if t.len() == 0 {
        0
    } else {
        table_sum(t.drop_last()) + choice_sum(t.last().1)
    }
}

/// Number of entries with at least one choice.
pub open spec fn non_empty_count(t: TableView) -> int
    decreases t.len(),
{
    if t.len() == 0 {
        0
    } else {
        non_empty_count(t.drop_last()) + if t.last().1.len() > 0 { 1int } else { 0int }
    }
}

/// Number of choices over all entries.
pub open spec fn edge_count(t: TableView) -> int
    decreases t.len(),
{
    if t.len() == 0 {
        0
    } else {
        edge_count(t.drop_last()) + t.last().1.len()
    }
}

/// True when `ctx` has an entry.
pub open spec fn has_context(t: TableView, ctx: Context) -> bool {
    exists|i: int| 0 <= i < t.len() && t[i].0 == ctx
}

/// The position of the entry of `ctx`, where it has one.
pub open spec fn ctx_pos(t: TableView, ctx: Context) -> int {
    choose|i: int| 0 <= i < t.len() && t[i].0 == ctx
}

/// The position of the choice for `item`, where there is one.
pub open spec fn item_pos(cs: Seq<Choice>, item: u64) -> int {
    choose|i: int| 0 <= i < cs.len() && cs[i].item == item
}

/// The choices recorded for `ctx`, if it has an entry.
pub open spec fn lookup_spec(t: TableView, ctx: Context) -> Option<Seq<Choice>> {
    if has_context(t, ctx) {
        Some(t[ctx_pos(t, ctx)].1)
    } else {
        None
    }
}

/// `t` after one more observation of `item` following `ctx`.
pub open spec fn record_spec(t: TableView, ctx: Context, item: u64) -> TableView {
    if has_context(t, ctx) {
        let i = ctx_pos(t, ctx);
        t.update(i, (ctx, record_choices(t[i].1, item)))
    } else {
        t.push((ctx, seq![Choice { item, weight: 1 }]))
    }
}

/// `t` without its entries that hold no choice, in the same order.
pub open spec fn prune_spec(t: TableView) -> TableView
    decreases t.len(),
{
    if t.len() == 0 {
        t
    } else if t.last().1.len() > 0 {
        prune_spec(t.drop_last()).push(t.last())
    } else {
        prune_spec(t.drop_last())
    }
}

/// No context has two entries, and every entry's choices are well formed.
pub open spec fn table_wf(t: TableView) -> bool {
    &&& forall|i: int, j: int|
        0 <= i < t.len() && 0 <= j < t.len() && i != j ==> t[i].0 != t[j].0
    &&& forall|i: int| 0 <= i < t.len() ==> choices_wf(#[trigger] t[i].1)
}

/// The view of a vector of entries.
pub open spec fn entries_view(v: Seq<(Context, ChoiceList)>) -> TableView {
    v.map_values(|e: (Context, ChoiceList)| (e.0, e.1.choices@))
}

proof fn lemma_choice_sum_update(cs: Seq<Choice>, i: int, c: Choice)
    requires
        0 <= i < cs.len(),
    ensures
        choice_sum(cs.update(i, c)) == choice_sum(cs) - cs[i].weight + c.weight,
    decreases cs.len(),
{
    let u = cs.update(i, c);
    if i == cs.len() - 1 {
        assert(u.drop_last() =~= cs.drop_last());
    } else {
        assert(u.drop_last() =~= cs.drop_last().update(i, c));
        lemma_choice_sum_update(cs.drop_last(), i, c);
    }
}

proof fn lemma_choice_sum_push(cs: Seq<Choice>, c: Choice)
    ensures
        choice_sum(cs.push(c)) == choice_sum(cs) + c.weight,
{
    assert(cs.push(c).drop_last() =~= cs);
}

proof fn lemma_choice_sum_prefix(cs: Seq<Choice>, k: int)
    requires
        0 <= k <= cs.len(),
    ensures
        0 <= choice_sum(cs.take(k)) <= choice_sum(cs),
        k < cs.len() ==> choice_sum(cs.take(k + 1)) == choice_sum(cs.take(k)) + cs[k].weight,
    decreases cs.len(),
{
    if k < cs.len() {
        assert(cs.take(k + 1).drop_last() =~= cs.take(k));
    }
    if cs.len() > 0 {
        if k == cs.len() {
            assert(cs.take(k) =~= cs);
            lemma_choice_sum_prefix(cs.drop_last(), 0);
        } else {
            assert(cs.take(k) =~= cs.drop_last().take(k));
            lemma_choice_sum_prefix(cs.drop_last(), k);
        }
    }
}

proof fn lemma_table_sum_update(t: TableView, i: int, e: (Context, Seq<Choice>))
    requires
        0 <= i < t.len(),
    ensures
        table_sum(t.update(i, e)) == table_sum(t) - choice_sum(t[i].1) + choice_sum(e.1),
    decreases t.len(),
{
    let u = t.update(i, e);
    if i == t.len() - 1 {
        assert(u.drop_last() =~= t.drop_last());
    } else {
        assert(u.drop_last() =~= t.drop_last().update(i, e));
        lemma_table_sum_update(t.drop_last(), i, e);
    }
}

proof fn lemma_table_sum_bounds(t: TableView, i: int)
    requires
        0 <= i < t.len(),
    ensures
        0 <= choice_sum(t[i].1) <= table_sum(t),
    decreases t.len(),
{
    lemma_choice_sum_prefix(t[i].1, 0);
    lemma_table_sum_nonneg(t.drop_last());
    lemma_choice_sum_prefix(t.last().1, 0);
    if i < t.len() - 1 {
        lemma_table_sum_bounds(t.drop_last(), i);
    }
}

pub proof fn lemma_table_sum_nonneg(t: TableView)
    ensures
        table_sum(t) >= 0,
    decreases t.len(),
{
    if t.len() > 0 {
        lemma_table_sum_nonneg(t.drop_last());
        lemma_choice_sum_prefix(t.last().1, 0);
    }
}

impl ChoiceList {
    /// Position of the choice for `item`.
    fn find_item(&self, item: u64) -> (r: Option<usize>)
        ensures
            r is Some <==> has_item(self.choices@, item),
            r matches Some(j) ==> j < self.choices@.len() && self.choices@[j as int].item == item,
    {
        let n = self.choices.len();
        let mut j: usize = 0;
        while j < n
            invariant
                n == self.choices@.len(),
                0 <= j <= n,
                forall|k: int| 0 <= k < j ==> self.choices@[k].item != item,
            decreases n - j,
        {
            if self.choices[j].item == item {
                return Some(j);
            }
            j = j + 1;
        }
        None
    }

    /// Sum of the weights.
    pub fn total(&self) -> (r: u64)
        requires
            choice_sum(self.choices@) <= u64::MAX,
        ensures
            r == choice_sum(self.choices@),
    {
        let n = self.choices.len();
        let mut acc: u64 = 0;
        let mut k: usize = 0;
        while k < n
            invariant
                n == self.choices@.len(),
                0 <= k <= n,
                acc == choice_sum(self.choices@.take(k as int)),
                choice_sum(self.choices@) <= u64::MAX,
            decreases n - k,
        {
            proof {
                lemma_choice_sum_prefix(self.choices@, k as int);
                lemma_choice_sum_prefix(self.choices@, k as int + 1);
            }
            acc = acc + self.choices[k].weight;
            k = k + 1;
        }
        assert(self.choices@.take(n as int) =~= self.choices@);
        acc
    }

    /// The target whose share of `[0, total)` holds `draw`: walking the
    /// choices in order, the first at which the running sum of weights
    /// passes `draw`.
    pub fn pick(&self, draw: u64) -> (r: u64)
        requires
            draw < choice_sum(self.choices@),
            choice_sum(self.choices@) <= u64::MAX,
        ensures
            exists|k: int|
                0 <= k < self.choices@.len() && choice_sum(self.choices@.take(k)) <= draw
                    < choice_sum(self.choices@.take(k + 1)) && r == self.choices@[k].item,
    {
        let ghost cs = self.choices@;
        let n = self.choices.len();
        let mut acc: u64 = 0;
        let mut k: usize = 0;
        while k < n
            invariant
                n == cs.len(),
                cs == self.choices@,
                0 <= k <= n,
                acc == choice_sum(cs.take(k as int)),
                acc <= draw,
                draw < choice_sum(cs),
                choice_sum(cs) <= u64::MAX,
            decreases n - k,
        {
            proof {
                lemma_choice_sum_prefix(cs, k as int);
                lemma_choice_sum_prefix(cs, k as int + 1);
            }
            let w = self.choices[k].weight;
            if draw - acc < w {
                return self.choices[k].item;
            }
            acc = acc + w;
            k = k + 1;
        }
        assert(cs.take(n as int) =~= cs);
        0
    }
}

/// Context -> weighted choices. Entries keep the order in which their
/// contexts were first seen; choices keep the order of their first
/// observation.
pub struct TransitionTable {
    entries: Vec<(Context, ChoiceList)>,
    total: u64,
}

impl View for TransitionTable {
    type V = TableView;

    closed spec fn view(&self) -> TableView {
        entries_view(self.entries@)
    }
}

impl TransitionTable {
    pub closed spec fn wf(&self) -> bool {
        &&& table_wf(self@)
        &&& self.total == table_sum(self@)
    }

    /// An empty table.
    pub fn new() -> (r: TransitionTable)
        ensures
            r.wf(),
            r@ == Seq::<(Context, Seq<Choice>)>::empty(),
    {
        let r = TransitionTable { entries: Vec::new(), total: 0 };
        assert(r@ =~= Seq::<(Context, Seq<Choice>)>::empty());
        r
    }

    /// Sum of all weights.
    pub fn total(&self) -> (r: u64)
        requires
            self.wf(),
        ensures
            r == table_sum(self@),
    {
        self.total
    }

    /// A well-formed table's weights sum to a `u64`.
    pub proof fn lemma_sum_fits(&self)
        requires
            self.wf(),
        ensures
            table_wf(self@),
            0 <= table_sum(self@) <= u64::MAX,
    {
        lemma_table_sum_nonneg(self@);
    }

    /// Position of the entry of `ctx`.
    fn position(&self, ctx: Context) -> (r: Option<usize>)
        requires
            self.wf(),
        ensures
            r is Some <==> has_context(self@, ctx),
            r matches Some(i) ==> i < self@.len() && self@[i as int].0 == ctx && i == ctx_pos(self@, ctx),
    {
        let n = self.entries.len();
        let mut i: usize = 0;
        while i < n
            invariant
                n == self@.len(),
                self.wf(),
                0 <= i <= n,
                forall|k: int| 0 <= k < i ==> self@[k].0 != ctx,
            decreases n - i,
        {
            if self.entries[i].0 == ctx {
                proof {
                    assert(self@[i as int].0 == ctx);
                    let c = ctx_pos(self@, ctx);
                    assert(0 <= c < self@.len() && self@[c].0 == ctx);
                    assert(self@[c].0 == self@[i as int].0);
                    assert(c == i as int);
                }
                return Some(i);
            }
            i = i + 1;
        }
        None
    }

    /// The choices recorded for `ctx`; `None` if it was never observed.
    pub fn choices_of(&self, ctx: Context) -> (r: Option<&ChoiceList>)
        requires
            self.wf(),
        ensures
            r is Some <==> lookup_spec(self@, ctx) is Some,
            r matches Some(l) ==> lookup_spec(self@, ctx) == Some(l.choices@),
    {
        match self.position(ctx) {
            Some(i) => Some(&self.entries[i].1),
            None => None,
        }
    }

    /// One more observation of `item` after `ctx`.
    pub fn record(&mut self, ctx: Context, item: u64)
        requires
            old(self).wf(),
            table_sum(old(self)@) < u64::MAX,
        ensures
            final(self).wf(),
            final(self)@ == record_spec(old(self)@, ctx, item),
            table_sum(final(self)@) == table_sum(old(self)@) + 1,
    {
        let ghost t = self@;
        match self.position(ctx) {
            Some(i) => {
                let mut entry = (ctx, ChoiceList { choices: Vec::new() });
                self.entries.set_and_swap(i, &mut entry);
                let ghost cs = entry.1.choices@;
                proof {
                    assert(t[i as int].1 == cs);
                    lemma_table_sum_bounds(t, i as int);
                }
                let pos = entry.1.find_item(item);
                if let Some(j) = pos {
                    proof {
                        assert(cs[j as int].item == item);
                        let c = item_pos(cs, item);
                        assert(c == j as int);
                        lemma_choice_sum_prefix(cs, 0);
                        assert(choice_sum(cs) <= table_sum(t));
                        lemma_choice_sum_update(cs, j as int, cs[j as int]);
                        assert(cs.update(j as int, cs[j as int]) =~= cs);
                        lemma_choice_sum_bound_elem(cs, j as int);
                    }
                    let old_c = entry.1.choices[j];
                    entry.1.choices.set(j, Choice { item, weight: old_c.weight + 1 });
                    proof {
                        lemma_choice_sum_update(cs, j as int, Choice { item, weight: (old_c.weight + 1) as u64 });
                    }
                } else {
                    proof {
                        lemma_choice_sum_push(cs, Choice { item, weight: 1 });
                    }
                    entry.1.choices.push(Choice { item, weight: 1 });
                }
                let ghost new_cs = entry.1.choices@;
                assert(choice_sum(new_cs) == choice_sum(cs) + 1);
                assert(choices_wf(new_cs));
                self.entries.set(i, entry);
                proof {
                    assert(new_cs == record_choices(cs, item));
                    assert(self@ =~= t.update(i as int, (ctx, new_cs)));
                    lemma_table_sum_update(t, i as int, (ctx, new_cs));
                    assert(table_sum(self@) == table_sum(t) + 1);
                    assert forall|a: int| 0 <= a < self@.len() implies choices_wf(#[trigger] self@[a].1) by {
                        if a != i {
                            assert(self@[a] == t[a]);
                        }
                    }
                    assert forall|a: int, b: int|
                        0 <= a < self@.len() && 0 <= b < self@.len() && a != b implies self@[a].0
                        != self@[b].0 by {
                        assert(self@[a].0 == t[a].0);
                        assert(self@[b].0 == t[b].0);
                    }
                }
            },
            None => {
                let mut choices: Vec<Choice> = Vec::new();
                choices.push(Choice { item, weight: 1 });
                self.entries.push((ctx, ChoiceList { choices }));
                proof {
                    assert(choices@ =~= seq![Choice { item, weight: 1 }]);
                    assert(self@ =~= t.push((ctx, seq![Choice { item, weight: 1 }])));
                    let s1 = seq![Choice { item, weight: 1 }];
                    assert(s1.drop_last() =~= Seq::<Choice>::empty());
                    assert(self@.drop_last() =~= t);
                    assert(choice_sum(Seq::<Choice>::empty()) == 0);
                    assert(choice_sum(s1) == choice_sum(s1.drop_last()) + 1);
                    assert(table_sum(self@) == table_sum(t) + 1);
                    assert forall|a: int| 0 <= a < self@.len() implies choices_wf(#[trigger] self@[a].1) by {
                        if a < t.len() {
                            assert(self@[a] == t[a]);
                        }
                    }
                    assert forall|a: int, b: int|
                        0 <= a < self@.len() && 0 <= b < self@.len() && a != b implies self@[a].0
                        != self@[b].0 by {
                        if a < t.len() {
                            assert(self@[a] == t[a]);
                        }
                        if b < t.len() {
                            assert(self@[b] == t[b]);
                        }
                    }
                }
            },
        }
        self.total = self.total + 1;
    }
}

proof fn lemma_choice_sum_bound_elem(cs: Seq<Choice>, j: int)
    requires
        0 <= j < cs.len(),
    ensures
        cs[j].weight <= choice_sum(cs),
{
    lemma_choice_sum_prefix(cs, j);
    lemma_choice_sum_prefix(cs, j + 1);
    lemma_choice_sum_prefix(cs, cs.len() as int);
}

proof fn lemma_prune_props(t: TableView)
    requires
        table_wf(t),
    ensures
        table_wf(prune_spec(t)),
        table_sum(prune_spec(t)) == table_sum(t),
        forall|k: int| 0 <= k < prune_spec(t).len() ==> t.contains(#[trigger] prune_spec(t)[k]),
        forall|k: int| 0 <= k < prune_spec(t).len() ==> (#[trigger] prune_spec(t)[k]).1.len() > 0,
    decreases t.len(),
{
    if t.len() > 0 {
        let d = t.drop_last();
        assert(table_wf(d)) by {
            assert forall|i: int| 0 <= i < d.len() implies choices_wf(#[trigger] d[i].1) by {
                assert(d[i] == t[i]);
            }
        }
        lemma_prune_props(d);
        let p = prune_spec(d);
        assert forall|k: int| 0 <= k < p.len() implies t.contains(#[trigger] p[k]) by {
            assert(d.contains(p[k]));
            let j = choose|j: int| 0 <= j < d.len() && d[j] == p[k];
            assert(t[j] == p[k]);
        }
        if t.last().1.len() > 0 {
            let q = p.push(t.last());
            assert(q.drop_last() =~= p);
            assert forall|k: int| 0 <= k < q.len() implies t.contains(#[trigger] q[k]) by {
                if k < p.len() {
                    assert(q[k] == p[k]);
                    assert(t.contains(p[k]));
                } else {
                    assert(t[t.len() - 1] == q[k]);
                }
            }
            assert forall|a: int, b: int|
                0 <= a < q.len() && 0 <= b < q.len() && a != b implies q[a].0 != q[b].0 by {
                if a < p.len() && b < p.len() {
                    assert(q[a] == p[a] && q[b] == p[b]);
                } else if a < p.len() {
                    assert(d.contains(p[a]));
                    let j = choose|j: int| 0 <= j < d.len() && d[j] == p[a];
                    assert(t[j] == d[j]);
                } else if b < p.len() {
                    assert(d.contains(p[b]));
                    let j = choose|j: int| 0 <= j < d.len() && d[j] == p[b];
                    assert(t[j] == d[j]);
                }
            }
            assert forall|a: int| 0 <= a < q.len() implies choices_wf(#[trigger] q[a].1) by {
                if a < p.len() {
                    assert(q[a] == p[a]);
                }
            }
        } else {
            assert(t.last().1 =~= Seq::<Choice>::empty());
        }
    }
}

/// Dropping the empty entries a second time changes nothing, and an entry
/// that holds a choice is never dropped.
pub proof fn prune_is_idempotent(t: TableView)
    ensures
        prune_spec(prune_spec(t)) == prune_spec(t),
        forall|i: int| 0 <= i < t.len() && (#[trigger] t[i]).1.len() > 0 ==> prune_spec(t).contains(t[i]),
    decreases t.len(),
{
    if t.len() > 0 {
        let d = t.drop_last();
        prune_is_idempotent(d);
        let p = prune_spec(d);
        if t.last().1.len() > 0 {
            let q = p.push(t.last());
            assert(q.drop_last() =~= p);
            assert(q.last() == t.last());
            assert forall|i: int| 0 <= i < t.len() && (#[trigger] t[i]).1.len() > 0 implies q.contains(t[i]) by {
                if i < d.len() {
                    assert(d[i] == t[i]);
                    assert(p.contains(d[i]));
                    let j = choose|j: int| 0 <= j < p.len() && p[j] == d[i];
                    assert(q[j] == p[j]);
                } else {
                    assert(q[q.len() - 1] == t[i]);
                }
            }
        } else {
            assert forall|i: int| 0 <= i < t.len() && (#[trigger] t[i]).1.len() > 0 implies p.contains(t[i]) by {
                assert(i < d.len());
                assert(d[i] == t[i]);
            }
        }
    }
}

impl TransitionTable {
    /// Drops every entry that holds no choice; the rest keep their order.
    pub fn prune_empty(&mut self)
        requires
            old(self).wf(),
        ensures
            final(self).wf(),
            final(self)@ == prune_spec(old(self)@),
    {
        let ghost t = self@;
        let mut src: Vec<(Context, ChoiceList)> = Vec::new();
        std::mem::swap(&mut self.entries, &mut src);
        let ghost orig = src@;
        let mut kept: Vec<(Context, ChoiceList)> = Vec::new();
        let n = src.len();
        let mut i: usize = 0;
        while i < n
            invariant
                n == src@.len(),
                t == entries_view(orig),
                orig.len() == n,
                0 <= i <= n,
                forall|k: int| i <= k < n ==> src@[k] == orig[k],
                entries_view(kept@) == prune_spec(t.take(i as int)),
            decreases n - i,
        {
            let mut e = (Context(0, 0, 0), ChoiceList { choices: Vec::new() });
            src.set_and_swap(i, &mut e);
            proof {
                assert(t.take(i as int + 1).drop_last() =~= t.take(i as int));
                assert(t[i as int] == (e.0, e.1.choices@));
            }
            if e.1.choices.len() > 0 {
                let ghost before = kept@;
                kept.push(e);
                proof {
                    assert(entries_view(kept@) =~= entries_view(before).push(t[i as int]));
                }
            }
            i = i + 1;
        }
        proof {
            assert(t.take(n as int) =~= t);
            lemma_prune_props(t);
        }
        self.entries = kept;
    }

    /// A weighted draw among the choices of `ctx`: `None` when it has no
    /// entry or no choice, otherwise one of its targets.
    pub fn sample(&self, ctx: Context, rng: &mut StdRng) -> (r: Option<u64>)
        requires
            self.wf(),
        ensures
            r is Some <==> (lookup_spec(self@, ctx) matches Some(cs) && cs.len() > 0),
            r matches Some(x) ==> has_item(lookup_spec(self@, ctx)->0, x),
    {
        match self.position(ctx) {
            None => None,
            Some(i) => {
                let list = &self.entries[i].1;
                if list.choices.len() == 0 {
                    return None;
                }
                proof {
                    lemma_table_sum_nonneg(self@);
                    lemma_table_sum_bounds(self@, i as int);
                    lemma_choice_sum_bound_elem(list.choices@, 0);
                }
                let total = list.total();
                let draw = draw_below(rng, total);
                let x = list.pick(draw);
                Some(x)
            },
        }
    }
}

impl TransitionTable {
    /// Number of entries.
    pub fn len(&self) -> (r: usize)
        ensures
            r == self@.len(),
    {
        self.entries.len()
    }

    /// The entry at position `i`.
    pub fn entry(&self, i: usize) -> (r: (Context, &ChoiceList))
        requires
            i < self@.len(),
        ensures
            r.0 == self@[i as int].0,
            r.1.choices@ == self@[i as int].1,
    {
        (self.entries[i].0, &self.entries[i].1)
    }
}

/// A table as plain tuples: three context ids, then (target, weight) pairs.
pub type RawTable = Seq<(u64, u64, u64, Seq<(u64, u64)>)>;

/// The table that plain tuples describe.
pub open spec fn raw_to_table(e: RawTable) -> TableView {
    e.map_values(
        |x: (u64, u64, u64, Seq<(u64, u64)>)|
            (Context(x.0, x.1, x.2), x.3.map_values(|p: (u64, u64)| Choice { item: p.0, weight: p.1 })),
    )
}

/// A table as plain tuples.
pub open spec fn table_to_raw(t: TableView) -> RawTable {
    t.map_values(
        |x: (Context, Seq<Choice>)|
            (x.0.0, x.0.1, x.0.2, x.1.map_values(|c: Choice| (c.item, c.weight))),
    )
}

/// The view of plain tuples held in vectors.
pub open spec fn raw_view(e: Seq<(u64, u64, u64, Vec<(u64, u64)>)>) -> RawTable {
    e.map_values(|x: (u64, u64, u64, Vec<(u64, u64)>)| (x.0, x.1, x.2, x.3@))
}

/// Turning a table into tuples and back gives the same table.
pub proof fn raw_round_trip(t: TableView)
    ensures
        raw_to_table(table_to_raw(t)) == t,
{
    let r = raw_to_table(table_to_raw(t));
    assert forall|i: int| 0 <= i < t.len() implies #[trigger] r[i] == t[i] by {
        assert(r[i].1 =~= t[i].1);
    }
    assert(r =~= t);
}

proof fn lemma_table_sum_prefix(t: TableView, k: int)
    requires
        0 <= k < t.len(),
    ensures
        table_sum(t.take(k + 1)) == table_sum(t.take(k)) + choice_sum(t[k].1),
        table_sum(t.take(k + 1)) <= table_sum(t),
        0 <= table_sum(t.take(k)),
    decreases t.len(),
{
    assert(t.take(k + 1).drop_last() =~= t.take(k));
    lemma_table_sum_nonneg(t.take(k));
    lemma_choice_sum_prefix(t[k].1, 0);
    if k + 1 == t.len() {
        assert(t.take(k + 1) =~= t);
    } else {
        lemma_table_sum_prefix(t.drop_last(), k);
        assert(t.drop_last().take(k + 1) =~= t.take(k + 1));
        assert(t.drop_last().take(k) =~= t.take(k));
        lemma_choice_sum_prefix(t.last().1, 0);
    }
}

impl TransitionTable {
    /// Builds a table from plain tuples; `None` unless no context occurs
    /// twice, no target occurs twice in one entry, every weight is
    /// positive and the weights sum to a `u64`.
    pub fn from_raw(raw: &Vec<(u64, u64, u64, Vec<(u64, u64)>)>) -> (r: Option<TransitionTable>)
        ensures
            r is Some <==> (table_wf(raw_to_table(raw_view(raw@))) && table_sum(
                raw_to_table(raw_view(raw@)),
            ) <= u64::MAX),
            r matches Some(t) ==> t.wf() && t@ == raw_to_table(raw_view(raw@)),
    {
        let ghost t = raw_to_table(raw_view(raw@));
        let n = raw.len();
        let mut entries: Vec<(Context, ChoiceList)> = Vec::new();
        let mut i: usize = 0;
        while i < n
            invariant
                n == raw@.len(),
                t == raw_to_table(raw_view(raw@)),
                0 <= i <= n,
                entries_view(entries@) == t.take(i as int),
            decreases n - i,
        {
            let e = &raw[i];
            let pairs = &e.3;
            let m = pairs.len();
            let mut choices: Vec<Choice> = Vec::new();
            let mut j: usize = 0;
            while j < m
                invariant
                    m == pairs@.len(),
                    pairs@ == raw@[i as int].3@,
                    0 <= j <= m,
                    choices@ == t[i as int].1.take(j as int),
                    t == raw_to_table(raw_view(raw@)),
                    0 <= i < n,
                    n == raw@.len(),
                decreases m - j,
            {
                let (item, weight) = pairs[j];
                choices.push(Choice { item, weight });
                proof {
                    assert(choices@ =~= t[i as int].1.take(j as int + 1));
                }
                j = j + 1;
            }
            let ghost before = entries@;
            proof {
                assert(t[i as int].1.take(m as int) =~= t[i as int].1);
                assert(t[i as int] == (Context(e.0, e.1, e.2), choices@));
            }
            entries.push((Context(e.0, e.1, e.2), ChoiceList { choices }));
            proof {
                assert(entries_view(entries@) =~= entries_view(before).push(t[i as int]));
                assert(entries_view(entries@) =~= t.take(i as int + 1));
            }
            i = i + 1;
        }
        assert(t.take(n as int) =~= t);
        let mut tab = TransitionTable { entries, total: 0 };
        assert(tab@ == t);
        // weights positive, targets unique per entry, and the running sum
        let mut acc: u64 = 0;
        let mut i: usize = 0;
        while i < n
            invariant
                t == raw_to_table(raw_view(raw@)),
                n == t.len(),
                tab@ == t,
                0 <= i <= n,
                acc == table_sum(t.take(i as int)),
                forall|k: int| 0 <= k < i ==> choices_wf(#[trigger] t[k].1),
            decreases n - i,
        {
            let (_, list) = tab.entry(i);
            let m = list.choices.len();
            let mut j: usize = 0;
            while j < m
                invariant
                    t == raw_to_table(raw_view(raw@)),
                    m == t[i as int].1.len(),
                    list.choices@ == t[i as int].1,
                    0 <= j <= m,
                    0 <= i < n,
                    n == t.len(),
                    forall|x: int| 0 <= x < j ==> t[i as int].1[x].weight > 0,
                    forall|x: int, y: int| 0 <= x < j && 0 <= y < m && x != y ==> t[i as int].1[x].item != t[i as int].1[y].item,
                decreases m - j,
            {
                if list.choices[j].weight == 0 {
                    assert(!choices_wf(t[i as int].1));
                    return None;
                }
                let mut q: usize = 0;
                while q < m
                    invariant
                        t == raw_to_table(raw_view(raw@)),
                        0 <= i < n,
                        n == t.len(),
                        m == t[i as int].1.len(),
                        list.choices@ == t[i as int].1,
                        0 <= j < m,
                        0 <= q <= m,
                        forall|y: int| 0 <= y < q && y != j ==> t[i as int].1[j as int].item != t[i as int].1[y].item,
                    decreases m - q,
                {
                    if q != j && list.choices[q].item == list.choices[j].item {
                        assert(t[i as int].1[q as int].item == t[i as int].1[j as int].item);
                        assert(!choices_wf(t[i as int].1));
                        return None;
                    }
                    q = q + 1;
                }
                j = j + 1;
            }
            proof {
                assert forall|x: int, y: int| 0 <= x < m && 0 <= y < m && x != y implies t[i as int].1[x].item != t[i as int].1[y].item by {
                    assert(t[i as int].1[x].item != t[i as int].1[y].item);
                }
                assert(choices_wf(t[i as int].1));
                lemma_table_sum_prefix(t, i as int);
                lemma_choice_sum_prefix(t[i as int].1, 0);
            }
            if list.choices.len() > 0 {
                let mut s: u64 = 0;
                let mut j: usize = 0;
                while j < m
                    invariant
                        t == raw_to_table(raw_view(raw@)),
                        0 <= i < n,
                        n == t.len(),
                        acc == table_sum(t.take(i as int)),
                        m == t[i as int].1.len(),
                        list.choices@ == t[i as int].1,
                        0 <= j <= m,
                        s == choice_sum(t[i as int].1.take(j as int)),
                        acc + s <= u64::MAX,
                    decreases m - j,
                {
                    proof {
                        lemma_choice_sum_prefix(t[i as int].1, j as int);
                        lemma_choice_sum_prefix(t[i as int].1, j as int + 1);
                    }
                    let w = list.choices[j].weight;
                    if w > u64::MAX - acc - s {
                        proof {
                            lemma_table_sum_prefix(t, i as int);
                            lemma_choice_sum_prefix(t[i as int].1, m as int);
                            assert(t[i as int].1.take(m as int) =~= t[i as int].1);
                        }
                        return None;
                    }
                    s = s + w;
                    j = j + 1;
                }
                assert(t[i as int].1.take(m as int) =~= t[i as int].1);
                acc = acc + s;
            }
            i = i + 1;
        }
        assert(t.take(n as int) =~= t);
        // contexts unique
        let mut i: usize = 0;
        while i < n
            invariant
                t == raw_to_table(raw_view(raw@)),
                n == t.len(),
                tab@ == t,
                0 <= i <= n,
                forall|x: int, y: int| 0 <= x < i && 0 <= y < n && x != y ==> t[x].0 != t[y].0,
            decreases n - i,
        {
            let (ci, _) = tab.entry(i);
            let mut q: usize = 0;
            while q < n
                invariant
                    t == raw_to_table(raw_view(raw@)),
                    n == t.len(),
                    tab@ == t,
                    0 <= i < n,
                    0 <= q <= n,
                    ci == t[i as int].0,
                    forall|y: int| 0 <= y < q && y != i ==> t[i as int].0 != t[y].0,
                decreases n - q,
            {
                let (cq, _) = tab.entry(q);
                if q != i && cq == ci {
                    assert(t[q as int].0 == t[i as int].0);
                    assert(!table_wf(t));
                    return None;
                }
                q = q + 1;
            }
            i = i + 1;
        }
        tab.total = acc;
        proof {
            assert forall|x: int, y: int| 0 <= x < n && 0 <= y < n && x != y implies t[x].0 != t[y].0 by {
                assert(t[x].0 != t[y].0);
            }
        }
        Some(tab)
    }
}

/// The weight of `item` after `ctx`; zero where it was never observed.
pub open spec fn weight_of(t: TableView, ctx: Context, item: u64) -> int {
    match lookup_spec(t, ctx) {
        Some(cs) => if has_item(cs, item) {
            cs[item_pos(cs, item)].weight as int
        } else {
            0
        },
        None => 0,
    }
}

proof fn lemma_record_choices_keeps(cs: Seq<Choice>, item: u64, i2: u64)
    requires
        choices_wf(cs),
        has_item(cs, i2),
        choice_sum(cs) < u64::MAX,
    ensures
        has_item(record_choices(cs, item), i2),
        record_choices(cs, item)[item_pos(record_choices(cs, item), i2)].weight >= cs[item_pos(
            cs,
            i2,
        )].weight,
{
    let rc = record_choices(cs, item);
    let q = item_pos(cs, i2);
    assert(0 <= q < cs.len() && cs[q].item == i2);
    if has_item(cs, item) {
        let j = item_pos(cs, item);
        assert(0 <= j < cs.len() && cs[j].item == item);
        lemma_choice_sum_bound_elem(cs, j);
        assert(rc[q].item == i2);
        let k = item_pos(rc, i2);
        assert(0 <= k < rc.len() && rc[k].item == i2);
        assert(rc[k].item == cs[k].item);
        assert(k == q);
    } else {
        assert(rc[q] == cs[q]);
        let k = item_pos(rc, i2);
        assert(0 <= k < rc.len() && rc[k].item == i2);
        if k == cs.len() {
            assert(rc[k].item == item);
        }
        assert(rc[k] == cs[k]);
        assert(k == q);
    }
}

/// One more observation lowers no weight: every (context, target) keeps
/// at least the weight it had.
pub proof fn record_never_lowers(t: TableView, ctx: Context, item: u64, c2: Context, i2: u64)
    requires
        table_wf(t),
        table_sum(t) < u64::MAX,
    ensures
        weight_of(record_spec(t, ctx, item), c2, i2) >= weight_of(t, c2, i2),
{
    let t2 = record_spec(t, ctx, item);
    if has_context(t, c2) {
        let pc = ctx_pos(t, c2);
        assert(0 <= pc < t.len() && t[pc].0 == c2);
        let cs = t[pc].1;
        if has_item(cs, i2) {
            assert(choices_wf(t[pc].1));
            if has_context(t, ctx) {
                let p = ctx_pos(t, ctx);
                assert(0 <= p < t.len() && t[p].0 == ctx);
                assert(t2[pc].0 == c2);
                let k = ctx_pos(t2, c2);
                assert(0 <= k < t2.len() && t2[k].0 == c2);
                assert(t2[k].0 == t[k].0);
                assert(k == pc);
                if pc == p {
                    lemma_table_sum_bounds(t, p);
                    lemma_record_choices_keeps(cs, item, i2);
                } else {
                    assert(t2[pc] == t[pc]);
                }
            } else {
                assert(t2[pc] == t[pc]);
                let k = ctx_pos(t2, c2);
                assert(0 <= k < t2.len() && t2[k].0 == c2);
                if k == t.len() {
                    assert(t2[k].0 == ctx);
                }
                assert(t2[k] == t[k]);
                assert(k == pc);
            }
        }
    }
}

/// Recording into a well-formed table whose weights sum below `u64::MAX`
/// keeps it well formed and adds one to the sum.
pub proof fn record_spec_wf(t: TableView, ctx: Context, item: u64)
    requires
        table_wf(t),
        table_sum(t) < u64::MAX,
    ensures
        table_wf(record_spec(t, ctx, item)),
        table_sum(record_spec(t, ctx, item)) == table_sum(t) + 1,
{
    let t2 = record_spec(t, ctx, item);
    if has_context(t, ctx) {
        let p = ctx_pos(t, ctx);
        assert(0 <= p < t.len() && t[p].0 == ctx);
        let cs = t[p].1;
        assert(choices_wf(cs));
        lemma_table_sum_bounds(t, p);
        let rc = record_choices(cs, item);
        if has_item(cs, item) {
            let j = item_pos(cs, item);
            assert(0 <= j < cs.len() && cs[j].item == item);
            lemma_choice_sum_bound_elem(cs, j);
            lemma_choice_sum_update(cs, j, Choice { item, weight: (cs[j].weight + 1) as u64 });
            assert forall|a: int, b: int|
                0 <= a < rc.len() && 0 <= b < rc.len() && a != b implies rc[a].item != rc[b].item by {
                assert(rc[a].item == cs[a].item && rc[b].item == cs[b].item);
            }
            assert forall|a: int| 0 <= a < rc.len() implies rc[a].weight > 0 by {
                if a != j {
                    assert(rc[a] == cs[a]);
                }
            }
        } else {
            lemma_choice_sum_push(cs, Choice { item, weight: 1 });
            assert forall|a: int, b: int|
                0 <= a < rc.len() && 0 <= b < rc.len() && a != b implies rc[a].item != rc[b].item by {
                if a < cs.len() && b < cs.len() {
                    assert(rc[a] == cs[a] && rc[b] == cs[b]);
                } else if a < cs.len() {
                    assert(rc[a] == cs[a]);
                } else if b < cs.len() {
                    assert(rc[b] == cs[b]);
                }
            }
            assert forall|a: int| 0 <= a < rc.len() implies rc[a].weight > 0 by {
                if a < cs.len() {
                    assert(rc[a] == cs[a]);
                }
            }
        }
        assert(choices_wf(rc));
        lemma_table_sum_update(t, p, (ctx, rc));
        assert forall|a: int| 0 <= a < t2.len() implies choices_wf(#[trigger] t2[a].1) by {
            if a != p {
                assert(t2[a] == t[a]);
            }
        }
        assert forall|a: int, b: int|
            0 <= a < t2.len() && 0 <= b < t2.len() && a != b implies t2[a].0 != t2[b].0 by {
            assert(t2[a].0 == t[a].0 && t2[b].0 == t[b].0);
        }
    } else {
        let s1 = seq![Choice { item, weight: 1 }];
        assert(s1.drop_last() =~= Seq::<Choice>::empty());
        assert(choice_sum(Seq::<Choice>::empty()) == 0);
        assert(choice_sum(s1) == choice_sum(s1.drop_last()) + 1);
        assert(t2.drop_last() =~= t);
        assert forall|a: int| 0 <= a < t2.len() implies choices_wf(#[trigger] t2[a].1) by {
            if a < t.len() {
                assert(t2[a] == t[a]);
            }
        }
        assert forall|a: int, b: int|
            0 <= a < t2.len() && 0 <= b < t2.len() && a != b implies t2[a].0 != t2[b].0 by {
            if a < t.len() {
                assert(t2[a] == t[a]);
            }
            if b < t.len() {
                assert(t2[b] == t[b]);
            }
        }
    }
}

} // verus!
