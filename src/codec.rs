//! Snapshots: a chain as bytes and back.
//!
//! A snapshot holds a format version, the words in id order (the sentinel
//! first), and each entry of the table as three context ids followed by
//! its (target, weight) pairs.

use vstd::prelude::*;
use crate::chain::{Chain, ChainView, view_wf};
use crate::symbols::{SymbolTable, words_of};
use crate::table::{
    RawTable, TransitionTable, lemma_table_sum_nonneg, raw_round_trip, raw_to_table, raw_view,
    table_to_raw,
};

verus! {

/// The format version that `save` writes and `load` accepts.
pub const SNAPSHOT_VERSION: u32 = 1;

/// The file that snapshots are kept in when no other is named.
pub fn filename() -> (r: &'static str)
    ensures
        r@ == "chains.markov"@,
{
    "chains.markov"
}

/// One table entry as plain values.
pub type RawEntry = (u64, u64, u64, Vec<(u64, u64)>);

/// Why a snapshot was not taken in.
#[derive(Clone, Copy, Debug, PartialEq, Eq, Structural)]
pub enum SnapshotError {
    /// The bytes do not decode: empty, cut short or malformed.
    Undecodable,
    /// The bytes were written in another format version.
    WrongVersion,
    /// The contents decode but break the chain's rules (duplicate words or
    /// contexts, zero weights, unknown ids, a missing sentinel).
    Inconsistent,
}

/// The bytes that encode a snapshot.
pub uninterp spec fn snapshot_bytes(version: u32, names: Seq<Seq<char>>, entries: RawTable) -> Seq<u8>;

/// Relies on `bincode::serialize` of a (version, words, entries) tuple: it
/// encodes exactly these values, and with no size limit and every length
/// known it does not fail on them.
#[verifier::external_body]
fn encode_snapshot(version: u32, names: &Vec<String>, entries: &Vec<RawEntry>) -> (r: Option<Vec<u8>>)
    ensures
        r is Some,
        r matches Some(b) ==> b@ == snapshot_bytes(version, words_of(names@), raw_view(entries@)),
{
    bincode::serialize(&(version, names, entries)).ok()
}

/// The view of a decoded (version, words, entries) tuple.
pub open spec fn decoded_view(x: (u32, Vec<String>, Vec<RawEntry>)) -> (u32, Seq<Seq<char>>, RawTable) {
    (x.0, words_of(x.1@), raw_view(x.2@))
}

/// Relies on `bincode::deserialize` of a (version, words, entries) tuple:
/// bytes that `bincode::serialize` wrote for some values decode to those
/// values; empty bytes, and bytes cut short from an encoding, run out
/// before the tuple is read and fail. Other bytes may decode to anything
/// or fail.
#[verifier::external_body]
fn decode_snapshot(bytes: &[u8]) -> (r: Option<(u32, Vec<String>, Vec<RawEntry>)>)
    ensures
        forall|v: u32, n: Seq<Seq<char>>, e: RawTable|
            #[trigger] snapshot_bytes(v, n, e) == bytes@ ==> r is Some && decoded_view(r->0) == (
                v,
                n,
                e,
            ),
        bytes@.len() == 0 ==> r is None,
        forall|v: u32, n: Seq<Seq<char>>, e: RawTable, k: int|
            0 <= k < snapshot_bytes(v, n, e).len() && #[trigger] snapshot_bytes(v, n, e).take(k)
                == bytes@ ==> r is None,
{
    bincode::deserialize(bytes).ok()
}

/// The chain that a snapshot's words and entries describe.
pub open spec fn snapshot_view(names: Seq<Seq<char>>, entries: RawTable) -> ChainView {
    ChainView { names, table: raw_to_table(entries) }
}

/// True when a snapshot's words and entries describe a chain.
pub open spec fn snapshot_valid(names: Seq<Seq<char>>, entries: RawTable) -> bool {
    view_wf(snapshot_view(names, entries))
}

/// The view of a chain that knows nothing.
pub open spec fn empty_view() -> ChainView {
    ChainView { names: seq![Seq::<char>::empty()], table: Seq::empty() }
}

/// A chain's own words and entries describe it again.
pub proof fn snapshot_round_trip(c: ChainView)
    requires
        view_wf(c),
    ensures
        snapshot_valid(c.names, table_to_raw(c.table)),
        snapshot_view(c.names, table_to_raw(c.table)) == c,
{
    raw_round_trip(c.table);
}

impl Chain {
    /// The words in id order and the entries as plain values.
    pub fn to_snapshot(&self) -> (r: (Vec<String>, Vec<RawEntry>))
        requires
            self.wf(),
        ensures
            words_of(r.0@) == self@.names,
            raw_view(r.1@) == table_to_raw(self@.table),
    {
        let names = self.symbols().names();
        let mut out_names: Vec<String> = Vec::new();
        let n = names.len();
        let mut i: usize = 0;
        while i < n
            invariant
                n == names@.len(),
                0 <= i <= n,
                words_of(out_names@) == words_of(names@).take(i as int),
            decreases n - i,
        {
            let w = names[i].clone();
            let ghost before = out_names@;
            out_names.push(w);
            proof {
                assert(w@ == words_of(names@)[i as int]);
                assert(words_of(out_names@) =~= words_of(before).push(w@));
                assert(words_of(out_names@) =~= words_of(names@).take(i as int + 1));
            }
            i = i + 1;
        }
        assert(words_of(names@).take(n as int) =~= words_of(names@));
        let table = self.table();
        let ghost t = self@.table;
        let ghost rt = table_to_raw(t);
        let m = table.len();
        let mut out: Vec<RawEntry> = Vec::new();
        let mut i: usize = 0;
        while i < m
            invariant
                m == t.len(),
                t == table@,
                rt == table_to_raw(t),
                0 <= i <= m,
                raw_view(out@) == rt.take(i as int),
            decreases m - i,
        {
            let (ctx, list) = table.entry(i);
            let k = list.choices.len();
            let mut pairs: Vec<(u64, u64)> = Vec::new();
            let mut j: usize = 0;
            while j < k
                invariant
                    k == list.choices@.len(),
                    list.choices@ == t[i as int].1,
                    rt == table_to_raw(t),
                    0 <= i < m,
                    m == t.len(),
                    0 <= j <= k,
                    pairs@ == rt[i as int].3.take(j as int),
                decreases k - j,
            {
                let c = list.choices[j];
                pairs.push((c.item, c.weight));
                proof {
                    assert(pairs@ =~= rt[i as int].3.take(j as int + 1));
                }
                j = j + 1;
            }
            proof {
                assert(rt[i as int].3.take(k as int) =~= rt[i as int].3);
            }
            let ghost before = out@;
            out.push((ctx.0, ctx.1, ctx.2, pairs));
            proof {
                assert(raw_view(out@) =~= raw_view(before).push(rt[i as int]));
                assert(raw_view(out@) =~= rt.take(i as int + 1));
            }
            i = i + 1;
        }
        assert(rt.take(m as int) =~= rt);
        (out_names, out)
    }

    /// The chain that a snapshot describes. `WrongVersion` for another
    /// format version; `Inconsistent` where the contents do not describe a
    /// chain.
    pub fn from_snapshot(version: u32, names: Vec<String>, entries: &Vec<RawEntry>) -> (r: Result<
        Chain,
        SnapshotError,
    >)
        ensures
            version != SNAPSHOT_VERSION ==> r matches Err(SnapshotError::WrongVersion),
            version == SNAPSHOT_VERSION ==> (r is Ok <==> snapshot_valid(
                words_of(names@),
                raw_view(entries@),
            )),
            version == SNAPSHOT_VERSION && !snapshot_valid(words_of(names@), raw_view(entries@))
                ==> r matches Err(SnapshotError::Inconsistent),
            r matches Ok(c) ==> c.wf() && c@ == snapshot_view(words_of(names@), raw_view(entries@)),
    {
        if version != SNAPSHOT_VERSION {
            return Err(SnapshotError::WrongVersion);
        }
        let ghost sv = snapshot_view(words_of(names@), raw_view(entries@));
        proof {
            lemma_table_sum_nonneg(sv.table);
        }
        let symbols = match SymbolTable::from_names(names) {
            Some(s) => s,
            None => {
                return Err(SnapshotError::Inconsistent);
            },
        };
        let table = match TransitionTable::from_raw(entries) {
            Some(t) => t,
            None => {
                return Err(SnapshotError::Inconsistent);
            },
        };
        match Chain::from_tables(symbols, table) {
            Some(c) => Ok(c),
            None => Err(SnapshotError::Inconsistent),
        }
    }

    /// The chain as snapshot bytes.
    pub fn save(&self) -> (r: Vec<u8>)
        requires
            self.wf(),
        ensures
            r@ == snapshot_bytes(SNAPSHOT_VERSION, self@.names, table_to_raw(self@.table)),
    {
        let (names, entries) = self.to_snapshot();
        match encode_snapshot(SNAPSHOT_VERSION, &names, &entries) {
            Some(b) => b,
            None => Vec::new(),
        }
    }

    /// The chain that snapshot bytes hold. Never fails: bytes that do not
    /// decode, or decode to another version or to contents that break the
    /// chain's rules, give an empty chain and the reason.
    pub fn load(bytes: &[u8]) -> (r: (Chain, Option<SnapshotError>))
        ensures
            r.0.wf(),
            r.1 is Some ==> r.0@ == empty_view(),
            forall|n: Seq<Seq<char>>, e: RawTable|
                #[trigger] snapshot_bytes(SNAPSHOT_VERSION, n, e) == bytes@ && snapshot_valid(n, e)
                    ==> r.1 is None && r.0@ == snapshot_view(n, e),
            forall|n: Seq<Seq<char>>, e: RawTable|
                #[trigger] snapshot_bytes(SNAPSHOT_VERSION, n, e) == bytes@ && !snapshot_valid(n, e)
                    ==> r.1 matches Some(SnapshotError::Inconsistent),
            forall|v: u32, n: Seq<Seq<char>>, e: RawTable|
                #[trigger] snapshot_bytes(v, n, e) == bytes@ && v != SNAPSHOT_VERSION ==> r.1 matches Some(
                    SnapshotError::WrongVersion,
                ),
            bytes@.len() == 0 ==> r.1 matches Some(SnapshotError::Undecodable),
            forall|v: u32, n: Seq<Seq<char>>, e: RawTable, k: int|
                0 <= k < snapshot_bytes(v, n, e).len() && #[trigger] snapshot_bytes(v, n, e).take(k)
                    == bytes@ ==> r.1 matches Some(SnapshotError::Undecodable),
    {
        match decode_snapshot(bytes) {
            None => (Chain::new(), Some(SnapshotError::Undecodable)),
            Some((version, names, entries)) => {
                match Chain::from_snapshot(version, names, &entries) {
                    Ok(c) => (c, None),
                    Err(e) => (Chain::new(), Some(e)),
                }
            },
        }
    }
}

} // verus!
