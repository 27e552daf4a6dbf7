//! Interning of words to dense ids.

use vstd::prelude::*;

verus! {

/// Id of the reserved "no word yet" token, held by the empty word.
pub const SENTINEL: u64 = 0;

/// The words that a vector of strings holds.
pub open spec fn words_of(v: Seq<String>) -> Seq<Seq<char>> {
    v.map_values(|s: String| s@)
}

/// True when no word occurs twice in `names`.
pub open spec fn names_unique(names: Seq<Seq<char>>) -> bool {
    forall|i: int, j: int|
        0 <= i < names.len() && 0 <= j < names.len() && i != j ==> names[i] != names[j]
}

/// The table after interning `w`, and the id that `w` has in it.
pub open spec fn intern_spec(names: Seq<Seq<char>>, w: Seq<char>) -> (Seq<Seq<char>>, int) {
    if names.contains(w) {
        (names, choose|i: int| 0 <= i < names.len() && names[i] == w)
    } else {
        (names.push(w), names.len() as int)
    }
}

/// Two-way mapping between words and ids. Id `i` names the word at position
/// `i`; position 0 holds the empty word, which stands for the sentinel.
pub struct SymbolTable {
    names: Vec<String>,
}

impl View for SymbolTable {
    type V = Seq<Seq<char>>;

    closed spec fn view(&self) -> Seq<Seq<char>> {
        words_of(self.names@)
    }
}

impl SymbolTable {
    pub open spec fn wf(&self) -> bool {
        &&& self@.len() >= 1
        &&& self@[0] == Seq::<char>::empty()
        &&& names_unique(self@)
    }

    /// A table that knows only the sentinel.
    pub fn new() -> (r: SymbolTable)
        ensures
            r.wf(),
            r@ == seq![Seq::<char>::empty()],
    {
        let mut names: Vec<String> = Vec::new();
        names.push(String::new());
        let r = SymbolTable { names };
        assert(r@ =~= seq![Seq::<char>::empty()]);
        r
    }

    /// Builds a table from words listed in id order; `None` unless the first
    /// word is empty and no word occurs twice.
    pub fn from_names(names: Vec<String>) -> (r: Option<SymbolTable>)
        ensures
            r is Some <==> (names@.len() >= 1 && names@[0]@ == Seq::<char>::empty()
                && names_unique(words_of(names@))),
            r matches Some(t) ==> t.wf() && t@ == words_of(names@),
    {
        let ghost v = words_of(names@);
        if names.len() == 0 || !names[0].as_str().is_empty() {
            return None;
        }
        assert(v[0] =~= Seq::<char>::empty());
        let n = names.len();
        let mut i: usize = 0;
        while i < n
            invariant
                n == names@.len(),
                v == words_of(names@),
                0 <= i <= n,
                forall|a: int, b: int| 0 <= a < i && 0 <= b < n && a != b ==> v[a] != v[b],
            decreases n - i,
        {
            let mut j: usize = 0;
            while j < n
                invariant
                    n == names@.len(),
                    v == words_of(names@),
                    0 <= i < n,
                    0 <= j <= n,
                    forall|a: int, b: int| 0 <= a < i && 0 <= b < n && a != b ==> v[a] != v[b],
                    forall|b: int| 0 <= b < j && b != i ==> v[i as int] != v[b],
                decreases n - j,
            {
                if j != i && names[i] == names[j] {
                    assert(v[i as int] == v[j as int]);
                    assert(!names_unique(v));
                    return None;
                }
                j = j + 1;
            }
            i = i + 1;
        }
        let r = SymbolTable { names };
        assert(r@ == v);
        assert(names_unique(v));
        Some(r)
    }

    /// Number of words held, the sentinel included.
    pub fn len(&self) -> (r: usize)
        ensures
            r == self@.len(),
    {
        self.names.len()
    }

    /// The words in id order.
    pub fn names(&self) -> (r: &Vec<String>)
        ensures
            words_of(r@) == self@,
    {
        &self.names
    }

    /// Position of `w`, if it is held.
    pub fn find(&self, w: &String) -> (r: Option<u64>)
        requires
            self.wf(),
        ensures
            r is Some <==> self@.contains(w@),
            r matches Some(i) ==> i < self@.len() && self@[i as int] == w@,
    {
        let n = self.names.len();
        let mut i: usize = 0;
        while i < n
            invariant
                n == self@.len(),
                0 <= i <= n,
                forall|k: int| 0 <= k < i ==> self@[k] != w@,
            decreases n - i,
        {
            if self.names[i] == *w {
                assert(self@[i as int] == w@);
                return Some(i as u64);
            }
            i = i + 1;
        }
        proof {
            if self@.contains(w@) {
                let k = choose|k: int| 0 <= k < self@.len() && self@[k] == w@;
                assert(self@[k] == w@);
            }
        }
        None
    }

    /// Id of `word`; a word not seen before gets the next unused id.
    pub fn intern(&mut self, word: &str) -> (r: u64)
        requires
            old(self).wf(),
        ensures
            final(self).wf(),
            (final(self)@, r as int) == intern_spec(old(self)@, word@),
            r < final(self)@.len(),
            final(self)@[r as int] == word@,
    {
        let w = word.to_owned();
        match self.find(&w) {
            Some(i) => {
                proof {
                    let c = choose|k: int| 0 <= k < self@.len() && self@[k] == word@;
                    assert(c == i as int);
                }
                i
            },
            None => {
                let id = self.names.len() as u64;
                self.names.push(w);
                proof {
                    let old_v = old(self)@;
                    assert(self@ =~= old_v.push(word@));
                    assert forall|a: int, b: int|
                        0 <= a < self@.len() && 0 <= b < self@.len() && a != b implies self@[a]
                        != self@[b] by {
                        if a == old_v.len() {
                            assert(old_v[b] == self@[b]);
                        } else if b == old_v.len() {
                            assert(old_v[a] == self@[a]);
                        }
                    }
                }
                id
            },
        }
    }

    /// The word with id `id`; `None` for an id never handed out.
    pub fn name_of(&self, id: u64) -> (r: Option<&String>)
        ensures
            r is Some <==> id < self@.len(),
            r matches Some(s) ==> s@ == self@[id as int],
    {
        if id < self.names.len() as u64 {
            Some(&self.names[id as usize])
        } else {
            None
        }
    }
}

/// Interning a word twice gives the same id and leaves the table as the
/// first call left it, and the id names the word it came from.
pub proof fn intern_is_stable(names: Seq<Seq<char>>, w: Seq<char>)
    requires
        names_unique(names),
    ensures
        intern_spec(intern_spec(names, w).0, w) == intern_spec(names, w),
        intern_spec(names, w).0[intern_spec(names, w).1] == w,
{
    let once = intern_spec(names, w);
    if names.contains(w) {
        let i = choose|i: int| 0 <= i < names.len() && names[i] == w;
        assert(names[i] == w);
    } else {
        let t = names.push(w);
        assert(t[names.len() as int] == w);
        assert(t.contains(w));
        let j = choose|j: int| 0 <= j < t.len() && t[j] == w;
        assert(t[j] == w);
        if j != names.len() {
            assert(names[j] == w);
            assert(names.contains(w));
        }
    }
}

} // verus!
