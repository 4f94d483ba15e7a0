//! Agent memory: a short-term store of recent observations and a long-term
//! store of committed knowledge whose strength decays.
//!
//! The strength of an entry is a value of the type parameter `S`; the
//! library moves strengths around and never computes with them, so the
//! arithmetic of decay (scaling and comparing strengths) is done by the
//! caller, which hands the decayed strengths and the verdicts to
//! `apply_decay`.
use vstd::prelude::*;

verus! {

/// A single memory entry with an associated strength.
#[derive(Debug, Clone)]
pub struct MemoryEntry<S> {
    pub key: String,
    pub value: String,
    pub strength: S,
}

/// What an entry holds, with its text fields taken as character sequences.
pub struct EntryView<S> {
    pub key: Seq<char>,
    pub value: Seq<char>,
    pub strength: S,
}

impl<S> View for MemoryEntry<S> {
    type V = EntryView<S>;

    open spec fn view(&self) -> EntryView<S> {
        EntryView { key: self.key@, value: self.value@, strength: self.strength }
    }
}

/// Agent memory split into short-term (recent observations) and long-term
/// (knowledge that persists but decays).
#[derive(Debug, Clone)]
pub struct AgentMemory<S> {
    pub short_term: Vec<MemoryEntry<S>>,
    pub long_term: Vec<MemoryEntry<S>>,
}

/// The two stores of a memory, oldest entry first.
pub struct MemoryView<S> {
    pub short_term: Seq<EntryView<S>>,
    pub long_term: Seq<EntryView<S>>,
}

pub open spec fn entries_view<S>(v: Seq<MemoryEntry<S>>) -> Seq<EntryView<S>> {
    v.map_values(|e: MemoryEntry<S>| e@)
}

impl<S> View for AgentMemory<S> {
    type V = MemoryView<S>;

    open spec fn view(&self) -> MemoryView<S> {
        MemoryView {
            short_term: entries_view(self.short_term@),
            long_term: entries_view(self.long_term@),
        }
    }
}

/// The index of the oldest entry with the given key, if there is one.
pub open spec fn first_with_key<S>(entries: Seq<EntryView<S>>, key: Seq<char>) -> Option<int>
    decreases entries.len(),
{
    if entries.len() == 0 {
        None
    } else {
        match first_with_key(entries.drop_last(), key) {
            Some(i) => Some(i),
            None => if entries.last().key == key {
                Some(entries.len() - 1)
            } else {
                None
            },
        }
    }
}

/// The memory after an observation is appended to the short-term store.
pub open spec fn observed<S>(m: MemoryView<S>, key: Seq<char>, value: Seq<char>, strength: S) -> MemoryView<S> {
    MemoryView {
        short_term: m.short_term.push(EntryView { key, value, strength }),
        long_term: m.long_term,
    }
}

/// The memory after committing `key`, and whether an entry was committed:
/// the oldest short-term entry with that key moves to the end of the
/// long-term store with the given strength; without such an entry nothing
/// changes.
pub open spec fn committed<S>(m: MemoryView<S>, key: Seq<char>, strength: S) -> (MemoryView<S>, bool) {
    match first_with_key(m.short_term, key) {
        Some(i) => (
            MemoryView {
                short_term: m.short_term.remove(i),
                long_term: m.long_term.push(
                    EntryView { key: m.short_term[i].key, value: m.short_term[i].value, strength },
                ),
            },
            true,
        ),
        None => (m, false),
    }
}

/// What recalling `key` gives: the value and strength of the oldest
/// short-term entry with that key, else of the oldest long-term one.
pub open spec fn recalled<S>(m: MemoryView<S>, key: Seq<char>) -> Option<(Seq<char>, S)> {
    match first_with_key(m.short_term, key) {
        Some(i) => Some((m.short_term[i].value, m.short_term[i].strength)),
        None => match first_with_key(m.long_term, key) {
            Some(j) => Some((m.long_term[j].value, m.long_term[j].strength)),
            None => None,
        },
    }
}

/// The entries flagged in `keep`, in their order, each with its strength
/// replaced by the one at the same position in `strengths`.
pub open spec fn kept<S>(entries: Seq<EntryView<S>>, strengths: Seq<S>, keep: Seq<bool>) -> Seq<EntryView<S>>
    decreases entries.len(),
{
    if entries.len() == 0 {
        Seq::empty()
    } else {
        let rest = kept(entries.drop_last(), strengths.drop_last(), keep.drop_last());
        if keep.last() {
            rest.push(
                EntryView {
                    key: entries.last().key,
                    value: entries.last().value,
                    strength: strengths.last(),
                },
            )
        } else {
            rest
        }
    }
}

/// The memory after a decay step: the short-term store is wiped when asked,
/// and the long-term store keeps the flagged entries with their new strengths.
pub open spec fn decayed<S>(m: MemoryView<S>, clear_short_term: bool, strengths: Seq<S>, keep: Seq<bool>) -> MemoryView<S> {
    MemoryView {
        short_term: if clear_short_term { Seq::empty() } else { m.short_term },
        long_term: kept(m.long_term, strengths, keep),
    }
}

/// The number of entries in both stores.
pub open spec fn size<S>(m: MemoryView<S>) -> nat {
    m.short_term.len() + m.long_term.len()
}

/// The first position in `entries` whose key is `key`.
fn position_of_key<S>(entries: &Vec<MemoryEntry<S>>, key: &String) -> (pos: Option<usize>)
    ensures
        pos is Some <==> first_with_key(entries_view(entries@), key@) is Some,
        pos matches Some(p) ==> first_with_key(entries_view(entries@), key@) == Some(p as int),
        pos matches Some(p) ==> p < entries@.len() && entries@[p as int].key@ == key@,
{
    proof {
        lemma_first_with_key_spec(entries_view(entries@), key@);
    }
    let mut i: usize = 0;
    while i < entries.len()
        invariant
            i <= entries@.len(),
            first_with_key(entries_view(entries@).take(i as int), key@) is None,
        decreases entries@.len() - i,
    {
        assert(entries_view(entries@).take(i + 1).drop_last() =~= entries_view(entries@).take(i as int));
        if entries[i].key == *key {
            proof {
                assert(first_with_key(entries_view(entries@).take(i + 1), key@) == Some(i as int));
                lemma_first_with_key_prefix(entries_view(entries@), key@, i + 1);
            }
            return Some(i);
        }
        i = i + 1;
    }
    assert(entries_view(entries@).take(i as int) =~= entries_view(entries@));
    None
}

/// The oldest entry with a key found within a prefix is the oldest in the
/// whole sequence.
proof fn lemma_first_with_key_prefix<S>(entries: Seq<EntryView<S>>, key: Seq<char>, n: int)
    requires
        0 <= n <= entries.len(),
        first_with_key(entries.take(n), key) is Some,
    ensures
        first_with_key(entries, key) == first_with_key(entries.take(n), key),
    decreases entries.len() - n,
{
    if n < entries.len() {
        assert(entries.take(n + 1).drop_last() =~= entries.take(n));
        lemma_first_with_key_prefix(entries, key, n + 1);
    } else {
        assert(entries.take(n) =~= entries);
    }
}

/// The oldest entry with a key does have that key, and no older one has it.
pub proof fn lemma_first_with_key_spec<S>(entries: Seq<EntryView<S>>, key: Seq<char>)
    ensures
        match first_with_key(entries, key) {
            Some(i) => 0 <= i < entries.len() && entries[i].key == key && forall|j: int|
                0 <= j < i ==> entries[j].key != key,
            None => forall|j: int| 0 <= j < entries.len() ==> entries[j].key != key,
        },
    decreases entries.len(),
{
    if entries.len() > 0 {
        let init = entries.drop_last();
        lemma_first_with_key_spec(init, key);
        assert forall|j: int| 0 <= j < init.len() implies init[j] == entries[j] by {}
    }
}

impl<S> AgentMemory<S> {
    /// An empty memory.
    pub fn new() -> (m: Self)
        ensures
            m@.short_term == Seq::<EntryView<S>>::empty(),
            m@.long_term == Seq::<EntryView<S>>::empty(),
    {
        let m = AgentMemory { short_term: Vec::new(), long_term: Vec::new() };
        assert(m@.short_term =~= Seq::<EntryView<S>>::empty());
        assert(m@.long_term =~= Seq::<EntryView<S>>::empty());
        m
    }

    /// Add an observation to short-term memory, with the given strength.
    pub fn observe(&mut self, key: &str, value: &str, strength: S)
        ensures
            final(self)@ == observed(old(self)@, key@, value@, strength),
    {
        let ghost start = self@;
        self.short_term.push(MemoryEntry { key: key.to_owned(), value: value.to_owned(), strength });
        assert(self@.short_term =~= observed(start, key@, value@, strength).short_term);
    }

    /// Commit a short-term memory into long-term memory with the given strength.
    ///
    /// Returns false if no short-term entry with that key exists.
    pub fn commit(&mut self, key: &str, strength: S) -> (found: bool)
        ensures
            (final(self)@, found) == committed(old(self)@, key@, strength),
    {
        let ghost start = self@;
        let wanted = key.to_owned();
        match position_of_key(&self.short_term, &wanted) {
            Some(pos) => {
                let entry = self.short_term.remove(pos);
                self.long_term.push(MemoryEntry { key: entry.key, value: entry.value, strength });
                assert(self@.short_term =~= start.short_term.remove(pos as int));
                assert(self@.long_term =~= committed(start, key@, strength).0.long_term);
                true
            },
            None => false,
        }
    }

    /// Recall a memory: checks short-term first, then long-term.
    /// Returns the value and current strength, or None if not found.
    pub fn recall(&self, key: &str) -> (r: Option<(&str, S)>)
        where S: Copy,
        ensures
            match recalled(self@, key@) {
                Some((v, s)) => r matches Some((rv, rs)) && rv@ == v && rs == s,
                None => r is None,
            },
    {
        let wanted = key.to_owned();
        if let Some(pos) = position_of_key(&self.short_term, &wanted) {
            let entry = &self.short_term[pos];
            return Some((entry.value.as_str(), entry.strength));
        }
        match position_of_key(&self.long_term, &wanted) {
            Some(pos) => {
                let entry = &self.long_term[pos];
                Some((entry.value.as_str(), entry.strength))
            },
            None => None,
        }
    }

    /// One decay step. If `clear_short_term` is true, short-term is wiped.
    /// Long-term entry `i` takes the strength `strengths[i]` (its decayed
    /// strength) and stays only if `keep[i]` holds (it is still strong enough).
    pub fn apply_decay(&mut self, clear_short_term: bool, strengths: Vec<S>, keep: Vec<bool>)
        where S: Copy,
        requires
            strengths@.len() == old(self).long_term@.len(),
            keep@.len() == old(self).long_term@.len(),
        ensures
            final(self)@ == decayed(old(self)@, clear_short_term, strengths@, keep@),
    {
        let ghost start = self@;
        if clear_short_term {
            self.short_term.clear();
        }
        let mut long_term: Vec<MemoryEntry<S>> = Vec::new();
        let n = self.long_term.len();
        let mut i: usize = 0;
        while i < n
            invariant
                n == self.long_term@.len(),
                n == strengths@.len(),
                n == keep@.len(),
                i <= n,
                self@.long_term == start.long_term,
                entries_view(long_term@) == kept(
                    start.long_term.take(i as int),
                    strengths@.take(i as int),
                    keep@.take(i as int),
                ),
            decreases n - i,
        {
            assert(start.long_term.take(i + 1).drop_last() =~= start.long_term.take(i as int));
            assert(strengths@.take(i + 1).drop_last() =~= strengths@.take(i as int));
            assert(keep@.take(i + 1).drop_last() =~= keep@.take(i as int));
            if keep[i] {
                let entry = &self.long_term[i];
                long_term.push(
                    MemoryEntry {
                        key: entry.key.clone(),
                        value: entry.value.clone(),
                        strength: strengths[i],
                    },
                );
                assert(entries_view(long_term@) =~= kept(
                    start.long_term.take(i + 1),
                    strengths@.take(i + 1),
                    keep@.take(i + 1),
                ));
            }
            i = i + 1;
        }
        assert(start.long_term.take(n as int) =~= start.long_term);
        assert(strengths@.take(n as int) =~= strengths@);
        assert(keep@.take(n as int) =~= keep@);
        self.long_term = long_term;
        assert(self@.short_term =~= decayed(start, clear_short_term, strengths@, keep@).short_term);
    }

    /// Total number of memories (short + long).
    pub fn len(&self) -> (n: usize)
        requires
            self.short_term@.len() + self.long_term@.len() <= usize::MAX,
        ensures
            n == size(self@),
    {
        self.short_term.len() + self.long_term.len()
    }

    /// Whether both stores are empty.
    pub fn is_empty(&self) -> (b: bool)
        ensures
            b == (size(self@) == 0),
    {
        self.short_term.is_empty() && self.long_term.is_empty()
    }
}

impl<S> Default for AgentMemory<S> {
    fn default() -> (m: Self)
        ensures
            m@.short_term == Seq::<EntryView<S>>::empty(),
            m@.long_term == Seq::<EntryView<S>>::empty(),
    {
        Self::new()
    }
}

/// The number of flags that are set.
pub open spec fn count_set(flags: Seq<bool>) -> nat
    decreases flags.len(),
{
    if flags.len() == 0 {
        0
    } else {
        count_set(flags.drop_last()) + if flags.last() { 1nat } else { 0nat }
    }
}

/// Recalling a key in an empty memory finds nothing.
pub proof fn lemma_empty_recalls_nothing<S>(key: Seq<char>)
    ensures
        recalled(MemoryView::<S> { short_term: Seq::empty(), long_term: Seq::empty() }, key) is None,
{
}

/// An observation can be recalled at once; it is what is recalled unless an
/// older short-term entry has the same key. Observing adds one entry.
pub proof fn lemma_observe_then_recall<S>(m: MemoryView<S>, key: Seq<char>, value: Seq<char>, strength: S)
    ensures
        recalled(observed(m, key, value, strength), key) is Some,
        first_with_key(m.short_term, key) is None ==> recalled(observed(m, key, value, strength), key)
            == Some((value, strength)),
        size(observed(m, key, value, strength)) == size(m) + 1,
{
    let e = EntryView { key, value, strength };
    assert(m.short_term.push(e).drop_last() =~= m.short_term);
}

/// A commit succeeds exactly when some short-term entry has the key; when it
/// fails the memory is unchanged.
pub proof fn lemma_commit_succeeds_iff_observed<S>(m: MemoryView<S>, key: Seq<char>, strength: S)
    ensures
        committed(m, key, strength).1 <==> exists|i: int|
            0 <= i < m.short_term.len() && #[trigger] m.short_term[i].key == key,
        !committed(m, key, strength).1 ==> committed(m, key, strength).0 == m,
{
    lemma_first_with_key_spec(m.short_term, key);
}

/// Committing moves an entry between the stores: the total count is
/// unchanged, and the committed key can still be recalled.
pub proof fn lemma_commit_moves_entry<S>(m: MemoryView<S>, key: Seq<char>, strength: S)
    ensures
        size(committed(m, key, strength).0) == size(m),
        committed(m, key, strength).1 ==> recalled(committed(m, key, strength).0, key) is Some,
{
    lemma_first_with_key_spec(m.short_term, key);
    if committed(m, key, strength).1 {
        let after = committed(m, key, strength).0;
        let last = after.long_term.len() - 1;
        assert(after.long_term[last].key == key);
        lemma_first_with_key_spec(after.long_term, key);
    }
}

/// A decay step wipes the short-term store exactly when asked to, and
/// otherwise leaves it alone.
pub proof fn lemma_decay_short_term<S>(m: MemoryView<S>, clear_short_term: bool, strengths: Seq<S>, keep: Seq<bool>)
    ensures
        clear_short_term ==> decayed(m, clear_short_term, strengths, keep).short_term.len() == 0,
        !clear_short_term ==> decayed(m, clear_short_term, strengths, keep).short_term == m.short_term,
{
}

/// A decay step keeps one long-term entry per set flag: none when no flag
/// is set, and every entry, in order and with its new strength, when all are.
pub proof fn lemma_decay_long_term<S>(entries: Seq<EntryView<S>>, strengths: Seq<S>, keep: Seq<bool>)
    requires
        strengths.len() == entries.len(),
        keep.len() == entries.len(),
    ensures
        kept(entries, strengths, keep).len() == count_set(keep),
        kept(entries, strengths, keep).len() <= entries.len(),
        (forall|i: int| 0 <= i < keep.len() ==> !keep[i]) ==> kept(entries, strengths, keep).len() == 0,
        (forall|i: int| 0 <= i < keep.len() ==> keep[i]) ==> {
            &&& kept(entries, strengths, keep).len() == entries.len()
            &&& forall|i: int|
                0 <= i < entries.len() ==> {
                    &&& (#[trigger] kept(entries, strengths, keep)[i]).key == entries[i].key
                    &&& kept(entries, strengths, keep)[i].value == entries[i].value
                    &&& kept(entries, strengths, keep)[i].strength == strengths[i]
                }
        },
    decreases entries.len(),
{
    if entries.len() > 0 {
        let (e0, s0, k0) = (entries.drop_last(), strengths.drop_last(), keep.drop_last());
        lemma_decay_long_term(e0, s0, k0);
        assert forall|i: int| 0 <= i < k0.len() implies k0[i] == keep[i] && e0[i] == entries[i]
            && s0[i] == strengths[i] by {}
    }
}

/// Observing appends exactly one entry, made of the given key, value and
/// strength, to the end of the short-term store; the entries already there
/// stay as they were and the long-term store is untouched.
pub proof fn lemma_observe_appends_to_short_term<S>(m: MemoryView<S>, key: Seq<char>, value: Seq<char>, strength: S)
    ensures
        observed(m, key, value, strength).long_term == m.long_term,
        observed(m, key, value, strength).short_term.len() == m.short_term.len() + 1,
        forall|i: int|
            0 <= i < m.short_term.len() ==> #[trigger] observed(m, key, value, strength).short_term[i]
                == m.short_term[i],
        observed(m, key, value, strength).short_term[m.short_term.len() as int] == (EntryView {
            key,
            value,
            strength,
        }),
{
}

/// Committing a key whose oldest short-term entry is at position `i` removes
/// that entry from the short-term store and appends to the long-term store
/// an entry with that key, that entry's value and the given strength; the
/// earlier long-term entries stay as they were.
pub proof fn lemma_commit_moves_oldest_entry<S>(m: MemoryView<S>, key: Seq<char>, strength: S, i: int)
    requires
        0 <= i < m.short_term.len(),
        m.short_term[i].key == key,
        forall|j: int| 0 <= j < i ==> (#[trigger] m.short_term[j]).key != key,
    ensures
        committed(m, key, strength).1,
        committed(m, key, strength).0.short_term == m.short_term.remove(i),
        committed(m, key, strength).0.long_term.len() == m.long_term.len() + 1,
        forall|k: int|
            0 <= k < m.long_term.len() ==> #[trigger] committed(m, key, strength).0.long_term[k]
                == m.long_term[k],
        committed(m, key, strength).0.long_term[m.long_term.len() as int] == (EntryView {
            key,
            value: m.short_term[i].value,
            strength,
        }),
{
    lemma_first_with_key_spec(m.short_term, key);
    let f = first_with_key(m.short_term, key);
    assert(f == Some(i)) by {
        if f.unwrap() < i {
            assert(m.short_term[f.unwrap()].key != key);
        }
        if f.unwrap() > i {
        }
    }
}

/// When the oldest short-term entry with the key is at position `i`, recall
/// gives that entry's value and strength.
pub proof fn lemma_recall_oldest_short_term<S>(m: MemoryView<S>, key: Seq<char>, i: int)
    requires
        0 <= i < m.short_term.len(),
        m.short_term[i].key == key,
        forall|j: int| 0 <= j < i ==> (#[trigger] m.short_term[j]).key != key,
    ensures
        recalled(m, key) == Some((m.short_term[i].value, m.short_term[i].strength)),
{
    lemma_first_with_key_spec(m.short_term, key);
    let f = first_with_key(m.short_term, key);
    assert(f == Some(i)) by {
        if f.unwrap() < i {
            assert(m.short_term[f.unwrap()].key != key);
        }
    }
}

/// When no short-term entry has the key and the oldest long-term entry with
/// it is at position `j`, recall gives that entry's value and strength.
pub proof fn lemma_recall_oldest_long_term<S>(m: MemoryView<S>, key: Seq<char>, j: int)
    requires
        forall|i: int| 0 <= i < m.short_term.len() ==> (#[trigger] m.short_term[i]).key != key,
        0 <= j < m.long_term.len(),
        m.long_term[j].key == key,
        forall|k: int| 0 <= k < j ==> (#[trigger] m.long_term[k]).key != key,
    ensures
        recalled(m, key) == Some((m.long_term[j].value, m.long_term[j].strength)),
{
    lemma_first_with_key_spec(m.short_term, key);
    lemma_first_with_key_spec(m.long_term, key);
    let f = first_with_key(m.long_term, key);
    assert(f == Some(j)) by {
        if f.unwrap() < j {
            assert(m.long_term[f.unwrap()].key != key);
        }
    }
}

/// Recall finds nothing exactly when no entry in either store has the key,
/// and whatever it finds is the value and strength of an entry with that key.
pub proof fn lemma_recall_comes_from_matching_entry<S>(m: MemoryView<S>, key: Seq<char>)
    ensures
        recalled(m, key) is None <==> (forall|i: int|
            0 <= i < m.short_term.len() ==> (#[trigger] m.short_term[i]).key != key) && (forall|j: int|
            0 <= j < m.long_term.len() ==> (#[trigger] m.long_term[j]).key != key),
        recalled(m, key) matches Some((v, s)) ==> (exists|i: int|
            0 <= i < m.short_term.len() && (#[trigger] m.short_term[i]).key == key
                && m.short_term[i].value == v && m.short_term[i].strength == s) || (exists|j: int|
            0 <= j < m.long_term.len() && (#[trigger] m.long_term[j]).key == key
                && m.long_term[j].value == v && m.long_term[j].strength == s),
{
    lemma_first_with_key_spec(m.short_term, key);
    lemma_first_with_key_spec(m.long_term, key);
    match first_with_key(m.short_term, key) {
        Some(i) => {
            assert(m.short_term[i].key == key);
        },
        None => {
            match first_with_key(m.long_term, key) {
                Some(j) => {
                    assert(m.long_term[j].key == key);
                },
                None => {},
            }
        },
    }
}

/// The entries kept by a decay step: as many as there are set flags, and
/// the entry at input position `i` (when flagged) lands at the position
/// given by the number of flags set before it, keeping its key and value and
/// taking the decayed strength `strengths[i]` of that same position.
pub proof fn lemma_decay_places_each_kept_entry<S>(
    m: MemoryView<S>,
    clear_short_term: bool,
    strengths: Seq<S>,
    keep: Seq<bool>,
)
    requires
        strengths.len() == m.long_term.len(),
        keep.len() == m.long_term.len(),
    ensures
        decayed(m, clear_short_term, strengths, keep).long_term.len() == count_set(keep),
        forall|i: int|
            0 <= i < keep.len() && #[trigger] keep[i] ==> {
                &&& count_set(keep.take(i)) < count_set(keep)
                &&& decayed(m, clear_short_term, strengths, keep).long_term[count_set(keep.take(i)) as int]
                    == (EntryView {
                    key: m.long_term[i].key,
                    value: m.long_term[i].value,
                    strength: strengths[i],
                })
            },
{
    lemma_kept_positions(m.long_term, strengths, keep);
}

proof fn lemma_kept_positions<S>(entries: Seq<EntryView<S>>, strengths: Seq<S>, keep: Seq<bool>)
    requires
        strengths.len() == entries.len(),
        keep.len() == entries.len(),
    ensures
        kept(entries, strengths, keep).len() == count_set(keep),
        forall|i: int|
            0 <= i < keep.len() && #[trigger] keep[i] ==> {
                &&& count_set(keep.take(i)) < count_set(keep)
                &&& kept(entries, strengths, keep)[count_set(keep.take(i)) as int] == (EntryView {
                    key: entries[i].key,
                    value: entries[i].value,
                    strength: strengths[i],
                })
            },
    decreases entries.len(),
{
    if entries.len() > 0 {
        let n = entries.len() - 1;
        let (e0, s0, k0) = (entries.drop_last(), strengths.drop_last(), keep.drop_last());
        lemma_kept_positions(e0, s0, k0);
        let rest = kept(e0, s0, k0);
        assert forall|i: int| 0 <= i < keep.len() && #[trigger] keep[i] implies {
            &&& count_set(keep.take(i)) < count_set(keep)
            &&& kept(entries, strengths, keep)[count_set(keep.take(i)) as int] == (EntryView {
                key: entries[i].key,
                value: entries[i].value,
                strength: strengths[i],
            })
        } by {
            if i < n {
                assert(k0.take(i) =~= keep.take(i));
                assert(k0[i] == keep[i]);
                assert(e0[i] == entries[i] && s0[i] == strengths[i]);
            } else {
                assert(keep.take(i) =~= k0);
            }
        }
    }
}

} // verus!
