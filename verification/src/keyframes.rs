//! Parameter lookup, per-parameter loop modes, keyframe ordering and the
//! integer part of keyframe evaluation: which key or pair of keys a frame
//! falls on, and how far along the pair it is.

use vstd::prelude::*;
use crate::model::{
    first_index, lemma_first_index, lemma_first_index_at, lemma_first_index_none, Frame,
    Interpolation, Keyframe, LoopMode, Param, TimelineObject, Value,
};
use crate::order::{is_stable_order, lemma_stable_order_exists, precedes, stable_order, stable_order_of};
use crate::text::same_text;
use vstd::arithmetic::div_mod::{lemma_fundamental_div_mod, lemma_fundamental_div_mod_converse, lemma_mod_add_multiples_vanish};

verus! {

// ---------------------------------------------------------------------------
// Loop table
// ---------------------------------------------------------------------------

/// Per-parameter loop modes, a map from parameter name to mode.
#[derive(Debug)]
pub struct LoopTable {
    entries: Vec<(String, LoopMode)>,
}

/// No parameter has two entries.
pub open spec fn keys_distinct(entries: Seq<(String, LoopMode)>) -> bool {
    forall|i: int, j: int| 0 <= i < j < entries.len() ==> (#[trigger] entries[i]).0@ != (#[trigger] entries[j]).0@
}

impl LoopTable {
    #[verifier::type_invariant]
    spec fn entries_distinct(self) -> bool {
        keys_distinct(self.entries@)
    }
}

/// An entry for parameter `k`.
pub open spec fn entry_for(k: Seq<char>) -> spec_fn((String, LoopMode)) -> bool {
    |e: (String, LoopMode)| e.0@ == k
}

/// Position of the entry that holds the mode of parameter `k`.
pub open spec fn entry_index(entries: Seq<(String, LoopMode)>, k: Seq<char>) -> Option<int> {
    first_index(entries, entry_for(k))
}

proof fn lemma_set_entry(
    old: Seq<(String, LoopMode)>,
    i: int,
    e: (String, LoopMode),
    k: Seq<char>,
)
    requires
        0 <= i < old.len(),
        entry_index(old, e.0@) == Some(i),
    ensures
        entry_index(old.update(i, e), k) == (if k == e.0@ {
            Some(i)
        } else {
            entry_index(old, k)
        }),
{
    let ne = old.update(i, e);
    lemma_first_index(old, entry_for(k));
    lemma_first_index(old, entry_for(e.0@));
    if k == e.0@ {
        lemma_first_index_at(ne, entry_for(k), i);
    } else {
        match entry_index(old, k) {
            Some(x) => lemma_first_index_at(ne, entry_for(k), x),
            None => lemma_first_index_none(ne, entry_for(k)),
        }
    }
}

proof fn lemma_push_entry(old: Seq<(String, LoopMode)>, e: (String, LoopMode), k: Seq<char>)
    requires
        entry_index(old, e.0@) is None,
    ensures
        entry_index(old.push(e), k) == (if k == e.0@ {
            Some(old.len() as int)
        } else {
            entry_index(old, k)
        }),
{
    let ne = old.push(e);
    lemma_first_index(old, entry_for(k));
    lemma_first_index(old, entry_for(e.0@));
    if k == e.0@ {
        lemma_first_index_at(ne, entry_for(k), old.len() as int);
    } else {
        match entry_index(old, k) {
            Some(x) => lemma_first_index_at(ne, entry_for(k), x),
            None => lemma_first_index_none(ne, entry_for(k)),
        }
    }
}

impl View for LoopTable {
    type V = Map<Seq<char>, LoopMode>;

    closed spec fn view(&self) -> Map<Seq<char>, LoopMode> {
        table_map(self.entries@)
    }
}

/// The map that a list of entries stands for.
pub open spec fn table_map(entries: Seq<(String, LoopMode)>) -> Map<Seq<char>, LoopMode> {
    Map::new(
        |k: Seq<char>| entry_index(entries, k) is Some,
        |k: Seq<char>| entries[entry_index(entries, k)->0].1,
    )
}

proof fn lemma_table_map_insert(
    old: Seq<(String, LoopMode)>,
    new: Seq<(String, LoopMode)>,
    key: Seq<char>,
    mode: LoopMode,
    x: int,
)
    requires
        0 <= x < new.len(),
        new[x].1 == mode,
        forall|k: Seq<char>| #[trigger] entry_index(new, k) == (if k == key {
            Some(x)
        } else {
            entry_index(old, k)
        }),
        forall|k: Seq<char>| #![trigger entry_index(old, k)] k != key && entry_index(old, k) is Some ==> new[entry_index(old, k)->0] == old[entry_index(old, k)->0],
    ensures
        table_map(new) == table_map(old).insert(key, mode),
{
    let a = table_map(new);
    let b = table_map(old).insert(key, mode);
    assert forall|k: Seq<char>| a.dom().contains(k) == b.dom().contains(k) by {
        assert(entry_index(new, k) == (if k == key { Some(x) } else { entry_index(old, k) }));
    }
    assert forall|k: Seq<char>| a.dom().contains(k) implies a[k] == b[k] by {
        assert(entry_index(new, k) == (if k == key { Some(x) } else { entry_index(old, k) }));
    }
    assert(a =~= b);
}

impl LoopTable {
    /// An empty table.
    pub fn new() -> (t: LoopTable)
        ensures
            t@ == Map::<Seq<char>, LoopMode>::empty(),
    {
        let t = LoopTable { entries: Vec::new() };
        proof {
            assert forall|k: Seq<char>| !(#[trigger] t@.dom().contains(k)) by {
                lemma_first_index_none(t.entries@, entry_for(k));
            }
            assert(t@ =~= Map::<Seq<char>, LoopMode>::empty());
        }
        t
    }

    /// The mode of parameter `key`, if one is set.
    pub fn get(&self, key: &str) -> (m: Option<LoopMode>)
        ensures
            m == self@.get(key@),
    {
        let n = self.entries.len();
        let mut i: usize = 0;
        while i < n
            invariant
                n == self.entries@.len(),
                i <= n,
                forall|j: int| 0 <= j < i ==> (#[trigger] self.entries@[j]).0@ != key@,
            decreases n - i,
        {
            if same_text(self.entries[i].0.as_str(), key) {
                proof {
                    lemma_first_index_at(self.entries@, entry_for(key@), i as int);
                }
                return Some(self.entries[i].1);
            }
            i = i + 1;
        }
        proof {
            lemma_first_index_none(self.entries@, entry_for(key@));
        }
        None
    }

    /// A copy of the entries, entry by entry.
    fn modes_in_order(&self) -> (v: Vec<(String, LoopMode)>)
        ensures
            v@.len() == self.entries@.len(),
            forall|j: int| 0 <= j < v@.len() ==> (#[trigger] v@[j]).0@ == self.entries@[j].0@ && v@[j].1
                == self.entries@[j].1,
            keys_distinct(self.entries@) ==> keys_distinct(v@),
            table_map(v@) == table_map(self.entries@),
    {
        let n = self.entries.len();
        let mut v: Vec<(String, LoopMode)> = Vec::new();
        let mut i: usize = 0;
        while i < n
            invariant
                n == self.entries@.len(),
                i <= n,
                v@.len() == i,
                forall|j: int| 0 <= j < i ==> (#[trigger] v@[j]).0@ == self.entries@[j].0@ && v@[j].1
                    == self.entries@[j].1,
            decreases n - i,
        {
            v.push((self.entries[i].0.clone(), self.entries[i].1));
            i = i + 1;
        }
        proof {
            assert forall|k: Seq<char>| #[trigger] entry_index(v@, k) == entry_index(self.entries@, k) by {
                lemma_first_index(self.entries@, entry_for(k));
                match entry_index(self.entries@, k) {
                    Some(x) => {
                        assert(v@[x].0@ == k);
                        lemma_first_index_at(v@, entry_for(k), x);
                    },
                    None => {
                        assert forall|j: int| 0 <= j < v@.len() implies !(#[trigger] entry_for(k)(v@[j])) by {
                            assert(!entry_for(k)(self.entries@[j]));
                        }
                        lemma_first_index_none(v@, entry_for(k));
                    },
                }
            }
            assert forall|k: Seq<char>| #[trigger] table_map(v@).dom().contains(k) implies table_map(v@)[k]
                == table_map(self.entries@)[k] by {
                assert(entry_index(v@, k) == entry_index(self.entries@, k));
                lemma_first_index(v@, entry_for(k));
                let x = entry_index(v@, k)->0;
                assert(v@[x].1 == self.entries@[x].1);
            }
            assert forall|k: Seq<char>| #[trigger] table_map(v@).dom().contains(k) == table_map(
                self.entries@,
            ).dom().contains(k) by {
                assert(entry_index(v@, k) == entry_index(self.entries@, k));
            }
            assert(table_map(v@) =~= table_map(self.entries@));
            if keys_distinct(self.entries@) {
                assert forall|a: int, b: int| 0 <= a < b < v@.len() implies (#[trigger] v@[a]).0@ != (
                #[trigger] v@[b]).0@ by {
                    assert(self.entries@[a].0@ != self.entries@[b].0@);
                }
            }
        }
        v
    }

    /// The entries of the table, in the order their parameters were first
    /// set; each parameter has one entry.
    pub fn modes(&self) -> (v: Vec<(String, LoopMode)>)
        ensures
            table_map(v@) == self@,
            keys_distinct(v@),
    {
        proof {
            use_type_invariant(self);
        }
        self.modes_in_order()
    }

    /// Sets the mode of parameter `key`, returning the mode it had.
    pub fn insert(&mut self, key: String, mode: LoopMode) -> (prev: Option<LoopMode>)
        ensures
            final(self)@ == old(self)@.insert(key@, mode),
            prev == old(self)@.get(key@),
    {
        proof {
            use_type_invariant(&*self);
        }
        let mut entries: Vec<(String, LoopMode)> = Vec::new();
        std::mem::swap(&mut entries, &mut self.entries);
        let ghost old_entries = entries@;
        let ghost key_view = key@;
        let n = entries.len();
        let mut i: usize = 0;
        let mut found: Option<usize> = None;
        while i < n
            invariant_except_break
                found is None,
            invariant
                n == entries@.len(),
                entries@ == old_entries,
                i <= n,
                forall|j: int| 0 <= j < i ==> (#[trigger] entries@[j]).0@ != key@,
            ensures
                match found {
                    Some(x) => entry_index(old_entries, key@) == Some(x as int) && x < n,
                    None => entry_index(old_entries, key@) is None,
                },
            decreases n - i,
        {
            if same_text(entries[i].0.as_str(), key.as_str()) {
                proof {
                    lemma_first_index_at(old_entries, entry_for(key@), i as int);
                }
                found = Some(i);
                break;
            }
            i = i + 1;
        }
        proof {
            if found is None {
                lemma_first_index_none(old_entries, entry_for(key@));
            }
        }
        let prev = match found {
            Some(x) => {
                let prev = entries[x].1;
                entries.set(x, (key, mode));
                proof {
                    assert forall|k: Seq<char>| #[trigger] entry_index(entries@, k) == (if k == key_view {
                        Some(x as int)
                    } else {
                        entry_index(old_entries, k)
                    }) by {
                        lemma_set_entry(old_entries, x as int, (key, mode), k);
                    }
                    assert forall|k: Seq<char>| #![trigger entry_index(old_entries, k)] k != key_view && entry_index(old_entries, k) is Some implies entries@[entry_index(old_entries, k)->0] == old_entries[entry_index(old_entries, k)->0] by {
                        lemma_first_index(old_entries, entry_for(k));
                        lemma_first_index(old_entries, entry_for(key_view));
                    }
                    lemma_table_map_insert(old_entries, entries@, key_view, mode, x as int);
                    assert forall|a: int, b: int| 0 <= a < b < entries@.len() implies (#[trigger] entries@[a]).0@
                        != (#[trigger] entries@[b]).0@ by {
                        assert(old_entries[x as int].0@ == key_view);
                        if a != x && b != x {
                            assert(entries@[a] == old_entries[a] && entries@[b] == old_entries[b]);
                        } else if a == x {
                            assert(entries@[b] == old_entries[b]);
                        } else {
                            assert(entries@[a] == old_entries[a]);
                        }
                    }
                }
                Some(prev)
            },
            None => {
                entries.push((key, mode));
                proof {
                    assert forall|k: Seq<char>| #[trigger] entry_index(entries@, k) == (if k == key_view {
                        Some(n as int)
                    } else {
                        entry_index(old_entries, k)
                    }) by {
                        lemma_push_entry(old_entries, (key, mode), k);
                    }
                    assert forall|k: Seq<char>| #![trigger entry_index(old_entries, k)] k != key_view && entry_index(old_entries, k) is Some implies entries@[entry_index(old_entries, k)->0] == old_entries[entry_index(old_entries, k)->0] by {
                        lemma_first_index(old_entries, entry_for(k));
                    }
                    lemma_table_map_insert(old_entries, entries@, key_view, mode, n as int);
                    assert forall|a: int, b: int| 0 <= a < b < entries@.len() implies (#[trigger] entries@[a]).0@
                        != (#[trigger] entries@[b]).0@ by {
                        if b == n {
                            assert(entries@[a] == old_entries[a]);
                            lemma_first_index(old_entries, entry_for(key_view));
                            assert(!entry_for(key_view)(old_entries[a]));
                        } else {
                            assert(entries@[a] == old_entries[a] && entries@[b] == old_entries[b]);
                        }
                    }
                }
                None
            },
        };
        self.entries = entries;
        prev
    }
}

/// With no parameter entered twice, each entry holds its parameter's mode
/// and the table has as many parameters as entries.
proof fn lemma_distinct_map(entries: Seq<(String, LoopMode)>)
    requires
        keys_distinct(entries),
    ensures
        table_map(entries).dom().finite(),
        table_map(entries).dom().len() == entries.len(),
        forall|i: int| 0 <= i < entries.len() ==> entry_index(entries, (#[trigger] entries[i]).0@) == Some(i),
    decreases entries.len(),
{
    if entries.len() == 0 {
        assert forall|k: Seq<char>| !(#[trigger] table_map(entries).dom().contains(k)) by {
            lemma_first_index_none(entries, entry_for(k));
        }
        assert(table_map(entries).dom() =~= Set::<Seq<char>>::empty());
    } else {
        let pre = entries.drop_last();
        let e = entries.last();
        assert(entries =~= pre.push(e));
        assert(keys_distinct(pre)) by {
            assert forall|i: int, j: int| 0 <= i < j < pre.len() implies (#[trigger] pre[i]).0@ != (#[trigger] pre[j]).0@ by {
                assert(pre[i] == entries[i] && pre[j] == entries[j]);
            }
        }
        lemma_distinct_map(pre);
        assert forall|j: int| 0 <= j < pre.len() implies !(#[trigger] entry_for(e.0@)(pre[j])) by {
            assert(pre[j] == entries[j]);
        }
        lemma_first_index_none(pre, entry_for(e.0@));
        assert forall|k: Seq<char>| #[trigger] entry_index(entries, k) == (if k == e.0@ {
            Some(pre.len() as int)
        } else {
            entry_index(pre, k)
        }) by {
            lemma_push_entry(pre, e, k);
        }
        assert forall|k: Seq<char>| #![trigger entry_index(pre, k)] k != e.0@ && entry_index(pre, k) is Some implies entries[entry_index(pre, k)->0] == pre[entry_index(pre, k)->0] by {
            lemma_first_index(pre, entry_for(k));
        }
        lemma_table_map_insert(pre, entries, e.0@, e.1, pre.len() as int);
        assert(!table_map(pre).dom().contains(e.0@));
        assert forall|i: int| 0 <= i < entries.len() implies entry_index(entries, (#[trigger] entries[i]).0@) == Some(i) by {
            if i < pre.len() {
                assert(pre[i] == entries[i]);
                assert(entry_index(pre, pre[i].0@) == Some(i));
            }
        }
    }
}

impl Clone for LoopTable {
    fn clone(&self) -> (c: Self)
        ensures
            c@ == self@,
    {
        proof {
            use_type_invariant(self);
        }
        let v = self.modes_in_order();
        LoopTable { entries: v }
    }
}

impl PartialEq for LoopTable {
    fn eq(&self, other: &Self) -> (r: bool) {
        proof {
            use_type_invariant(self);
            use_type_invariant(other);
            lemma_distinct_map(self.entries@);
            lemma_distinct_map(other.entries@);
        }
        let n = self.entries.len();
        if n != other.entries.len() {
            return false;
        }
        let mut i: usize = 0;
        while i < n
            invariant
                n == self.entries@.len(),
                i <= n,
                forall|j: int| 0 <= j < self.entries@.len() ==> entry_index(self.entries@, (#[trigger] self.entries@[j]).0@) == Some(j),
                forall|j: int| 0 <= j < i ==> other@.get((#[trigger] self.entries@[j]).0@) == Some(self.entries@[j].1),
            decreases n - i,
        {
            let m = other.get(self.entries[i].0.as_str());
            if m != Some(self.entries[i].1) {
                proof {
                    let k = self.entries@[i as int].0@;
                    assert(self@.get(k) == Some(self.entries@[i as int].1));
                }
                return false;
            }
            i = i + 1;
        }
        proof {
            assert forall|k: Seq<char>| #[trigger] self@.dom().contains(k) implies other@.dom().contains(k) && other@[k] == self@[k] by {
                let j = entry_index(self.entries@, k)->0;
                lemma_first_index(self.entries@, entry_for(k));
                assert(self.entries@[j].0@ == k);
                assert(other@.get(self.entries@[j].0@) == Some(self.entries@[j].1));
            }
            vstd::set_lib::lemma_subset_equality(self@.dom(), other@.dom());
            assert(self@ =~= other@);
        }
        true
    }
}

impl vstd::std_specs::cmp::PartialEqSpecImpl for LoopTable {
    open spec fn obeys_eq_spec() -> bool {
        true
    }

    open spec fn eq_spec(&self, other: &LoopTable) -> bool {
        self@ == other@
    }
}

impl Default for LoopTable {
    fn default() -> (t: LoopTable)
        ensures
            t@ == Map::<Seq<char>, LoopMode>::empty(),
    {
        LoopTable::new()
    }
}

/// Reading a parameter's mode back gives the mode last set for it.
pub proof fn lemma_loop_table_insert_get(
    t: Map<Seq<char>, LoopMode>,
    key: Seq<char>,
    other: Seq<char>,
    mode: LoopMode,
)
    ensures
        t.insert(key, mode).get(key) == Some(mode),
        other != key ==> t.insert(key, mode).get(other) == t.get(other),
{
}

// ---------------------------------------------------------------------------
// Parameters and keys of an object
// ---------------------------------------------------------------------------

/// The value of the first parameter named `p`.
pub open spec fn base_value(o: TimelineObject, p: Seq<char>) -> Option<Value> {
    match first_index(o.params@, |q: Param| q.name@ == p) {
        Some(i) => Some(o.params@[i].value),
        None => None,
    }
}

/// The loop mode of parameter `p` (`Off` unless one is set).
pub open spec fn loop_mode_of(o: TimelineObject, p: Seq<char>) -> LoopMode {
    match o.loops@.get(p) {
        Some(m) => m,
        None => LoopMode::Off,
    }
}

/// The keyframes of parameter `p`, in their stored order.
pub open spec fn named_keys(keys: Seq<Keyframe>, p: Seq<char>) -> Seq<Keyframe> {
    keys.filter(|k: Keyframe| k.param@ == p)
}

pub open spec fn key_frames(keys: Seq<Keyframe>) -> Seq<i64> {
    keys.map_values(|k: Keyframe| k.frame)
}

/// Frames never decrease along the sequence.
pub open spec fn frames_sorted(keys: Seq<Keyframe>) -> bool {
    forall|i: int, j: int| 0 <= i <= j < keys.len() ==> (#[trigger] keys[i]).frame <= (#[trigger] keys[j]).frame
}

/// The keyframes of parameter `p`, stably sorted by frame.
pub open spec fn sorted_keys(keys: Seq<Keyframe>, p: Seq<char>) -> Seq<Keyframe> {
    let named = named_keys(keys, p);
    stable_order_of(key_frames(named)).map_values(|i: usize| named[i as int])
}

// ---------------------------------------------------------------------------
// Frame mapping
// ---------------------------------------------------------------------------

pub open spec fn fits_i64(x: int) -> bool {
    i64::MIN <= x <= i64::MAX
}

/// Where `frame` lands in the key range `[first, last]` under `mode`: clamped
/// (`Off`), wrapped with period `last - first` (`Loop`) or bounced back and
/// forth (`PingPong`). A range of one frame maps everything to `first`.
pub open spec fn mapped_frame(mode: LoopMode, frame: int, first: int, last: int) -> int {
    let period = last - first;
    if period <= 0 {
        first
    } else {
        match mode {
            LoopMode::Off => if frame < first {
                first
            } else if frame > last {
                last
            } else {
                frame
            },
            LoopMode::Loop => first + (frame - first) % period,
            LoopMode::PingPong => {
                let m = (frame - first) % (2 * period);
                if m <= period {
                    first + m
                } else {
                    last - (m - period)
                }
            },
        }
    }
}

/// The mapping's machine arithmetic stays within `i64`.
pub open spec fn mapping_fits(mode: LoopMode, frame: int, first: int, last: int) -> bool {
    &&& fits_i64(last - first)
    &&& (last - first > 0 ==> match mode {
        LoopMode::Off => true,
        LoopMode::Loop => fits_i64(frame - first),
        LoopMode::PingPong => fits_i64(frame - first) && fits_i64(2 * (last - first)),
    })
}

/// Euclidean remainder of `x` by a positive `p`.
fn rem_euclid(x: i64, p: i64) -> (r: i64)
    requires
        p > 0,
    ensures
        r == x % p,
        0 <= r < p,
{
    let r = x.checked_rem_euclid(p);
    match r {
        Some(v) => v,
        None => 0,
    }
}

// ---------------------------------------------------------------------------
// Evaluation
// ---------------------------------------------------------------------------

/// What a parameter evaluates to at a frame.
#[derive(Debug, Clone, PartialEq)]
pub enum Evaluation {
    /// The object has neither keys nor a base value: the caller's default applies.
    Default,
    /// This value, as is.
    Fixed(Value),
    /// From `from` towards `to` at `elapsed / span` of the way, eased by `interpolation`.
    Blend { from: Value, to: Value, interpolation: Interpolation, elapsed: i64, span: i64 },
}

/// Key `i` starts the segment holding frame `f`: keys `1..=i` are at or before
/// `f` and the next key, if any, is after it.
pub open spec fn segment_start(keys: Seq<Keyframe>, f: int, i: int) -> bool {
    &&& 0 <= i < keys.len()
    &&& forall|j: int| 1 <= j <= i ==> (#[trigger] keys[j]).frame <= f
    &&& i + 1 < keys.len() ==> keys[i + 1].frame > f
}

/// The evaluation at frame `f` of the segment starting at key `i`.
pub open spec fn evaluation_at(keys: Seq<Keyframe>, f: int, i: int) -> Evaluation {
    if i + 1 >= keys.len() {
        Evaluation::Fixed(keys[i].value)
    } else if keys[i + 1].frame <= keys[i].frame {
        Evaluation::Fixed(keys[i + 1].value)
    } else {
        match keys[i].interpolation {
            Interpolation::Hold => Evaluation::Fixed(keys[i].value),
            _ => Evaluation::Blend {
                from: keys[i].value,
                to: keys[i + 1].value,
                interpolation: keys[i].interpolation,
                elapsed: (f - keys[i].frame) as i64,
                span: (keys[i + 1].frame - keys[i].frame) as i64,
            },
        }
    }
}

/// What parameter `p` of `o` evaluates to at `frame`: without keys, its base
/// value (or the default); with keys, the segment holding the mapped frame.
pub open spec fn evaluation_of(o: TimelineObject, p: Seq<char>, frame: int) -> Evaluation {
    let keys = sorted_keys(o.keyframes@, p);
    if keys.len() == 0 {
        match base_value(o, p) {
            Some(v) => Evaluation::Fixed(v),
            None => Evaluation::Default,
        }
    } else {
        let f = mapped_frame(loop_mode_of(o, p), frame, keys[0].frame as int, keys.last().frame as int);
        evaluation_at(keys, f, choose|i: int| segment_start(keys, f, i))
    }
}

/// Evaluating `p` at `frame` stays within machine arithmetic.
pub open spec fn evaluation_fits(o: TimelineObject, p: Seq<char>, frame: int) -> bool {
    let keys = sorted_keys(o.keyframes@, p);
    keys.len() > 0 ==> mapping_fits(
        loop_mode_of(o, p),
        frame,
        keys[0].frame as int,
        keys.last().frame as int,
    )
}

/// A mapped frame lies within the key range.
pub proof fn lemma_mapped_frame_in_range(mode: LoopMode, frame: int, first: int, last: int)
    requires
        first <= last,
    ensures
        first <= mapped_frame(mode, frame, first, last) <= last,
{
    let period = last - first;
    if period > 0 {
        assert(0 <= (frame - first) % period < period);
        assert(0 <= (frame - first) % (2 * period) < 2 * period);
    }
}

/// There is only one segment start for a frame.
pub proof fn lemma_segment_start_unique(keys: Seq<Keyframe>, f: int, i: int, j: int)
    requires
        segment_start(keys, f, i),
        segment_start(keys, f, j),
    ensures
        i == j,
{
    if i < j {
        assert(keys[i + 1].frame <= f);
    } else if j < i {
        assert(keys[j + 1].frame <= f);
    }
}

impl TimelineObject {
    /// The value of the first parameter named `name`.
    pub fn param(&self, name: &str) -> (v: Option<&Value>)
        ensures
            v == (match first_index(self.params@, |q: Param| q.name@ == name@) {
                Some(i) => Some(&self.params@[i].value),
                None => None,
            }),
    {
        let n = self.params.len();
        let mut i: usize = 0;
        while i < n
            invariant
                n == self.params@.len(),
                i <= n,
                forall|j: int| 0 <= j < i ==> (#[trigger] self.params@[j]).name@ != name@,
            decreases n - i,
        {
            if same_text(self.params[i].name.as_str(), name) {
                proof {
                    lemma_first_index_at(self.params@, |q: Param| q.name@ == name@, i as int);
                }
                return Some(&self.params[i].value);
            }
            i = i + 1;
        }
        proof {
            lemma_first_index_none(self.params@, |q: Param| q.name@ == name@);
        }
        None
    }

    /// The loop mode of `param`; `Off` unless one is set.
    pub fn loop_mode(&self, param: &str) -> (m: LoopMode)
        ensures
            m == loop_mode_of(*self, param@),
    {
        match self.loops.get(param) {
            Some(m) => m,
            None => LoopMode::Off,
        }
    }

    /// Some keyframe belongs to `param`.
    pub fn has_keys(&self, param: &str) -> (b: bool)
        ensures
            b == exists|i: int|
                0 <= i < self.keyframes@.len() && (#[trigger] self.keyframes@[i]).param@ == param@,
    {
        let n = self.keyframes.len();
        let mut i: usize = 0;
        while i < n
            invariant
                n == self.keyframes@.len(),
                i <= n,
                forall|j: int| 0 <= j < i ==> (#[trigger] self.keyframes@[j]).param@ != param@,
            decreases n - i,
        {
            if same_text(self.keyframes[i].param.as_str(), param) {
                return true;
            }
            i = i + 1;
        }
        false
    }

    /// The keyframes of `param`, stably sorted by frame.
    pub fn keyframes_for(&self, param: &str) -> (ks: Vec<&Keyframe>)
        ensures
            ks@.len() == sorted_keys(self.keyframes@, param@).len(),
            forall|i: int| 0 <= i < ks@.len() ==> *ks@[i] == sorted_keys(self.keyframes@, param@)[i],
            frames_sorted(sorted_keys(self.keyframes@, param@)),
    {
        let ghost all = self.keyframes@;
        let ghost pred = |k: Keyframe| k.param@ == param@;
        let n = self.keyframes.len();
        let mut named: Vec<&Keyframe> = Vec::new();
        let mut i: usize = 0;
        while i < n
            invariant
                n == all.len(),
                all == self.keyframes@,
                pred == (|k: Keyframe| k.param@ == param@),
                i <= n,
                named@.len() == all.take(i as int).filter(pred).len(),
                forall|j: int| 0 <= j < named@.len() ==> *named@[j] == all.take(i as int).filter(pred)[j],
            decreases n - i,
        {
            proof {
                reveal_with_fuel(Seq::<Keyframe>::filter, 1);
                assert(all.take(i as int + 1).drop_last() =~= all.take(i as int));
            }
            let k = &self.keyframes[i];
            if same_text(k.param.as_str(), param) {
                named.push(k);
            }
            i = i + 1;
        }
        proof {
            assert(all.take(n as int) =~= all);
        }
        let ghost named_s = named_keys(all, param@);
        let m = named.len();
        let mut frames: Vec<i64> = Vec::new();
        let mut j: usize = 0;
        while j < m
            invariant
                m == named@.len(),
                named_s.len() == m,
                forall|x: int| 0 <= x < m ==> *named@[x] == named_s[x],
                j <= m,
                frames@ == key_frames(named_s).subrange(0, j as int),
            decreases m - j,
        {
            frames.push(named[j].frame);
            j = j + 1;
            assert(frames@ =~= key_frames(named_s).subrange(0, j as int));
        }
        assert(frames@ =~= key_frames(named_s));
        let order = stable_order(&frames);
        let mut out: Vec<&Keyframe> = Vec::new();
        let mut q: usize = 0;
        while q < m
            invariant
                m == named@.len(),
                named_s.len() == m,
                forall|x: int| 0 <= x < m ==> *named@[x] == named_s[x],
                is_stable_order(key_frames(named_s), order@),
                order@ == stable_order_of(key_frames(named_s)),
                q <= m,
                out@.len() == q,
                forall|x: int| 0 <= x < q ==> *out@[x] == named_s[order@[x] as int],
            decreases m - q,
        {
            out.push(named[order[q]]);
            q = q + 1;
        }
        proof {
            let sk = sorted_keys(all, param@);
            assert forall|a: int, b: int| 0 <= a <= b < sk.len() implies (#[trigger] sk[a]).frame
                <= (#[trigger] sk[b]).frame by {
                if a < b {
                    assert(crate::order::precedes(key_frames(named_s), order@[a] as int, order@[b] as int));
                }
            }
        }
        out
    }

    /// Maps `frame` into the key range `[first, last]` of `param` according to
    /// its loop mode.
    pub fn map_frame(&self, param: &str, frame: Frame, first: Frame, last: Frame) -> (f: Frame)
        requires
            first <= last,
            mapping_fits(loop_mode_of(*self, param@), frame as int, first as int, last as int),
        ensures
            f == mapped_frame(loop_mode_of(*self, param@), frame as int, first as int, last as int),
    {
        let period = last - first;
        if period <= 0 {
            return first;
        }
        match self.loop_mode(param) {
            LoopMode::Off => if frame < first {
                first
            } else if frame > last {
                last
            } else {
                frame
            },
            LoopMode::Loop => first + rem_euclid(frame - first, period),
            LoopMode::PingPong => {
                let m = rem_euclid(frame - first, period * 2);
                if m <= period {
                    first + m
                } else {
                    last - (m - period)
                }
            },
        }
    }

    /// Evaluates `param` at `frame`: without keys, its base value or the
    /// caller's default; with keys, the key or pair of keys the mapped frame
    /// falls on.
    pub fn evaluate(&self, param: &str, frame: Frame) -> (e: Evaluation)
        requires
            evaluation_fits(*self, param@, frame as int),
        ensures
            e == evaluation_of(*self, param@, frame as int),
    {
        let keys = self.keyframes_for(param);
        let ghost ks = sorted_keys(self.keyframes@, param@);
        if keys.len() == 0 {
            return match self.param(param) {
                Some(v) => Evaluation::Fixed(v.clone()),
                None => Evaluation::Default,
            };
        }
        let n = keys.len();
        let first = keys[0].frame;
        let last = keys[n - 1].frame;
        proof {
            assert(*keys@[0] == ks[0]);
            assert(*keys@[n - 1] == ks[n - 1]);
            assert(ks[0].frame <= ks[n - 1].frame);
        }
        let f = self.map_frame(param, frame, first, last);
        proof {
            lemma_mapped_frame_in_range(loop_mode_of(*self, param@), frame as int, first as int, last as int);
        }
        let mut idx: usize = 0;
        while idx + 1 < n && keys[idx + 1].frame <= f
            invariant
                n == keys@.len(),
                n == ks.len(),
                forall|x: int| 0 <= x < n ==> *keys@[x] == ks[x],
                frames_sorted(ks),
                first == ks[0].frame,
                last == ks[n - 1].frame,
                first <= f <= last,
                idx < n,
                forall|j: int| 1 <= j <= idx ==> (#[trigger] ks[j]).frame <= f,
            decreases n - idx,
        {
            idx = idx + 1;
        }
        proof {
            assert(segment_start(ks, f as int, idx as int));
            let c = choose|i: int| segment_start(ks, f as int, i);
            lemma_segment_start_unique(ks, f as int, idx as int, c);
        }
        if idx + 1 >= n {
            return Evaluation::Fixed(keys[idx].value.clone());
        }
        let k0 = keys[idx];
        let k1 = keys[idx + 1];
        if k1.frame <= k0.frame {
            return Evaluation::Fixed(k1.value.clone());
        }
        proof {
            // the mapped frame lies within the key range, so the segment
            // offsets fit in i64
            assert(*keys@[idx as int] == ks[idx as int]);
            assert(*keys@[idx + 1] == ks[idx + 1]);
            assert(ks[0].frame <= ks[idx as int].frame);
            assert(ks[idx + 1].frame <= ks[n - 1].frame);
        }
        match k0.interpolation {
            Interpolation::Hold => Evaluation::Fixed(k0.value.clone()),
            _ => Evaluation::Blend {
                from: k0.value.clone(),
                to: k1.value.clone(),
                interpolation: k0.interpolation,
                elapsed: f - k0.frame,
                span: k1.frame - k0.frame,
            },
        }
    }
}

// ---------------------------------------------------------------------------
// Laws of frame mapping and evaluation
// ---------------------------------------------------------------------------

/// Looping repeats with the period of the key range.
pub proof fn lemma_loop_is_periodic(frame: int, first: int, last: int)
    requires
        first < last,
    ensures
        mapped_frame(LoopMode::Loop, frame + (last - first), first, last) == mapped_frame(
            LoopMode::Loop,
            frame,
            first,
            last,
        ),
{
    lemma_mod_add_multiples_vanish(frame - first, last - first);
    assert(frame + (last - first) - first == (last - first) + (frame - first));
}

/// Ping-pong repeats with twice the period of the key range.
pub proof fn lemma_ping_pong_is_periodic(frame: int, first: int, last: int)
    requires
        first < last,
    ensures
        mapped_frame(LoopMode::PingPong, frame + 2 * (last - first), first, last) == mapped_frame(
            LoopMode::PingPong,
            frame,
            first,
            last,
        ),
{
    lemma_mod_add_multiples_vanish(frame - first, 2 * (last - first));
    assert(frame + 2 * (last - first) - first == 2 * (last - first) + (frame - first));
}

/// Ping-pong is symmetric around the first key: `t` frames before it looks
/// like `t` frames after it.
pub proof fn lemma_ping_pong_mirrors(t: int, first: int, last: int)
    requires
        first < last,
    ensures
        mapped_frame(LoopMode::PingPong, first - t, first, last) == mapped_frame(
            LoopMode::PingPong,
            first + t,
            first,
            last,
        ),
{
    let p = last - first;
    let n = 2 * p;
    let m1 = t % n;
    let m2 = (-t) % n;
    assert(first + t - first == t);
    assert(first - t - first == -t);
    lemma_fundamental_div_mod(t, n);
    assert(0 <= m1 < n);
    if m1 == 0 {
        let q = -(t / n);
        assert(-t == q * n + 0) by (nonlinear_arith)
            requires
                t == n * (t / n) + 0,
                q == -(t / n),
        ;
        lemma_fundamental_div_mod_converse(-t, n, q, 0);
    } else {
        let q = -(t / n) - 1;
        assert(-t == q * n + (n - m1)) by (nonlinear_arith)
            requires
                t == n * (t / n) + m1,
                q == -(t / n) - 1,
        ;
        lemma_fundamental_div_mod_converse(-t, n, q, n - m1);
        assert(m2 == n - m1);
    }
}

/// Without looping, frames are clamped to the key range and unchanged inside it.
pub proof fn lemma_off_clamps(frame: int, first: int, last: int)
    requires
        first <= last,
    ensures
        frame <= first ==> mapped_frame(LoopMode::Off, frame, first, last) == first,
        frame >= last ==> mapped_frame(LoopMode::Off, frame, first, last) == last,
        first <= frame <= last ==> mapped_frame(LoopMode::Off, frame, first, last) == frame,
{
}

/// A parameter's evaluation depends on the frame only through the mapped frame.
pub proof fn lemma_evaluation_follows_mapped_frame(o: TimelineObject, p: Seq<char>, f1: int, f2: int)
    requires
        sorted_keys(o.keyframes@, p).len() > 0,
        mapped_frame(
            loop_mode_of(o, p),
            f1,
            sorted_keys(o.keyframes@, p)[0].frame as int,
            sorted_keys(o.keyframes@, p).last().frame as int,
        ) == mapped_frame(
            loop_mode_of(o, p),
            f2,
            sorted_keys(o.keyframes@, p)[0].frame as int,
            sorted_keys(o.keyframes@, p).last().frame as int,
        ),
    ensures
        evaluation_of(o, p, f1) == evaluation_of(o, p, f2),
{
}

/// A looping parameter takes the same value one key-range period later.
pub proof fn lemma_looping_evaluation_repeats(o: TimelineObject, p: Seq<char>, frame: int)
    requires
        sorted_keys(o.keyframes@, p).len() > 0,
        loop_mode_of(o, p) == LoopMode::Loop,
        sorted_keys(o.keyframes@, p)[0].frame < sorted_keys(o.keyframes@, p).last().frame,
    ensures
        evaluation_of(
            o,
            p,
            frame + (sorted_keys(o.keyframes@, p).last().frame - sorted_keys(o.keyframes@, p)[0].frame),
        ) == evaluation_of(o, p, frame),
{
    let keys = sorted_keys(o.keyframes@, p);
    lemma_loop_is_periodic(frame, keys[0].frame as int, keys.last().frame as int);
    lemma_evaluation_follows_mapped_frame(
        o,
        p,
        frame + (keys.last().frame - keys[0].frame),
        frame,
    );
}

/// A ping-pong parameter takes the same value `t` frames before its first
/// key as `t` frames after it.
pub proof fn lemma_ping_pong_evaluation_mirrors(o: TimelineObject, p: Seq<char>, t: int)
    requires
        sorted_keys(o.keyframes@, p).len() > 0,
        loop_mode_of(o, p) == LoopMode::PingPong,
        sorted_keys(o.keyframes@, p)[0].frame < sorted_keys(o.keyframes@, p).last().frame,
    ensures
        evaluation_of(o, p, sorted_keys(o.keyframes@, p)[0].frame - t) == evaluation_of(
            o,
            p,
            sorted_keys(o.keyframes@, p)[0].frame + t,
        ),
{
    let keys = sorted_keys(o.keyframes@, p);
    lemma_ping_pong_mirrors(t, keys[0].frame as int, keys.last().frame as int);
    lemma_evaluation_follows_mapped_frame(o, p, keys[0].frame - t, keys[0].frame + t);
}

/// Without looping, a parameter holds its first key's evaluation before the
/// first key and its last key's evaluation after the last key.
pub proof fn lemma_unlooped_evaluation_holds(o: TimelineObject, p: Seq<char>, frame: int)
    requires
        sorted_keys(o.keyframes@, p).len() > 0,
        loop_mode_of(o, p) == LoopMode::Off,
    ensures
        frame <= sorted_keys(o.keyframes@, p)[0].frame ==> evaluation_of(o, p, frame)
            == evaluation_of(o, p, sorted_keys(o.keyframes@, p)[0].frame as int),
        frame >= sorted_keys(o.keyframes@, p).last().frame ==> evaluation_of(o, p, frame)
            == evaluation_of(o, p, sorted_keys(o.keyframes@, p).last().frame as int),
{
    let keys = sorted_keys(o.keyframes@, p);
    let first = keys[0].frame as int;
    let last = keys.last().frame as int;
    if first <= last {
        lemma_off_clamps(frame, first, last);
        lemma_off_clamps(first, first, last);
        lemma_off_clamps(last, first, last);
    }
    if frame <= first {
        lemma_evaluation_follows_mapped_frame(o, p, frame, first);
    }
    if frame >= last {
        lemma_evaluation_follows_mapped_frame(o, p, frame, last);
    }
}

/// The keys of a parameter, as evaluation orders them, never go back in time.
pub proof fn lemma_sorted_keys_in_order(keys: Seq<Keyframe>, p: Seq<char>)
    requires
        keys.len() <= usize::MAX,
    ensures
        frames_sorted(sorted_keys(keys, p)),
        sorted_keys(keys, p).len() == named_keys(keys, p).len(),
{
    let named = named_keys(keys, p);
    let kf = key_frames(named);
    keys.lemma_filter_len(|k: Keyframe| k.param@ == p);
    lemma_stable_order_exists(kf);
    let order = stable_order_of(kf);
    let sk = sorted_keys(keys, p);
    assert forall|a: int, b: int| 0 <= a <= b < sk.len() implies (#[trigger] sk[a]).frame
        <= (#[trigger] sk[b]).frame by {
        if a < b {
            assert(precedes(kf, order[a] as int, order[b] as int));
        }
    }
}

/// Between two keys of a parameter, the parameter goes from the earlier
/// key's value towards the later one's, eased as the earlier key says, as
/// far along as the mapped frame is past the earlier key; a holding key
/// keeps its own value until the next key.
pub proof fn lemma_evaluation_between_keys(o: TimelineObject, p: Seq<char>, frame: int, i: int)
    requires
        0 <= i,
        i + 1 < sorted_keys(o.keyframes@, p).len(),
        sorted_keys(o.keyframes@, p)[i].frame <= mapped_frame(
            loop_mode_of(o, p),
            frame,
            sorted_keys(o.keyframes@, p)[0].frame as int,
            sorted_keys(o.keyframes@, p).last().frame as int,
        ) < sorted_keys(o.keyframes@, p)[i + 1].frame,
    ensures
        ({
            let keys = sorted_keys(o.keyframes@, p);
            let f = mapped_frame(loop_mode_of(o, p), frame, keys[0].frame as int, keys.last().frame as int);
            evaluation_of(o, p, frame) == match keys[i].interpolation {
                Interpolation::Hold => Evaluation::Fixed(keys[i].value),
                _ => Evaluation::Blend {
                    from: keys[i].value,
                    to: keys[i + 1].value,
                    interpolation: keys[i].interpolation,
                    elapsed: (f - keys[i].frame) as i64,
                    span: (keys[i + 1].frame - keys[i].frame) as i64,
                },
            }
        }),
{
    let keys = sorted_keys(o.keyframes@, p);
    let f = mapped_frame(loop_mode_of(o, p), frame, keys[0].frame as int, keys.last().frame as int);
    assert(o.keyframes.len() == o.keyframes@.len());
    lemma_sorted_keys_in_order(o.keyframes@, p);
    assert forall|j: int| 1 <= j <= i implies (#[trigger] keys[j]).frame <= f by {
        assert(keys[j].frame <= keys[i].frame);
    }
    assert(segment_start(keys, f, i));
    let c = choose|c: int| segment_start(keys, f, c);
    lemma_segment_start_unique(keys, f, i, c);
}

/// From the last key on (after the frame is mapped), a parameter holds the
/// last key's value.
pub proof fn lemma_evaluation_at_last_key(o: TimelineObject, p: Seq<char>, frame: int)
    requires
        sorted_keys(o.keyframes@, p).len() > 0,
        mapped_frame(
            loop_mode_of(o, p),
            frame,
            sorted_keys(o.keyframes@, p)[0].frame as int,
            sorted_keys(o.keyframes@, p).last().frame as int,
        ) == sorted_keys(o.keyframes@, p).last().frame,
    ensures
        evaluation_of(o, p, frame) == Evaluation::Fixed(sorted_keys(o.keyframes@, p).last().value),
{
    let keys = sorted_keys(o.keyframes@, p);
    let n = keys.len() as int;
    let f = keys.last().frame as int;
    assert(o.keyframes.len() == o.keyframes@.len());
    lemma_sorted_keys_in_order(o.keyframes@, p);
    assert forall|j: int| 1 <= j <= n - 1 implies (#[trigger] keys[j]).frame <= f by {
        assert(keys[j].frame <= keys[n - 1].frame);
    }
    assert(segment_start(keys, f, n - 1));
    let c = choose|c: int| segment_start(keys, f, c);
    lemma_segment_start_unique(keys, f, n - 1, c);
}

} // verus!
