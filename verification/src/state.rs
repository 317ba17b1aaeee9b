//! The store: every tracked streak under its name.

use crate::fuzzy::{close_chars, first_close, is_close_match, lemma_first_close, suggestion};
use crate::order::{ascending, lemma_name_order, lemma_name_order_holds, name_le, name_order};
use crate::store::{
    added, after_hit, all_within_max, clock_faults, days_between, hit_base, hit_question,
    hit_target, lemma_added, lemma_parse_lines_fail, lemma_removed, line_text, parse_line,
    parse_lines, parse_store, reconciled, removed, renamed, store_lines, store_text, LineError,
    LoadError,
};
use crate::streak::{Streak, StreakModel, StreakState};
use crate::text::{
    chars_of, cut, join, line_places, lines, places_within, same_chars, split, split_places,
};
use crate::time::{Moment, Timestamp};
use itertools::Itertools;
use vstd::prelude::*;
use vstd::seq_lib::*;
use vstd::set_lib::*;
use vstd::slice::slice_index_get;
use vstd::string::{StrSliceExecFns, StringExecFns};

verus! {

/// A streak and the name it goes by.
#[derive(Debug)]
struct Entry {
    name: String,
    streak: Streak,
}

/// The tracked streaks, each under a name of its own.
#[derive(Debug)]
pub struct State {
    entries: Vec<Entry>,
}

/// Whether no two entries share a name.
spec fn distinct(entries: Seq<Entry>) -> bool {
    forall|i: int, j: int|
        0 <= i < entries.len() && 0 <= j < entries.len() && i != j ==> (#[trigger] entries[i]).name@
            != (#[trigger] entries[j]).name@
}

spec fn names_of(entries: Seq<Entry>) -> Seq<Seq<char>> {
    Seq::new(entries.len(), |i: int| entries[i].name@)
}

/// The place of the entry that goes by `name`.
spec fn place_of(entries: Seq<Entry>, name: Seq<char>) -> int {
    choose|i: int| 0 <= i < entries.len() && entries[i].name@ == name
}

/// The streaks of the entries by their names.
spec fn map_of(entries: Seq<Entry>) -> Map<Seq<char>, StreakModel> {
    Map::new(
        |name: Seq<char>| exists|i: int| 0 <= i < entries.len() && entries[i].name@ == name,
        |name: Seq<char>| entries[place_of(entries, name)].streak@,
    )
}

proof fn lemma_map_at(entries: Seq<Entry>, i: int)
    requires
        distinct(entries),
        0 <= i < entries.len(),
    ensures
        map_of(entries).contains_key(entries[i].name@),
        map_of(entries)[entries[i].name@] == entries[i].streak@,
{
    let name = entries[i].name@;
    let at = place_of(entries, name);
    assert(0 <= at < entries.len() && entries[at].name@ == name);
    assert(at == i);
}

proof fn lemma_map_names(entries: Seq<Entry>)
    ensures
        map_of(entries).dom() == names_of(entries).to_set(),
        map_of(entries).dom().finite(),
{
    let names = names_of(entries);
    assert forall|name: Seq<char>| map_of(entries).dom().contains(name) <==> names.to_set().contains(
        name,
    ) by {
        if map_of(entries).dom().contains(name) {
            let i = choose|i: int| 0 <= i < entries.len() && entries[i].name@ == name;
            assert(names[i] == name);
        }
        if names.contains(name) {
            let i = choose|i: int| 0 <= i < names.len() && names[i] == name;
            assert(entries[i].name@ == name);
        }
    }
    assert(map_of(entries).dom() =~= names.to_set());
    seq_to_set_is_finite(names);
}

proof fn lemma_map_push(entries: Seq<Entry>, entry: Entry)
    requires
        distinct(entries),
        !map_of(entries).contains_key(entry.name@),
    ensures
        distinct(entries.push(entry)),
        map_of(entries.push(entry)) == map_of(entries).insert(entry.name@, entry.streak@),
{
    let longer = entries.push(entry);
    assert forall|i: int, j: int|
        0 <= i < longer.len() && 0 <= j < longer.len() && i != j implies (#[trigger] longer[i]).name@
        != (#[trigger] longer[j]).name@ by {
        if i < entries.len() {
            assert(longer[i] == entries[i]);
        }
        if j < entries.len() {
            assert(longer[j] == entries[j]);
        }
    }
    assert forall|name: Seq<char>| #[trigger]
        map_of(longer).contains_key(name) <==> map_of(entries).insert(
            entry.name@,
            entry.streak@,
        ).contains_key(name) by {
        if map_of(longer).contains_key(name) {
            let i = choose|i: int| 0 <= i < longer.len() && longer[i].name@ == name;
            if i < entries.len() {
                assert(entries[i].name@ == name);
            }
        }
        if map_of(entries).contains_key(name) {
            let i = choose|i: int| 0 <= i < entries.len() && entries[i].name@ == name;
            assert(longer[i].name@ == name);
        }
        if name == entry.name@ {
            assert(longer[entries.len() as int].name@ == name);
        }
    }
    assert forall|name: Seq<char>| #[trigger] map_of(longer).contains_key(name) implies map_of(
        longer,
    )[name] == map_of(entries).insert(entry.name@, entry.streak@)[name] by {
        let i = choose|i: int| 0 <= i < longer.len() && longer[i].name@ == name;
        lemma_map_at(longer, i);
        if i < entries.len() {
            assert(longer[i] == entries[i]);
            lemma_map_at(entries, i);
        }
    }
    assert(map_of(longer) =~= map_of(entries).insert(entry.name@, entry.streak@));
}

proof fn lemma_map_update(entries: Seq<Entry>, at: int, entry: Entry)
    requires
        distinct(entries),
        0 <= at < entries.len(),
        entry.name@ == entries[at].name@,
    ensures
        distinct(entries.update(at, entry)),
        map_of(entries.update(at, entry)) == map_of(entries).insert(entry.name@, entry.streak@),
{
    let changed = entries.update(at, entry);
    assert forall|i: int, j: int|
        0 <= i < changed.len() && 0 <= j < changed.len() && i != j implies (
        #[trigger] changed[i]).name@ != (#[trigger] changed[j]).name@ by {
        assert(changed[i].name@ == entries[i].name@);
        assert(changed[j].name@ == entries[j].name@);
    }
    assert forall|name: Seq<char>| #[trigger]
        map_of(changed).contains_key(name) <==> map_of(entries).insert(
            entry.name@,
            entry.streak@,
        ).contains_key(name) by {
        if map_of(changed).contains_key(name) {
            let i = choose|i: int| 0 <= i < changed.len() && changed[i].name@ == name;
            assert(entries[i].name@ == name);
        }
        if map_of(entries).contains_key(name) {
            let i = choose|i: int| 0 <= i < entries.len() && entries[i].name@ == name;
            assert(changed[i].name@ == name);
        }
        if name == entry.name@ {
            assert(changed[at].name@ == name);
        }
    }
    assert forall|name: Seq<char>| #[trigger] map_of(changed).contains_key(name) implies map_of(
        changed,
    )[name] == map_of(entries).insert(entry.name@, entry.streak@)[name] by {
        let i = choose|i: int| 0 <= i < changed.len() && changed[i].name@ == name;
        lemma_map_at(changed, i);
        if i != at {
            assert(changed[i] == entries[i]);
            lemma_map_at(entries, i);
        }
    }
    assert(map_of(changed) =~= map_of(entries).insert(entry.name@, entry.streak@));
}

proof fn lemma_map_remove(entries: Seq<Entry>, at: int)
    requires
        distinct(entries),
        0 <= at < entries.len(),
    ensures
        distinct(entries.remove(at)),
        map_of(entries.remove(at)) == map_of(entries).remove(entries[at].name@),
{
    let fewer = entries.remove(at);
    let gone = entries[at].name@;
    assert forall|i: int| 0 <= i < fewer.len() implies #[trigger] fewer[i] == entries[if i < at {
        i
    } else {
        i + 1
    }] by {}
    assert forall|i: int, j: int|
        0 <= i < fewer.len() && 0 <= j < fewer.len() && i != j implies (#[trigger] fewer[i]).name@
        != (#[trigger] fewer[j]).name@ by {
        let a = if i < at { i } else { i + 1 };
        let b = if j < at { j } else { j + 1 };
        assert(fewer[i] == entries[a] && fewer[j] == entries[b]);
    }
    assert forall|name: Seq<char>| #[trigger]
        map_of(fewer).contains_key(name) <==> map_of(entries).remove(gone).contains_key(
            name,
        ) by {
        if map_of(fewer).contains_key(name) {
            let i = choose|i: int| 0 <= i < fewer.len() && fewer[i].name@ == name;
            let a = if i < at { i } else { i + 1 };
            assert(fewer[i] == entries[a]);
            assert(entries[a].name@ == name);
        }
        if map_of(entries).remove(gone).contains_key(name) {
            let a = choose|a: int| 0 <= a < entries.len() && entries[a].name@ == name;
            let i = if a < at { a } else { a - 1 };
            assert(fewer[i] == entries[a]);
            assert(fewer[i].name@ == name);
        }
    }
    assert forall|name: Seq<char>| #[trigger] map_of(fewer).contains_key(name) implies map_of(
        fewer,
    )[name] == map_of(entries).remove(gone)[name] by {
        let i = choose|i: int| 0 <= i < fewer.len() && fewer[i].name@ == name;
        let a = if i < at { i } else { i + 1 };
        assert(fewer[i] == entries[a]);
        lemma_map_at(fewer, i);
        lemma_map_at(entries, a);
    }
    assert(map_of(fewer) =~= map_of(entries).remove(gone));
}

spec fn occurs(order: Seq<usize>, k: int) -> bool {
    exists|i: int| 0 <= i < order.len() && order[i] == k
}

/// Every number below `n` occurs among `n` different numbers below `n`.
proof fn lemma_all_occur(order: Seq<usize>, n: nat)
    requires
        order.len() == n,
        forall|i: int| 0 <= i < n ==> (#[trigger] order[i]) < n,
        forall|i: int, j: int| 0 <= i < j < n ==> order[i] != order[j],
    ensures
        forall|k: int| 0 <= k < n ==> #[trigger] occurs(order, k),
{
    let ints = Seq::new(n, |i: int| order[i] as int);
    assert(ints.no_duplicates()) by {
        assert forall|i: int, j: int| 0 <= i < ints.len() && 0 <= j < ints.len() && i != j implies
            ints[i] != ints[j] by {
            if i < j {
                assert(order[i] != order[j]);
            } else {
                assert(order[j] != order[i]);
            }
        }
    }
    ints.unique_seq_to_set();
    seq_to_set_is_finite(ints);
    lemma_int_range(0, n as int);
    let all = set_int_range(0, n as int);
    assert(ints.to_set().subset_of(all)) by {
        assert forall|k: int| ints.to_set().contains(k) implies all.contains(k) by {
            assert(ints.contains(k));
            let i = choose|i: int| 0 <= i < ints.len() && ints[i] == k;
            assert(order[i] < n);
        }
    }
    lemma_subset_equality(ints.to_set(), all);
    assert forall|k: int| 0 <= k < n implies #[trigger] occurs(order, k) by {
        assert(all.contains(k));
        assert(ints.to_set().contains(k));
        assert(ints.contains(k));
        let i = choose|i: int| 0 <= i < ints.len() && ints[i] == k;
        assert(order[i] == k);
    }
}

/// The names of the entries taken in the given order.
spec fn names_in(entries: Seq<Entry>, order: Seq<usize>) -> Seq<Seq<char>> {
    Seq::new(order.len(), |i: int| entries[order[i] as int].name@)
}

/// The places of the entries, those of lesser names first, with
/// itertools' `sorted_by_key`: it collects what the range gives, sorts it
/// with the slice's stable `sort_by_key`, and hands all of it back. The
/// keys are the names, which std orders by their characters.
#[verifier::external_body]
fn places_by_name(entries: &Vec<Entry>) -> (order: Vec<usize>)
    ensures
        order@.len() == entries@.len(),
        forall|i: int| 0 <= i < order@.len() ==> (#[trigger] order@[i]) < entries@.len(),
        forall|i: int, j: int| 0 <= i < j < order@.len() ==> order@[i] != order@[j],
        forall|i: int, j: int|
            0 <= i < j < order@.len() ==> name_le(
                #[trigger] names_in(entries@, order@)[i],
                #[trigger] names_in(entries@, order@)[j],
            ),
{
    (0..entries.len()).sorted_by_key(|i| &entries[*i].name).collect()
}

/// The place of the entry that goes by `name`.
fn position_in(entries: &Vec<Entry>, name: &str) -> (found: Option<usize>)
    ensures
        match found {
            Some(i) => i < entries@.len() && entries@[i as int].name@ == name@,
            None => !map_of(entries@).contains_key(name@),
        },
{
    let query = chars_of(name);
    let n: usize = entries.len();
    let mut i: usize = 0;
    while i < n
        invariant
            i <= n,
            n == entries@.len(),
            query@ == name@,
            forall|k: int| 0 <= k < i ==> entries@[k].name@ != name@,
        decreases n - i,
    {
        let own = chars_of(entries[i].name.as_str());
        if same_chars(&own, &query) {
            return Some(i);
        }
        i += 1;
    }
    None
}

/// Puts `streak` under `name`, in place of what was there.
fn put_entry(entries: &mut Vec<Entry>, name: String, streak: Streak) -> (had: bool)
    requires
        distinct(old(entries)@),
    ensures
        distinct(final(entries)@),
        map_of(final(entries)@) == map_of(old(entries)@).insert(name@, streak@),
        had == map_of(old(entries)@).contains_key(name@),
{
    match position_in(entries, name.as_str()) {
        Some(i) => {
            let entry = Entry { name, streak };
            proof {
                lemma_map_update(entries@, i as int, entry);
                lemma_map_at(entries@, i as int);
            }
            entries.set(i, entry);
            true
        },
        None => {
            let entry = Entry { name, streak };
            proof {
                lemma_map_push(entries@, entry);
            }
            entries.push(entry);
            false
        },
    }
}

/// Takes out the streak that goes by `name`.
fn take_entry(entries: &mut Vec<Entry>, name: &str) -> (taken: Option<Streak>)
    requires
        distinct(old(entries)@),
    ensures
        distinct(final(entries)@),
        match taken {
            Some(streak) => map_of(old(entries)@).contains_key(name@) && map_of(
                old(entries)@,
            )[name@] == streak@ && map_of(final(entries)@) == map_of(old(entries)@).remove(name@),
            None => !map_of(old(entries)@).contains_key(name@) && final(entries)@ == old(entries)@,
        },
{
    match position_in(entries, name) {
        Some(i) => {
            proof {
                lemma_map_remove(entries@, i as int);
                lemma_map_at(entries@, i as int);
            }
            let entry = entries.remove(i);
            Some(entry.streak)
        },
        None => None,
    }
}

impl State {
    #[verifier::type_invariant]
    spec fn well_formed(self) -> bool {
        distinct(self.entries@)
    }

    /// The streaks by their names.
    pub closed spec fn view(&self) -> Map<Seq<char>, StreakModel> {
        map_of(self.entries@)
    }

    /// A store without streaks.
    pub fn new() -> (state: State)
        ensures
            state@ == Map::<Seq<char>, StreakModel>::empty(),
    {
        let state = State { entries: Vec::new() };
        proof {
            assert(state@ =~= Map::<Seq<char>, StreakModel>::empty());
        }
        state
    }

    /// How many streaks are tracked.
    pub fn len(&self) -> (n: usize)
        ensures
            n == self@.dom().len(),
            self@.dom().finite(),
    {
        proof {
            use_type_invariant(self);
            lemma_map_names(self.entries@);
            let names = names_of(self.entries@);
            assert(names.no_duplicates()) by {
                assert forall|i: int, j: int|
                    0 <= i < names.len() && 0 <= j < names.len() && i != j implies names[i]
                    != names[j] by {
                    assert(self.entries@[i].name@ != self.entries@[j].name@);
                }
            }
            names.unique_seq_to_set();
        }
        self.entries.len()
    }

    /// The place of the entry that goes by `name`.
    fn position(&self, name: &str) -> (found: Option<usize>)
        ensures
            match found {
                Some(i) => i < self.entries@.len() && self.entries@[i as int].name@ == name@,
                None => !self@.contains_key(name@),
            },
    {
        position_in(&self.entries, name)
    }

    /// Whether a streak goes by `name`.
    pub fn contains(&self, name: &str) -> (found: bool)
        ensures
            found == self@.contains_key(name@),
    {
        match self.position(name) {
            Some(_) => true,
            None => false,
        }
    }

    /// The streak that goes by `name`.
    pub fn get(&self, name: &str) -> (found: Option<Streak>)
        ensures
            match found {
                Some(streak) => self@.contains_key(name@) && self@[name@] == streak@,
                None => !self@.contains_key(name@),
            },
    {
        match self.position(name) {
            Some(i) => {
                proof {
                    use_type_invariant(self);
                    lemma_map_at(self.entries@, i as int);
                }
                Some(self.entries[i].streak)
            },
            None => None,
        }
    }

    /// The places of the entries in the ascending order of their names.
    fn ordered(&self) -> (order: Vec<usize>)
        ensures
            order@.len() == self.entries@.len(),
            forall|i: int| 0 <= i < order@.len() ==> (#[trigger] order@[i]) < self.entries@.len(),
            names_in(self.entries@, order@) == name_order(self@.dom()),
            self@.dom().finite(),
            forall|i: int|
                0 <= i < order@.len() ==> self@.contains_key(
                    #[trigger] names_in(self.entries@, order@)[i],
                ) && self@[names_in(self.entries@, order@)[i]]
                    == self.entries@[order@[i] as int].streak@,
    {
        let order = places_by_name(&self.entries);
        proof {
            use_type_invariant(self);
            let entries = self.entries@;
            let names = names_in(entries, order@);
            lemma_map_names(entries);
            lemma_all_occur(order@, entries.len());
            assert(ascending(names)) by {
                assert forall|i: int, j: int| 0 <= i < j < names.len() implies name_le(
                    #[trigger] names[i],
                    #[trigger] names[j],
                ) && names[i] != names[j] by {
                    assert(order@[i] != order@[j]);
                    assert(entries[order@[i] as int].name@ != entries[order@[j] as int].name@);
                }
            }
            assert forall|name: Seq<char>| names.to_set().contains(name) <==> self@.dom().contains(
                name,
            ) by {
                if names.contains(name) {
                    let i = choose|i: int| 0 <= i < names.len() && names[i] == name;
                    assert(entries[order@[i] as int].name@ == name);
                }
                if self@.dom().contains(name) {
                    let k = choose|k: int| 0 <= k < entries.len() && entries[k].name@ == name;
                    assert(occurs(order@, k));
                    let i = choose|i: int| 0 <= i < order@.len() && order@[i] == k;
                    assert(names[i] == name);
                }
            }
            assert(names.to_set() =~= self@.dom());
            lemma_name_order(names, self@.dom());
            assert forall|i: int| 0 <= i < order@.len() implies self@.contains_key(
                #[trigger] names[i],
            ) && self@[names[i]] == entries[order@[i] as int].streak@ by {
                lemma_map_at(entries, order@[i] as int);
            }
        }
        order
    }

    /// The names of the streaks in ascending order.
    pub fn names(&self) -> (names: Vec<String>)
        ensures
            names@.len() == name_order(self@.dom()).len(),
            forall|i: int| 0 <= i < names@.len() ==> (#[trigger] names@[i])@ == name_order(
                self@.dom(),
            )[i],
    {
        let order = self.ordered();
        let n: usize = order.len();
        let mut names: Vec<String> = Vec::new();
        let mut i: usize = 0;
        while i < n
            invariant
                i <= n,
                n == order@.len(),
                names@.len() == i,
                forall|k: int| 0 <= k < n ==> (#[trigger] order@[k]) < self.entries@.len(),
                forall|k: int| 0 <= k < i ==> (#[trigger] names@[k])@ == names_in(
                    self.entries@,
                    order@,
                )[k],
            decreases n - i,
        {
            names.push(self.entries[order[i]].name.clone());
            i += 1;
        }
        names
    }

    /// The name to offer when no streak goes by `name`: the first close
    /// match among the names in ascending order.
    pub fn not_found(&self, name: &str) -> (offer: Option<String>)
        ensures
            match offer {
                Some(other) => suggestion(self@.dom(), name@) == Some(other@)
                    && self@.contains_key(other@) && is_close_match(other@, name@),
                None => suggestion(self@.dom(), name@) is None,
            },
    {
        let order = self.ordered();
        proof {
            lemma_first_close(name_order(self@.dom()), name@);
            lemma_name_order_holds(self@.dom());
        }
        let query = chars_of(name);
        let n: usize = order.len();
        let ghost names = names_in(self.entries@, order@);
        let mut i: usize = 0;
        proof {
            assert(names.skip(0) =~= names);
        }
        while i < n
            invariant
                i <= n,
                n == order@.len(),
                query@ == name@,
                names == names_in(self.entries@, order@),
                names == name_order(self@.dom()),
                forall|k: int| 0 <= k < n ==> (#[trigger] order@[k]) < self.entries@.len(),
                first_close(names, name@) == first_close(names.skip(i as int), name@),
            decreases n - i,
        {
            let entry = &self.entries[order[i]];
            let own = chars_of(entry.name.as_str());
            proof {
                assert(names.skip(i as int)[0] == own@);
                assert(names.skip(i as int).drop_first() =~= names.skip(i + 1));
            }
            if close_chars(&own, &query) {
                return Some(entry.name.clone());
            }
            i += 1;
        }
        None
    }
}

/// What a look for a name found.
#[derive(Clone, Debug, PartialEq, Eq)]
pub enum Lookup {
    /// A streak goes by the name.
    Found,
    /// No streak goes by the name; a similar name may be offered.
    Missing(Option<String>),
}

impl Lookup {
    /// Whether this is what a look for `name` finds in `store`.
    pub open spec fn tells(self, store: Map<Seq<char>, StreakModel>, name: Seq<char>) -> bool {
        match self {
            Lookup::Found => store.contains_key(name),
            Lookup::Missing(Some(other)) => !store.contains_key(name) && suggestion(
                store.dom(),
                name,
            ) == Some(other@),
            Lookup::Missing(None) => !store.contains_key(name) && suggestion(store.dom(), name)
                is None,
        }
    }
}

/// The names, among the first `upto` entries, of the streaks that were
/// last hit on a later day than that of `now`.
spec fn faults_among(entries: Seq<Entry>, now: Moment, upto: int) -> Set<Seq<char>> {
    Set::new(
        |name: Seq<char>|
            exists|k: int|
                0 <= k < upto && k < entries.len() && (#[trigger] entries[k]).name@ == name
                    && days_between(now, entries[k].streak@.last_hit) < 0,
    )
}

proof fn lemma_faults_step(entries: Seq<Entry>, now: Moment, upto: int)
    requires
        distinct(entries),
        0 <= upto < entries.len(),
        faults_among(entries, now, upto).finite(),
    ensures
        faults_among(entries, now, upto + 1).finite(),
        faults_among(entries, now, upto + 1).len() == faults_among(entries, now, upto).len() + (
        if days_between(now, entries[upto].streak@.last_hit) < 0 {
            1int
        } else {
            0int
        }),
{
    let before = faults_among(entries, now, upto);
    let after = faults_among(entries, now, upto + 1);
    let name = entries[upto].name@;
    if days_between(now, entries[upto].streak@.last_hit) < 0 {
        assert(!before.contains(name)) by {
            if before.contains(name) {
                let k = choose|k: int|
                    0 <= k < upto && k < entries.len() && (#[trigger] entries[k]).name@ == name
                        && days_between(now, entries[k].streak@.last_hit) < 0;
                assert(entries[k].name@ != entries[upto].name@);
            }
        }
        assert forall|other: Seq<char>| after.contains(other) <==> before.insert(name).contains(
            other,
        ) by {
            if after.contains(other) {
                let k = choose|k: int|
                    0 <= k < upto + 1 && k < entries.len() && (#[trigger] entries[k]).name@
                        == other && days_between(now, entries[k].streak@.last_hit) < 0;
                if k < upto {
                    assert(before.contains(other));
                }
            }
            if before.contains(other) {
                let k = choose|k: int|
                    0 <= k < upto && k < entries.len() && (#[trigger] entries[k]).name@ == other
                        && days_between(now, entries[k].streak@.last_hit) < 0;
                assert(entries[k].name@ == other);
            }
            if other == name {
                assert(entries[upto].name@ == other);
            }
        }
        assert(after =~= before.insert(name));
    } else {
        assert forall|other: Seq<char>| after.contains(other) <==> before.contains(other) by {
            if after.contains(other) {
                let k = choose|k: int|
                    0 <= k < upto + 1 && k < entries.len() && (#[trigger] entries[k]).name@
                        == other && days_between(now, entries[k].streak@.last_hit) < 0;
                assert(k < upto);
            }
            if before.contains(other) {
                let k = choose|k: int|
                    0 <= k < upto && k < entries.len() && (#[trigger] entries[k]).name@ == other
                        && days_between(now, entries[k].streak@.last_hit) < 0;
                assert(entries[k].name@ == other);
            }
        }
        assert(after =~= before);
    }
}

proof fn lemma_faults_all(entries: Seq<Entry>, now: Moment)
    requires
        distinct(entries),
    ensures
        faults_among(entries, now, entries.len() as int) == clock_faults(map_of(entries), now),
        faults_among(entries, now, 0) == Set::<Seq<char>>::empty(),
{
    let all = faults_among(entries, now, entries.len() as int);
    let faults = clock_faults(map_of(entries), now);
    assert forall|name: Seq<char>| all.contains(name) <==> faults.contains(name) by {
        if all.contains(name) {
            let k = choose|k: int|
                0 <= k < entries.len() && (#[trigger] entries[k]).name@ == name && days_between(
                    now,
                    entries[k].streak@.last_hit,
                ) < 0;
            lemma_map_at(entries, k);
        }
        if faults.contains(name) {
            let k = choose|k: int| 0 <= k < entries.len() && entries[k].name@ == name;
            lemma_map_at(entries, k);
            assert(entries[k].name@ == name);
        }
    }
    assert(all =~= faults);
    assert(faults_among(entries, now, 0) =~= Set::<Seq<char>>::empty());
}

/// The days of two valid moments are few enough for their difference to
/// fit in 32 bits.
proof fn lemma_day_range(moment: Moment)
    requires
        moment.valid(),
    ensures
        -95_746_130 <= moment.day_number() <= 95_745_400,
{
}

impl State {
    /// Puts `streak` under `name`, in place of what was there.
    fn put(&mut self, name: String, streak: Streak) -> (had: bool)
        ensures
            final(self)@ == old(self)@.insert(name@, streak@),
            had == old(self)@.contains_key(name@),
    {
        proof {
            use_type_invariant(&*self);
        }
        let mut entries: Vec<Entry> = Vec::new();
        std::mem::swap(&mut self.entries, &mut entries);
        let had = put_entry(&mut entries, name, streak);
        std::mem::swap(&mut self.entries, &mut entries);
        had
    }

    /// Takes out the streak that goes by `name`.
    fn take(&mut self, name: &str) -> (taken: Option<Streak>)
        ensures
            match taken {
                Some(streak) => old(self)@.contains_key(name@) && old(self)@[name@] == streak@
                    && final(self)@ == old(self)@.remove(name@),
                None => !old(self)@.contains_key(name@) && final(self)@ == old(self)@,
            },
    {
        proof {
            use_type_invariant(&*self);
        }
        let mut entries: Vec<Entry> = Vec::new();
        std::mem::swap(&mut self.entries, &mut entries);
        let taken = take_entry(&mut entries, name);
        std::mem::swap(&mut self.entries, &mut entries);
        taken
    }

    /// Ages every streak to the day of `now`, and returns how many streaks
    /// were last hit on a later day than that: their clocks went backwards.
    pub fn update(&mut self, now: Timestamp) -> (faults: usize)
        ensures
            final(self)@ == reconciled(old(self)@, now@),
            faults == clock_faults(old(self)@, now@).len(),
            all_within_max(old(self)@) ==> all_within_max(final(self)@),
    {
        proof {
            use_type_invariant(&*self);
        }
        let today: i32 = now.days_from_ce();
        let mut entries: Vec<Entry> = Vec::new();
        std::mem::swap(&mut self.entries, &mut entries);
        let n: usize = entries.len();
        let ghost before = entries@;
        let mut faults: usize = 0;
        let mut i: usize = 0;
        proof {
            lemma_faults_all(before, now@);
            lemma_day_range(now@);
        }
        while i < n
            invariant
                i <= n,
                n == before.len(),
                entries@.len() == n,
                distinct(before),
                distinct(entries@),
                today == now@.day_number(),
                -95_746_130 <= today <= 95_745_400,
                faults <= i,
                faults_among(before, now@, i as int).finite(),
                faults == faults_among(before, now@, i as int).len(),
                forall|k: int| 0 <= k < n ==> (#[trigger] entries@[k]).name@ == before[k].name@,
                forall|k: int|
                    0 <= k < i ==> (#[trigger] entries@[k]).streak@ == before[k].streak@.advance(
                        days_between(now@, before[k].streak@.last_hit),
                    ),
                forall|k: int| i <= k < n ==> (#[trigger] entries@[k]).streak@ == before[k].streak@,
            decreases n - i,
        {
            let mut streak = entries[i].streak;
            let name = entries[i].name.clone();
            let then: i32 = streak.last_hit().days_from_ce();
            proof {
                lemma_day_range(streak@.last_hit);
                lemma_faults_step(before, now@, i as int);
            }
            let backwards = streak.advance_day(today - then);
            if backwards {
                faults += 1;
            }
            let entry = Entry { name, streak };
            proof {
                lemma_map_update(entries@, i as int, entry);
            }
            entries.set(i, entry);
            i += 1;
        }
        std::mem::swap(&mut self.entries, &mut entries);
        proof {
            let after = self.entries@;
            let target = reconciled(map_of(before), now@);
            assert forall|name: Seq<char>| #[trigger]
                map_of(after).contains_key(name) <==> target.contains_key(name) by {
                if map_of(after).contains_key(name) {
                    let k = choose|k: int| 0 <= k < after.len() && after[k].name@ == name;
                    assert(before[k].name@ == name);
                }
                if map_of(before).contains_key(name) {
                    let k = choose|k: int| 0 <= k < before.len() && before[k].name@ == name;
                    assert(after[k].name@ == name);
                }
            }
            assert forall|name: Seq<char>| #[trigger] map_of(after).contains_key(name) implies map_of(
                after,
            )[name] == target[name] by {
                let k = choose|k: int| 0 <= k < after.len() && after[k].name@ == name;
                lemma_map_at(after, k);
                lemma_map_at(before, k);
            }
            assert(map_of(after) =~= target);
            if all_within_max(map_of(before)) {
                assert forall|name: Seq<char>| target.contains_key(name) implies (
                #[trigger] target[name]).within_max() by {
                    assert(map_of(before)[name].within_max());
                }
            }
        }
        faults
    }

    /// Starts to track a streak under each of `names`, from `now` on. A
    /// streak that went by the name before is lost. The result says for
    /// each name whether there was one.
    pub fn add_streaks(&mut self, names: &[String], now: Timestamp) -> (reset: Vec<bool>)
        ensures
            final(self)@ == added(old(self)@, names@.map_values(|n: String| n@), now@),
            reset@.len() == names@.len(),
            forall|i: int|
                0 <= i < reset@.len() ==> #[trigger] reset@[i] == added(
                    old(self)@,
                    names@.map_values(|n: String| n@).take(i),
                    now@,
                ).contains_key(names@[i]@),
            all_within_max(old(self)@) ==> all_within_max(final(self)@),
    {
        let ghost wanted = names@.map_values(|n: String| n@);
        let ghost before = self@;
        let mut reset: Vec<bool> = Vec::new();
        let n: usize = names.len();
        let mut i: usize = 0;
        proof {
            assert(wanted.take(0) =~= Seq::<Seq<char>>::empty());
        }
        while i < n
            invariant
                i <= n,
                n == names@.len(),
                wanted == names@.map_values(|n: String| n@),
                self@ == added(before, wanted.take(i as int), now@),
                reset@.len() == i,
                forall|k: int|
                    0 <= k < i ==> #[trigger] reset@[k] == added(
                        before,
                        wanted.take(k),
                        now@,
                    ).contains_key(wanted[k]),
            decreases n - i,
        {
            let name = slice_index_get(names, i).clone();
            proof {
                assert(wanted.take(i + 1).drop_last() =~= wanted.take(i as int));
                assert(wanted.take(i + 1).last() == wanted[i as int]);
            }
            let had = self.put(name, Streak::new(now));
            reset.push(had);
            i += 1;
        }
        proof {
            assert(wanted.take(n as int) =~= wanted);
            if all_within_max(before) {
                assert forall|name: Seq<char>| self@.contains_key(name) implies (
                #[trigger] self@[name]).within_max() by {
                    lemma_added(before, wanted, now@, name);
                }
            }
        }
        reset
    }

    /// Stops tracking the streak under each of `names`. The result says
    /// for each name whether a streak went by it when its turn came, and
    /// offers a similar name where none did.
    pub fn remove_streaks(&mut self, names: &[String]) -> (found: Vec<Lookup>)
        ensures
            final(self)@ == removed(old(self)@, names@.map_values(|n: String| n@)),
            found@.len() == names@.len(),
            forall|i: int|
                0 <= i < found@.len() ==> (#[trigger] found@[i]).tells(
                    removed(old(self)@, names@.map_values(|n: String| n@).take(i)),
                    names@[i]@,
                ),
            all_within_max(old(self)@) ==> all_within_max(final(self)@),
    {
        let ghost unwanted = names@.map_values(|n: String| n@);
        let ghost before = self@;
        let mut found: Vec<Lookup> = Vec::new();
        let n: usize = names.len();
        let mut i: usize = 0;
        proof {
            assert(unwanted.take(0) =~= Seq::<Seq<char>>::empty());
        }
        while i < n
            invariant
                i <= n,
                n == names@.len(),
                unwanted == names@.map_values(|n: String| n@),
                self@ == removed(before, unwanted.take(i as int)),
                found@.len() == i,
                forall|k: int|
                    0 <= k < i ==> (#[trigger] found@[k]).tells(
                        removed(before, unwanted.take(k)),
                        unwanted[k],
                    ),
            decreases n - i,
        {
            let name = slice_index_get(names, i);
            proof {
                assert(unwanted.take(i + 1).drop_last() =~= unwanted.take(i as int));
                assert(unwanted.take(i + 1).last() == unwanted[i as int]);
            }
            let report = match self.take(name.as_str()) {
                Some(_) => Lookup::Found,
                None => Lookup::Missing(self.not_found(name.as_str())),
            };
            proof {
                let now = removed(before, unwanted.take(i + 1));
                let then = removed(before, unwanted.take(i as int));
                if !then.contains_key(unwanted[i as int]) {
                    assert(now =~= then);
                }
            }
            found.push(report);
            i += 1;
        }
        proof {
            assert(unwanted.take(n as int) =~= unwanted);
            if all_within_max(before) {
                assert forall|name: Seq<char>| self@.contains_key(name) implies (
                #[trigger] self@[name]).within_max() by {
                    lemma_removed(before, unwanted, name);
                }
            }
        }
        found
    }

    /// Moves the streak under `name` to `new_name`, where it displaces what
    /// was there. Where no streak goes by `name` nothing changes, and a
    /// similar name may be offered.
    pub fn rename_streak(&mut self, name: &str, new_name: &str) -> (found: Lookup)
        ensures
            final(self)@ == renamed(old(self)@, name@, new_name@),
            found.tells(old(self)@, name@),
            all_within_max(old(self)@) ==> all_within_max(final(self)@),
    {
        match self.take(name) {
            Some(streak) => {
                self.put(new_name.to_owned(), streak);
                Lookup::Found
            },
            None => Lookup::Missing(self.not_found(name)),
        }
    }

    /// The name to ask about before a hit on `name`: a similar one, where
    /// no streak goes by `name` itself.
    pub fn hit_question(&self, name: &str) -> (ask: Option<String>)
        ensures
            match ask {
                Some(other) => hit_question(self@, name@) == Some(other@),
                None => hit_question(self@, name@) is None,
            },
    {
        if self.contains(name) {
            None
        } else {
            self.not_found(name)
        }
    }

    /// Whether a hit on `name` can be recorded: it cannot where it would
    /// take a count beyond 32 bits.
    pub fn can_hit(&self, name: &str, accept: bool, now: Timestamp) -> (can: bool)
        ensures
            can == hit_base(self@, name@, accept, now@).can_hit(),
    {
        let target = self.target_of(name, accept);
        match self.get(target.as_str()) {
            Some(streak) => !(matches!(streak.state(), StreakState::Pending)
                && streak.current_count() == u32::MAX),
            None => true,
        }
    }

    /// The name of the streak that a hit on `name` goes to.
    fn target_of(&self, name: &str, accept: bool) -> (target: String)
        ensures
            target@ == hit_target(self@, name@, accept),
    {
        if accept {
            match self.hit_question(name) {
                Some(other) => other,
                None => name.to_owned(),
            }
        } else {
            name.to_owned()
        }
    }

    /// Records a hit on `name` at `now`, and returns the new count if the
    /// hit counts. The hit goes to the streak under `name`; where there is
    /// none, to the similar one that `hit_question` names, if `accept`
    /// says so; and else to a streak that is made under `name`.
    pub fn hit_streak(&mut self, name: &str, accept: bool, now: Timestamp) -> (count: Option<u32>)
        requires
            hit_base(old(self)@, name@, accept, now@).can_hit(),
        ensures
            final(self)@ == after_hit(old(self)@, name@, accept, now@),
            match count {
                Some(n) => hit_base(old(self)@, name@, accept, now@).hit_report() == Some(
                    n as nat,
                ),
                None => hit_base(old(self)@, name@, accept, now@).hit_report() is None,
            },
            all_within_max(old(self)@) ==> all_within_max(final(self)@),
    {
        let target = self.target_of(name, accept);
        let mut streak = match self.get(target.as_str()) {
            Some(streak) => streak,
            None => Streak::new(now),
        };
        let count = streak.hit(now);
        self.put(target, streak);
        count
    }
}

/// Reads the name and the streak of a line.
pub fn read_line(line: &str) -> (read: Result<(String, Streak), LineError>)
    ensures
        match read {
            Ok((name, streak)) => parse_line(line@) == Some((name@, streak@)),
            Err(e) => e.explains(line@) && parse_line(line@) is None,
        },
{
    let chars = chars_of(line);
    let places = split_places(&chars, ',');
    let n: usize = places.len();
    let ghost pieces = split(line@, ',');
    if n < 2 {
        return Err(LineError::MissingFields);
    }
    let mut values: Vec<&str> = Vec::new();
    let mut i: usize = 1;
    while i < n
        invariant
            1 <= i <= n,
            n == places@.len(),
            chars@ == line@,
            places_within(places@, chars@.len()),
            cut(chars@, places@) == pieces,
            values@.len() == i - 1,
            forall|k: int| 0 <= k < i - 1 ==> (#[trigger] values@[k])@ == pieces[k + 1],
        decreases n - i,
    {
        let (from, to) = places[i];
        proof {
            assert(cut(chars@, places@)[i as int] == chars@.subrange(from as int, to as int));
        }
        values.push(line.substring_char(from, to));
        i += 1;
    }
    let (from, to) = places[0];
    proof {
        assert(cut(chars@, places@)[0] == chars@.subrange(from as int, to as int));
        assert(values@.map_values(|v: &str| v@) =~= pieces.drop_first());
    }
    let name = line.substring_char(from, to).to_owned();
    match Streak::deserialize(values.as_slice()) {
        Ok(streak) => Ok((name, streak)),
        Err(e) => Err(LineError::Streak(e)),
    }
}

impl State {
    /// The streaks with their names, in the ascending order of the names.
    pub fn streaks(&self) -> (listed: Vec<(String, Streak)>)
        ensures
            listed@.len() == name_order(self@.dom()).len(),
            forall|i: int|
                0 <= i < listed@.len() ==> (#[trigger] listed@[i]).0@ == name_order(
                    self@.dom(),
                )[i] && self@.contains_key(listed@[i].0@) && listed@[i].1@ == self@[listed@[i].0@],
    {
        let order = self.ordered();
        let n: usize = order.len();
        let ghost names = names_in(self.entries@, order@);
        let mut listed: Vec<(String, Streak)> = Vec::new();
        let mut i: usize = 0;
        while i < n
            invariant
                i <= n,
                n == order@.len(),
                listed@.len() == i,
                names == names_in(self.entries@, order@),
                names == name_order(self@.dom()),
                forall|k: int| 0 <= k < n ==> (#[trigger] order@[k]) < self.entries@.len(),
                forall|k: int|
                    0 <= k < n ==> self@.contains_key(#[trigger] names[k]) && self@[names[k]]
                        == self.entries@[order@[k] as int].streak@,
                forall|k: int|
                    0 <= k < i ==> (#[trigger] listed@[k]).0@ == names[k] && listed@[k].1@
                        == self@[names[k]],
            decreases n - i,
        {
            let entry = &self.entries[order[i]];
            proof {
                assert(names[i as int] == entry.name@);
            }
            listed.push((entry.name.clone(), entry.streak));
            i += 1;
        }
        listed
    }

    /// The text of the store: a line for each streak, in the ascending
    /// order of the names, with a line feed between the lines.
    pub fn serialize(&self) -> (text: String)
        ensures
            text@ == store_text(self@),
    {
        let order = self.ordered();
        let n: usize = order.len();
        let ghost names = names_in(self.entries@, order@);
        let ghost all = store_lines(self@);
        let mut text = String::new();
        let mut i: usize = 0;
        proof {
            assert(all.take(0) =~= Seq::<Seq<char>>::empty());
        }
        while i < n
            invariant
                i <= n,
                n == order@.len(),
                names == names_in(self.entries@, order@),
                names == name_order(self@.dom()),
                all == store_lines(self@),
                forall|k: int| 0 <= k < n ==> (#[trigger] order@[k]) < self.entries@.len(),
                forall|k: int|
                    0 <= k < n ==> self@.contains_key(#[trigger] names[k]) && self@[names[k]]
                        == self.entries@[order@[k] as int].streak@,
                text@ == join(all.take(i as int), '\n'),
            decreases n - i,
        {
            let entry = &self.entries[order[i]];
            let ghost so_far = text@;
            if i > 0 {
                text.push('\n');
            }
            text.append(entry.name.as_str());
            text.push(',');
            entry.streak.write_to(&mut text);
            proof {
                let line = line_text(names[i as int], self@[names[i as int]]);
                assert(names[i as int] == entry.name@);
                assert(all[i as int] == line);
                assert(all.take(i + 1).drop_last() =~= all.take(i as int));
                assert(all.take(i + 1).last() == line);
                if i == 0 {
                    assert(so_far =~= Seq::<char>::empty());
                    assert(text@ =~= line);
                } else {
                    assert(text@ =~= so_far.push('\n') + line);
                }
            }
            i += 1;
        }
        proof {
            assert(all.take(n as int) =~= all);
        }
        text
    }

    /// Reads a store from its text. The first line that fails is the
    /// error; of two lines with one name the later one stays.
    pub fn deserialize(string: &str) -> (read: Result<State, LoadError>)
        ensures
            match read {
                Ok(state) => parse_store(string@) == Some(state@),
                Err(e) => e.explains(string@) && parse_store(string@) is None,
            },
    {
        let chars = chars_of(string);
        let places = line_places(&chars);
        let n: usize = places.len();
        let ghost all = lines(string@);
        let mut entries: Vec<Entry> = Vec::new();
        let mut i: usize = 0;
        proof {
            assert(all.take(0) =~= Seq::<Seq<char>>::empty());
            assert(map_of(entries@) =~= Map::<Seq<char>, StreakModel>::empty());
        }
        while i < n
            invariant
                i <= n,
                n == places@.len(),
                chars@ == string@,
                all == lines(string@),
                places_within(places@, chars@.len()),
                cut(chars@, places@) == all,
                distinct(entries@),
                parse_lines(all.take(i as int)) == Some(map_of(entries@)),
            decreases n - i,
        {
            let (from, to) = places[i];
            proof {
                assert(cut(chars@, places@)[i as int] == chars@.subrange(from as int, to as int));
                assert(all.take(i + 1).drop_last() =~= all.take(i as int));
                assert(all.take(i + 1).last() == all[i as int]);
            }
            let line = string.substring_char(from, to);
            match read_line(line) {
                Ok((name, streak)) => {
                    put_entry(&mut entries, name, streak);
                },
                Err(reason) => {
                    proof {
                        lemma_parse_lines_fail(all, i + 1);
                    }
                    return Err(LoadError { line: i + 1, text: line.to_owned(), reason });
                },
            }
            i += 1;
        }
        proof {
            assert(all.take(n as int) =~= all);
        }
        Ok(State { entries })
    }
}

} // verus!
