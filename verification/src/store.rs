//! What the operations on the store do, said of the streaks by their names.

use crate::fuzzy::suggestion;
use crate::order::{lemma_name_order_holds, name_order};
use crate::streak::{StreakError, StreakModel, StreakState};
use crate::text::{
    decimal, join, lemma_decimal_round_trip, lemma_split_join, lines, plain, split,
    without_return,
};
use crate::time::Moment;
use vstd::prelude::*;

verus! {

/// The calendar days from the day of `then` to the day of `now`, each on
/// its own wall clock.
pub open spec fn days_between(now: Moment, then: Moment) -> int {
    now.day_number() - then.day_number()
}

/// Whether every streak has its running count within its best count.
pub open spec fn all_within_max(store: Map<Seq<char>, StreakModel>) -> bool {
    forall|name: Seq<char>| store.contains_key(name) ==> (#[trigger] store[name]).within_max()
}

/// The store with every streak aged to the day of `now`.
pub open spec fn reconciled(store: Map<Seq<char>, StreakModel>, now: Moment) -> Map<
    Seq<char>,
    StreakModel,
> {
    Map::new(
        |name: Seq<char>| store.contains_key(name),
        |name: Seq<char>| store[name].advance(days_between(now, store[name].last_hit)),
    )
}

/// The names of the streaks that were last hit on a later day than that of
/// `now`.
pub open spec fn clock_faults(store: Map<Seq<char>, StreakModel>, now: Moment) -> Set<Seq<char>> {
    Set::new(
        |name: Seq<char>| store.contains_key(name) && days_between(now, store[name].last_hit) < 0,
    )
}

/// The store after a fresh streak has been put under each of `names` in
/// turn.
pub open spec fn added(store: Map<Seq<char>, StreakModel>, names: Seq<Seq<char>>, now: Moment)
    -> Map<Seq<char>, StreakModel>
    decreases names.len(),
{
    if names.len() == 0 {
        store
    } else {
        added(store, names.drop_last(), now).insert(names.last(), StreakModel::fresh(now))
    }
}

/// The store after each of `names` has been taken out in turn.
pub open spec fn removed(store: Map<Seq<char>, StreakModel>, names: Seq<Seq<char>>) -> Map<
    Seq<char>,
    StreakModel,
>
    decreases names.len(),
{
    if names.len() == 0 {
        store
    } else {
        removed(store, names.drop_last()).remove(names.last())
    }
}

/// The store after the streak under `name` has been moved under
/// `new_name`, where it displaces what was there.
pub open spec fn renamed(store: Map<Seq<char>, StreakModel>, name: Seq<char>, new_name: Seq<char>)
    -> Map<Seq<char>, StreakModel> {
    if store.contains_key(name) {
        store.remove(name).insert(new_name, store[name])
    } else {
        store
    }
}

/// The name to ask about before a hit on `name`: a similar one, where no
/// streak goes by `name` itself.
pub open spec fn hit_question(store: Map<Seq<char>, StreakModel>, name: Seq<char>) -> Option<
    Seq<char>,
> {
    if store.contains_key(name) {
        None
    } else {
        suggestion(store.dom(), name)
    }
}

/// The name of the streak that a hit on `name` goes to: `name` itself,
/// unless a similar name was asked about and accepted.
pub open spec fn hit_target(store: Map<Seq<char>, StreakModel>, name: Seq<char>, accept: bool)
    -> Seq<char> {
    match hit_question(store, name) {
        Some(other) if accept => other,
        _ => name,
    }
}

/// The streak that a hit on `name` goes to, as it is before the hit: the
/// one in the store, or a fresh one where there is none.
pub open spec fn hit_base(
    store: Map<Seq<char>, StreakModel>,
    name: Seq<char>,
    accept: bool,
    now: Moment,
) -> StreakModel {
    let target = hit_target(store, name, accept);
    if store.contains_key(target) {
        store[target]
    } else {
        StreakModel::fresh(now)
    }
}

/// The store after a hit on `name`.
pub open spec fn after_hit(
    store: Map<Seq<char>, StreakModel>,
    name: Seq<char>,
    accept: bool,
    now: Moment,
) -> Map<Seq<char>, StreakModel> {
    store.insert(hit_target(store, name, accept), hit_base(store, name, accept, now).hit(now))
}

/// A streak that was last hit on the day of `now` is left as it is.
pub proof fn lemma_reconciled_same_day(
    store: Map<Seq<char>, StreakModel>,
    now: Moment,
    name: Seq<char>,
)
    requires
        store.contains_key(name),
        days_between(now, store[name].last_hit) == 0,
    ensures
        reconciled(store, now)[name] == store[name],
{
}

/// A streak that was last hit on the day before that of `now` becomes
/// pending, and keeps its counts.
pub proof fn lemma_reconciled_next_day(
    store: Map<Seq<char>, StreakModel>,
    now: Moment,
    name: Seq<char>,
)
    requires
        store.contains_key(name),
        days_between(now, store[name].last_hit) == 1,
    ensures
        reconciled(store, now)[name].state == StreakState::Pending,
        reconciled(store, now)[name].current_count == store[name].current_count,
        reconciled(store, now)[name].max_count == store[name].max_count,
        reconciled(store, now)[name].last_hit == store[name].last_hit,
{
}

/// A streak that was last hit more than a day before the day of `now`
/// expires: its running count falls to zero, its best count stays.
pub proof fn lemma_reconciled_later(
    store: Map<Seq<char>, StreakModel>,
    now: Moment,
    name: Seq<char>,
)
    requires
        store.contains_key(name),
        days_between(now, store[name].last_hit) > 1,
    ensures
        reconciled(store, now)[name].state == StreakState::Expired,
        reconciled(store, now)[name].current_count == 0,
        reconciled(store, now)[name].max_count == store[name].max_count,
        reconciled(store, now)[name].last_hit == store[name].last_hit,
{
}

/// To reconcile again on the same day changes nothing more.
pub proof fn lemma_reconciled_twice(store: Map<Seq<char>, StreakModel>, now: Moment, again: Moment)
    requires
        again.day_number() == now.day_number(),
    ensures
        reconciled(reconciled(store, now), again) == reconciled(store, now),
{
    let once = reconciled(store, now);
    let twice = reconciled(once, again);
    assert forall|name: Seq<char>| once.contains_key(name) implies #[trigger] twice[name]
        == once[name] by {
        let days = days_between(now, store[name].last_hit);
        assert(once[name] == store[name].advance(days));
        assert(once[name].last_hit == store[name].last_hit);
        assert(twice[name] == once[name].advance(days));
    }
    assert(twice =~= once);
}

/// Adding keeps what is not named and makes every named streak fresh.
pub proof fn lemma_added(
    store: Map<Seq<char>, StreakModel>,
    names: Seq<Seq<char>>,
    now: Moment,
    name: Seq<char>,
)
    ensures
        added(store, names, now).contains_key(name) <==> store.contains_key(name)
            || names.contains(name),
        names.contains(name) ==> added(store, names, now)[name] == StreakModel::fresh(now),
        !names.contains(name) && store.contains_key(name) ==> added(store, names, now)[name]
            == store[name],
    decreases names.len(),
{
    if names.len() > 0 {
        let init = names.drop_last();
        lemma_added(store, init, now, name);
        if init.contains(name) {
            let i = choose|i: int| 0 <= i < init.len() && init[i] == name;
            assert(names[i] == name);
        }
        if names.contains(name) {
            let i = choose|i: int| 0 <= i < names.len() && names[i] == name;
            if i < init.len() {
                assert(init[i] == name);
            }
        }
        assert(names[names.len() - 1] == names.last());
    }
}

/// Removing keeps exactly what is not named.
pub proof fn lemma_removed(
    store: Map<Seq<char>, StreakModel>,
    names: Seq<Seq<char>>,
    name: Seq<char>,
)
    ensures
        removed(store, names).contains_key(name) <==> store.contains_key(name) && !names.contains(
            name,
        ),
        removed(store, names).contains_key(name) ==> removed(store, names)[name] == store[name],
    decreases names.len(),
{
    if names.len() > 0 {
        let init = names.drop_last();
        lemma_removed(store, init, name);
        if init.contains(name) {
            let i = choose|i: int| 0 <= i < init.len() && init[i] == name;
            assert(names[i] == name);
        }
        if names.contains(name) {
            let i = choose|i: int| 0 <= i < names.len() && names[i] == name;
            if i < init.len() {
                assert(init[i] == name);
            }
        }
        assert(names[names.len() - 1] == names.last());
    }
}

/// The line of a streak: its name and its values, with a comma between.
pub open spec fn line_text(name: Seq<char>, streak: StreakModel) -> Seq<char> {
    name.push(',') + streak.text()
}

/// The lines of a store: one for each streak, in the ascending order of
/// the names.
pub open spec fn store_lines(store: Map<Seq<char>, StreakModel>) -> Seq<Seq<char>> {
    let names = name_order(store.dom());
    Seq::new(names.len(), |i: int| line_text(names[i], store[names[i]]))
}

/// The text of a store: its lines with a line feed between them.
pub open spec fn store_text(store: Map<Seq<char>, StreakModel>) -> Seq<char> {
    join(store_lines(store), '\n')
}

/// The name and the streak that a line stands for: the name is what
/// precedes the first comma, and four values follow it.
pub open spec fn parse_line(line: Seq<char>) -> Option<(Seq<char>, StreakModel)> {
    let values = split(line, ',');
    if values.len() < 2 {
        None
    } else {
        match StreakModel::parse(values.drop_first()) {
            Some(streak) => Some((values[0], streak)),
            None => None,
        }
    }
}

/// The store that lines stand for, a later line displacing an earlier one
/// of the same name; nothing if any line fails.
pub open spec fn parse_lines(lines: Seq<Seq<char>>) -> Option<Map<Seq<char>, StreakModel>>
    decreases lines.len(),
{
    if lines.len() == 0 {
        Some(Map::empty())
    } else {
        match (parse_lines(lines.drop_last()), parse_line(lines.last())) {
            (Some(store), Some((name, streak))) => Some(store.insert(name, streak)),
            _ => None,
        }
    }
}

/// The store that a text stands for.
pub open spec fn parse_store(text: Seq<char>) -> Option<Map<Seq<char>, StreakModel>> {
    parse_lines(lines(text))
}

/// Why a line was not taken for a streak.
#[derive(Clone, Copy, Debug, PartialEq, Eq)]
pub enum LineError {
    /// The line holds no comma, so at most a name.
    MissingFields,
    /// What follows the name is no streak.
    Streak(StreakError),
}

impl LineError {
    /// Whether this is why `line` fails.
    pub open spec fn explains(self, line: Seq<char>) -> bool {
        match self {
            LineError::MissingFields => split(line, ',').len() < 2,
            LineError::Streak(e) => split(line, ',').len() >= 2 && e.explains(
                split(line, ',').drop_first(),
            ),
        }
    }
}

/// Why a text was not taken for a store: the first line that fails, by its
/// number from one, with its text and the reason.
#[derive(Clone, Debug, PartialEq, Eq)]
pub struct LoadError {
    pub line: usize,
    pub text: String,
    pub reason: LineError,
}

impl LoadError {
    /// Whether this is the error of the first line of `text` that fails.
    pub open spec fn explains(self, text: Seq<char>) -> bool {
        let all = lines(text);
        &&& 1 <= self.line <= all.len()
        &&& parse_lines(all.take(self.line - 1)) is Some
        &&& parse_line(all[self.line - 1]) is None
        &&& self.text@ == all[self.line - 1]
        &&& self.reason.explains(all[self.line - 1])
    }
}

/// Whether a store comes back from its own text: there are finitely many
/// streaks, no name holds a comma or a line feed, both counts of every
/// streak fit in 32 bits, and every moment comes back from its text.
pub open spec fn storable(store: Map<Seq<char>, StreakModel>) -> bool {
    &&& store.dom().finite()
    &&& forall|name: Seq<char>| #[trigger]
        store.contains_key(name) ==> plain(name) && store[name].storable()
            && store[name].last_hit.legible()
}

/// Once a line has failed, the lines that follow do not mend the text.
pub proof fn lemma_parse_lines_fail(lines: Seq<Seq<char>>, k: int)
    requires
        0 <= k <= lines.len(),
        parse_lines(lines.take(k)) is None,
    ensures
        parse_lines(lines) is None,
    decreases lines.len() - k,
{
    if k < lines.len() {
        assert(lines.take(k + 1).drop_last() =~= lines.take(k));
        lemma_parse_lines_fail(lines, k + 1);
    } else {
        assert(lines.take(k) =~= lines);
    }
}

/// The line of a streak is read back as the streak under its name, and is
/// fit to stand among the lines of a text.
pub proof fn lemma_line_round_trip(name: Seq<char>, streak: StreakModel)
    requires
        plain(name),
        streak.storable(),
        streak.last_hit.legible(),
    ensures
        parse_line(line_text(name, streak)) == Some((name, streak)),
        !line_text(name, streak).contains('\n'),
        line_text(name, streak).len() > 0,
        without_return(line_text(name, streak)) == line_text(name, streak),
{
    let line = line_text(name, streak);
    let current = decimal(streak.current_count);
    let max = decimal(streak.max_count);
    let moment = streak.last_hit.text();
    let word = streak.state.token();
    let values = seq![name, current, max, moment, word];
    lemma_decimal_round_trip(streak.current_count);
    lemma_decimal_round_trip(streak.max_count);
    streak.state.lemma_token_round_trip();
    assert(join(values, ',') =~= line) by {
        let v4 = values.drop_last();
        let v3 = v4.drop_last();
        let v2 = v3.drop_last();
        let v1 = v2.drop_last();
        assert(v1 =~= seq![name]);
        assert(join(v1, ',') == name);
        assert(join(v2, ',') =~= name.push(',') + current);
        assert(join(v3, ',') =~= name.push(',') + current.push(',') + max);
        assert(join(v4, ',') =~= name.push(',') + current.push(',') + max.push(',') + moment);
        assert(join(values, ',') =~= join(v4, ',').push(',') + word);
    }
    assert forall|i: int| 0 <= i < values.len() implies !(#[trigger] values[i]).contains(',') by {}
    lemma_split_join(values, ',');
    assert(values.drop_first() =~= seq![current, max, moment, word]);
    assert(line.last() == word.last());
    assert(!line.contains('\n')) by {
        if line.contains('\n') {
            let i = choose|i: int| 0 <= i < line.len() && line[i] == '\n';
            let a = name.len() as int;
            let b = a + 1 + current.len();
            let c = b + 1 + max.len();
            let d = c + 1 + moment.len();
            if i < a {
                assert(name[i] == '\n');
            } else if i == a {
            } else if i < b {
                assert(current[i - a - 1] == '\n');
            } else if i == b {
            } else if i < c {
                assert(max[i - b - 1] == '\n');
            } else if i == c {
            } else if i < d {
                assert(moment[i - c - 1] == '\n');
            } else if i == d {
            } else {
                assert(word[i - d - 1] == '\n');
            }
        }
    }
}

/// A text is cut back into the lines it was joined from, where there is
/// no line feed in them, none is empty, and none ends in a carriage return.
pub proof fn lemma_lines_of_join(all: Seq<Seq<char>>)
    requires
        forall|i: int|
            0 <= i < all.len() ==> !(#[trigger] all[i]).contains('\n') && all[i].len() > 0
                && without_return(all[i]) == all[i],
    ensures
        lines(join(all, '\n')) == all,
{
    let text = join(all, '\n');
    if all.len() == 0 {
        assert(split(text, '\n') =~= seq![Seq::<char>::empty()]);
        assert(lines(text) =~= all);
    } else {
        lemma_split_join(all, '\n');
        let ended = all.drop_last().map_values(|p: Seq<char>| without_return(p));
        assert(ended =~= all.drop_last());
        assert(ended.push(all.last()) =~= all);
    }
}

/// The part of a store that lies under the given names.
spec fn part_under(store: Map<Seq<char>, StreakModel>, names: Set<Seq<char>>) -> Map<
    Seq<char>,
    StreakModel,
> {
    store.restrict(names)
}

proof fn lemma_parse_listed(store: Map<Seq<char>, StreakModel>, k: int)
    requires
        storable(store),
        0 <= k <= store_lines(store).len(),
    ensures
        parse_lines(store_lines(store).take(k)) == Some(
            part_under(store, name_order(store.dom()).take(k).to_set()),
        ),
    decreases k,
{
    let names = name_order(store.dom());
    let all = store_lines(store);
    lemma_name_order_holds(store.dom());
    if k == 0 {
        assert(names.take(0).to_set() =~= Set::<Seq<char>>::empty());
        assert(part_under(store, names.take(0).to_set()) =~= Map::<
            Seq<char>,
            StreakModel,
        >::empty());
        assert(all.take(0) =~= Seq::<Seq<char>>::empty());
    } else {
        lemma_parse_listed(store, k - 1);
        let name = names[k - 1];
        assert(names.contains(name));
        assert(store.contains_key(name));
        lemma_line_round_trip(name, store[name]);
        assert(all.take(k).drop_last() =~= all.take(k - 1));
        assert(all.take(k).last() == line_text(name, store[name]));
        let shorter = names.take(k - 1);
        let longer = names.take(k);
        assert(longer.to_set() =~= shorter.to_set().insert(name)) by {
            assert forall|x: Seq<char>| longer.to_set().contains(x) <==> shorter.to_set().insert(
                name,
            ).contains(x) by {
                if longer.contains(x) {
                    let i = choose|i: int| 0 <= i < longer.len() && longer[i] == x;
                    if i < k - 1 {
                        assert(shorter[i] == x);
                    }
                }
                if shorter.contains(x) {
                    let i = choose|i: int| 0 <= i < shorter.len() && shorter[i] == x;
                    assert(longer[i] == x);
                }
                if x == name {
                    assert(longer[k - 1] == x);
                }
            }
        }
        assert(part_under(store, names.take(k - 1).to_set()).insert(name, store[name])
            =~= part_under(store, names.take(k).to_set()));
    }
}

/// A store that is written and then read is the store that was written:
/// the names, both counts, the states and the moments of the last hits.
pub proof fn lemma_round_trip(store: Map<Seq<char>, StreakModel>)
    requires
        storable(store),
    ensures
        parse_store(store_text(store)) == Some(store),
{
    let names = name_order(store.dom());
    let all = store_lines(store);
    lemma_name_order_holds(store.dom());
    assert forall|i: int| 0 <= i < all.len() implies !(#[trigger] all[i]).contains('\n')
        && all[i].len() > 0 && without_return(all[i]) == all[i] by {
        assert(names.contains(names[i]));
        assert(store.dom().contains(names[i]));
        assert(store.contains_key(names[i]));
        lemma_line_round_trip(names[i], store[names[i]]);
    }
    lemma_lines_of_join(all);
    lemma_parse_listed(store, all.len() as int);
    assert(all.take(all.len() as int) =~= all);
    assert(names.take(names.len() as int) =~= names);
    assert(part_under(store, names.to_set()) =~= store) by {
        assert forall|x: Seq<char>| store.contains_key(x) implies names.to_set().contains(x) by {
            assert(names.contains(x));
        }
    }
}

} // verus!
