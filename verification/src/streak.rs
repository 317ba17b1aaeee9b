//! One habit: its running count, its best count, the moment of its last
//! hit, and where it stands in its daily cycle.

use crate::text::{
    chars_of, decimal, number_value, parse_u32, plain, push_decimal, NumberError,
};
use crate::time::{parsed_moment, read_moment, Moment, TimeError, Timestamp};
use vstd::prelude::*;
use vstd::slice::slice_index_get;
use vstd::string::StringExecFns;

verus! {

/// Where a streak stands today.
#[derive(Clone, Copy, Debug, PartialEq, Eq, Structural)]
pub enum StreakState {
    /// Hit today.
    Done,
    /// Hit yesterday, and not yet today.
    Pending,
    /// A day was missed: the chain is broken.
    Expired,
    /// Never hit.
    New,
}

impl StreakState {
    /// The word that stands for the state in a file.
    pub open spec fn token(self) -> Seq<char> {
        match self {
            StreakState::Done => seq!['D', 'o', 'n', 'e'],
            StreakState::Pending => seq!['P', 'e', 'n', 'd', 'i', 'n', 'g'],
            StreakState::Expired => seq!['E', 'x', 'p', 'i', 'r', 'e', 'd'],
            StreakState::New => seq!['N', 'e', 'w'],
        }
    }

    /// The state that a word stands for.
    pub open spec fn of_token(word: Seq<char>) -> Option<StreakState> {
        if word == StreakState::Done.token() {
            Some(StreakState::Done)
        } else if word == StreakState::Pending.token() {
            Some(StreakState::Pending)
        } else if word == StreakState::Expired.token() {
            Some(StreakState::Expired)
        } else if word == StreakState::New.token() {
            Some(StreakState::New)
        } else {
            None
        }
    }

    /// Every state is read back from its own word, and no word holds a
    /// comma, a line feed or a carriage return.
    pub proof fn lemma_token_round_trip(self)
        ensures
            StreakState::of_token(self.token()) == Some(self),
            plain(self.token()),
            self.token().len() > 0,
            self.token().last() != '\r',
    {
        let word = self.token();
        assert(StreakState::Done.token().len() == 4);
        assert(StreakState::Pending.token()[0] == 'P');
        assert(StreakState::Expired.token()[0] == 'E');
        assert(StreakState::New.token().len() == 3);
        assert(!word.contains(',')) by {
            if word.contains(',') {
                let i = choose|i: int| 0 <= i < word.len() && word[i] == ',';
            }
        }
        assert(!word.contains('\n')) by {
            if word.contains('\n') {
                let i = choose|i: int| 0 <= i < word.len() && word[i] == '\n';
            }
        }
    }

    pub fn serialize(&self) -> (word: &'static str)
        ensures
            word@ == self.token(),
    {
        proof {
            reveal_strlit("Done");
            reveal_strlit("Pending");
            reveal_strlit("Expired");
            reveal_strlit("New");
        }
        match self {
            StreakState::Done => {
                assert("Done"@ =~= StreakState::Done.token());
                "Done"
            },
            StreakState::Pending => {
                assert("Pending"@ =~= StreakState::Pending.token());
                "Pending"
            },
            StreakState::Expired => {
                assert("Expired"@ =~= StreakState::Expired.token());
                "Expired"
            },
            StreakState::New => {
                assert("New"@ =~= StreakState::New.token());
                "New"
            },
        }
    }

    pub fn deserialize(string: &str) -> (read: Result<StreakState, StreakError>)
        ensures
            match read {
                Ok(state) => StreakState::of_token(string@) == Some(state),
                Err(e) => e == StreakError::State && StreakState::of_token(string@) is None,
            },
    {
        let word = chars_of(string);
        let n: usize = word.len();
        if n == 4 && word[0] == 'D' && word[1] == 'o' && word[2] == 'n' && word[3] == 'e' {
            assert(word@ =~= StreakState::Done.token());
            Ok(StreakState::Done)
        } else if n == 7 && word[0] == 'P' && word[1] == 'e' && word[2] == 'n' && word[3] == 'd'
            && word[4] == 'i' && word[5] == 'n' && word[6] == 'g' {
            assert(word@ =~= StreakState::Pending.token());
            assert(StreakState::Done.token().len() == 4);
            Ok(StreakState::Pending)
        } else if n == 7 && word[0] == 'E' && word[1] == 'x' && word[2] == 'p' && word[3] == 'i'
            && word[4] == 'r' && word[5] == 'e' && word[6] == 'd' {
            assert(word@ =~= StreakState::Expired.token());
            assert(StreakState::Done.token().len() == 4);
            assert(StreakState::Pending.token()[0] == 'P');
            Ok(StreakState::Expired)
        } else if n == 3 && word[0] == 'N' && word[1] == 'e' && word[2] == 'w' {
            assert(word@ =~= StreakState::New.token());
            assert(StreakState::Done.token().len() == 4);
            assert(StreakState::Pending.token().len() == 7);
            assert(StreakState::Expired.token().len() == 7);
            Ok(StreakState::New)
        } else {
            proof {
                let done = StreakState::Done.token();
                let pending = StreakState::Pending.token();
                let expired = StreakState::Expired.token();
                let new = StreakState::New.token();
                assert(done.len() == 4 && done[0] == 'D' && done[1] == 'o' && done[2] == 'n'
                    && done[3] == 'e');
                assert(pending.len() == 7 && pending[0] == 'P' && pending[1] == 'e' && pending[2]
                    == 'n' && pending[3] == 'd' && pending[4] == 'i' && pending[5] == 'n'
                    && pending[6] == 'g');
                assert(expired.len() == 7 && expired[0] == 'E' && expired[1] == 'x' && expired[2]
                    == 'p' && expired[3] == 'i' && expired[4] == 'r' && expired[5] == 'e'
                    && expired[6] == 'd');
                assert(new.len() == 3 && new[0] == 'N' && new[1] == 'e' && new[2] == 'w');
            }
            Err(StreakError::State)
        }
    }
}

/// Why the values of a line were not taken for a streak.
#[derive(Clone, Copy, Debug, PartialEq, Eq)]
pub enum StreakError {
    /// There are not four values, but this many.
    FieldCount(usize),
    /// The running count is no number.
    CurrentCount(NumberError),
    /// The best count is no number.
    MaxCount(NumberError),
    /// The moment of the last hit is no timestamp.
    LastHit(TimeError),
    /// The state is none of the four words.
    State,
}

impl StreakError {
    /// Whether this is the error of the first value that fails, the values
    /// taken in the order in which a line holds them.
    pub open spec fn explains(self, values: Seq<Seq<char>>) -> bool {
        match self {
            StreakError::FieldCount(n) => values.len() != 4 && n == values.len(),
            StreakError::CurrentCount(e) => values.len() == 4 && number_value(values[0])
                == Err::<nat, NumberError>(e),
            StreakError::MaxCount(e) => values.len() == 4 && number_value(values[0]) is Ok
                && number_value(values[1]) == Err::<nat, NumberError>(e),
            StreakError::LastHit(e) => values.len() == 4 && number_value(values[0]) is Ok
                && number_value(values[1]) is Ok && read_moment(values[2]) is None && (match e {
                TimeError::Unreadable(_) => parsed_moment(values[2]) is None,
                TimeError::OutOfRange => parsed_moment(values[2]) is Some,
            }),
            StreakError::State => values.len() == 4 && number_value(values[0]) is Ok
                && number_value(values[1]) is Ok && read_moment(values[2]) is Some
                && StreakState::of_token(values[3]) is None,
        }
    }
}

/// What a streak is.
pub struct StreakModel {
    pub current_count: nat,
    pub max_count: nat,
    pub last_hit: Moment,
    pub state: StreakState,
}

impl StreakModel {
    /// A streak as it is when it is first tracked.
    pub open spec fn fresh(now: Moment) -> StreakModel {
        StreakModel { current_count: 0, max_count: 0, last_hit: now, state: StreakState::New }
    }

    /// The running count never exceeds the best count.
    pub open spec fn within_max(self) -> bool {
        self.current_count <= self.max_count
    }

    /// Both counts fit in 32 bits and the moment of the last hit is valid.
    pub open spec fn storable(self) -> bool {
        &&& self.current_count <= u32::MAX
        &&& self.max_count <= u32::MAX
        &&& self.last_hit.valid()
    }

    /// The streak with a new running count, which the best count follows
    /// where it is greater.
    pub open spec fn with_count(self, count: nat) -> StreakModel {
        StreakModel {
            current_count: count,
            max_count: if self.max_count >= count {
                self.max_count
            } else {
                count
            },
            ..self
        }
    }

    /// The running count after a hit that counts.
    pub open spec fn next_count(self) -> nat {
        match self.state {
            StreakState::Pending => self.current_count + 1,
            _ => 1,
        }
    }

    /// A hit can be recorded unless it would take the count beyond 32 bits.
    pub open spec fn can_hit(self) -> bool {
        self.state == StreakState::Pending ==> self.current_count < u32::MAX
    }

    /// The streak after a hit at `now`. A streak that is done stays as it
    /// is. A pending one goes on counting; a new or expired one starts at
    /// one.
    pub open spec fn hit(self, now: Moment) -> StreakModel {
        match self.state {
            StreakState::Done => self,
            _ => StreakModel {
                last_hit: now,
                state: StreakState::Done,
                ..self.with_count(self.next_count())
            },
        }
    }

    /// What a hit reports: the new count, or nothing for a streak that was
    /// done already.
    pub open spec fn hit_report(self) -> Option<nat> {
        match self.state {
            StreakState::Done => None,
            _ => Some(self.next_count()),
        }
    }

    /// The streak once `days` calendar days lie between its last hit and
    /// today. A negative number of days is a clock that went backwards:
    /// the streak is then pending with a count of zero.
    pub open spec fn advance(self, days: int) -> StreakModel {
        if days == 0 {
            self
        } else if days == 1 {
            StreakModel { state: StreakState::Pending, ..self }
        } else if days > 1 {
            StreakModel { state: StreakState::Expired, ..self.with_count(0) }
        } else {
            StreakModel { state: StreakState::Pending, ..self.with_count(0) }
        }
    }

    /// The values of the streak as a line holds them: both counts, the
    /// moment of the last hit and the state, with commas between them.
    pub open spec fn text(self) -> Seq<char> {
        decimal(self.current_count).push(',') + decimal(self.max_count).push(',')
            + self.last_hit.text().push(',') + self.state.token()
    }

    /// The streak that four values stand for.
    pub open spec fn parse(values: Seq<Seq<char>>) -> Option<StreakModel> {
        if values.len() != 4 {
            None
        } else {
            match (
                number_value(values[0]),
                number_value(values[1]),
                read_moment(values[2]),
                StreakState::of_token(values[3]),
            ) {
                (Ok(current_count), Ok(max_count), Some(last_hit), Some(state)) => Some(
                    StreakModel { current_count, max_count, last_hit, state },
                ),
                _ => None,
            }
        }
    }

    /// A hit leaves the running count within the best count where it was,
    /// and brings it there where the hit counts.
    pub proof fn lemma_hit_within_max(self, now: Moment)
        ensures
            self.within_max() || self.state != StreakState::Done ==> self.hit(now).within_max(),
            self.max_count <= self.hit(now).max_count,
    {
    }

    /// A day's passing leaves the running count within the best count where
    /// it was, and never lowers the best count.
    pub proof fn lemma_advance_within_max(self, days: int)
        ensures
            self.within_max() ==> self.advance(days).within_max(),
            self.advance(days).max_count == self.max_count,
            self.advance(days).last_hit == self.last_hit,
    {
    }
}

/// A tracked habit.
#[derive(Clone, Copy, Debug, PartialEq, Eq)]
pub struct Streak {
    current_count: u32,
    max_count: u32,
    last_hit: Timestamp,
    state: StreakState,
}

impl Streak {
    pub closed spec fn view(&self) -> StreakModel {
        StreakModel {
            current_count: self.current_count as nat,
            max_count: self.max_count as nat,
            last_hit: self.last_hit@,
            state: self.state,
        }
    }

    /// A streak that has never been hit, tracked from `now` on.
    pub fn new(now: Timestamp) -> (streak: Streak)
        ensures
            streak@ == StreakModel::fresh(now@),
            streak@.within_max(),
    {
        Streak { current_count: 0, max_count: 0, last_hit: now, state: StreakState::New }
    }

    pub fn current_count(&self) -> (count: u32)
        ensures
            count == self@.current_count,
    {
        self.current_count
    }

    pub fn max_count(&self) -> (count: u32)
        ensures
            count == self@.max_count,
    {
        self.max_count
    }

    pub fn last_hit(&self) -> (moment: Timestamp)
        ensures
            moment@ == self@.last_hit,
    {
        self.last_hit
    }

    pub fn state(&self) -> (state: StreakState)
        ensures
            state == self@.state,
    {
        self.state
    }

    /// Sets the running count, and raises the best count to it where it is
    /// greater.
    pub fn update_count(&mut self, count: u32)
        ensures
            final(self)@ == old(self)@.with_count(count as nat),
            final(self)@.within_max(),
    {
        self.current_count = count;
        if self.max_count < count {
            self.max_count = count;
        }
    }

    /// Records a hit at `now`, and returns the new count if the hit counts.
    pub fn hit(&mut self, now: Timestamp) -> (count: Option<u32>)
        requires
            old(self)@.can_hit(),
        ensures
            final(self)@ == old(self)@.hit(now@),
            match count {
                Some(n) => old(self)@.hit_report() == Some(n as nat),
                None => old(self)@.hit_report() is None,
            },
            old(self)@.state == StreakState::Pending ==> final(self)@.current_count == old(self)@.current_count + 1,
            old(self)@.state == StreakState::New || old(self)@.state == StreakState::Expired
                ==> final(self)@.current_count == 1,
            old(self)@.state != StreakState::Done ==> final(self)@.state == StreakState::Done
                && final(self)@.last_hit == now@ && count == Some(
                final(self)@.current_count as u32,
            ),
            old(self)@.state == StreakState::Done ==> final(self)@ == old(self)@ && count is None,
            old(self)@.within_max() || old(self)@.state != StreakState::Done ==> final(self)@.within_max(),
            final(self)@.max_count >= old(self)@.max_count,
    {
        match self.state {
            StreakState::Done => None,
            StreakState::Expired | StreakState::New => {
                self.state = StreakState::Done;
                self.last_hit = now;
                self.update_count(1);
                Some(self.current_count)
            },
            StreakState::Pending => {
                self.state = StreakState::Done;
                self.last_hit = now;
                let next: u32 = self.current_count + 1;
                self.update_count(next);
                Some(self.current_count)
            },
        }
    }

    /// Ages the streak by the calendar days between its last hit and
    /// today, and says whether that number was negative.
    pub fn advance_day(&mut self, days: i32) -> (backwards: bool)
        ensures
            final(self)@ == old(self)@.advance(days as int),
            backwards == (days < 0),
            days == 0 ==> final(self)@ == old(self)@,
            days == 1 ==> final(self)@.state == StreakState::Pending
                && final(self)@.current_count == old(self)@.current_count,
            days > 1 ==> final(self)@.state == StreakState::Expired
                && final(self)@.current_count == 0,
            days < 0 ==> final(self)@.state == StreakState::Pending
                && final(self)@.current_count == 0,
            final(self)@.max_count == old(self)@.max_count,
            final(self)@.last_hit == old(self)@.last_hit,
            old(self)@.within_max() ==> final(self)@.within_max(),
    {
        if days == 0 {
            false
        } else if days == 1 {
            self.state = StreakState::Pending;
            false
        } else if days > 1 {
            self.state = StreakState::Expired;
            self.update_count(0);
            false
        } else {
            self.state = StreakState::Pending;
            self.update_count(0);
            true
        }
    }

    /// Appends the values of the streak to `out` as a line holds them.
    pub fn write_to(&self, out: &mut String)
        ensures
            final(out)@ == old(out)@ + self@.text(),
    {
        push_decimal(out, self.current_count);
        out.push(',');
        push_decimal(out, self.max_count);
        out.push(',');
        let moment = self.last_hit.to_text();
        out.append(moment.as_str());
        out.push(',');
        out.append(self.state.serialize());
        proof {
            let m = self@;
            assert(final(out)@ =~= old(out)@ + m.text());
        }
    }

    /// The values of the streak as a line holds them.
    pub fn serialize(&self) -> (text: String)
        ensures
            text@ == self@.text(),
    {
        let mut text = String::new();
        self.write_to(&mut text);
        proof {
            assert(Seq::<char>::empty() + self@.text() =~= self@.text());
        }
        text
    }

    /// Reads a streak from the four values of a line.
    pub fn deserialize(values: &[&str]) -> (read: Result<Streak, StreakError>)
        ensures
            match read {
                Ok(streak) => StreakModel::parse(values@.map_values(|v: &str| v@)) == Some(
                    streak@,
                ),
                Err(e) => e.explains(values@.map_values(|v: &str| v@))
                    && StreakModel::parse(values@.map_values(|v: &str| v@)) is None,
            },
    {
        let ghost fields = values@.map_values(|v: &str| v@);
        if values.len() != 4 {
            return Err(StreakError::FieldCount(values.len()));
        }
        let current_count = match parse_u32(*slice_index_get(values, 0)) {
            Ok(n) => n,
            Err(e) => {
                return Err(StreakError::CurrentCount(e));
            },
        };
        let max_count = match parse_u32(*slice_index_get(values, 1)) {
            Ok(n) => n,
            Err(e) => {
                return Err(StreakError::MaxCount(e));
            },
        };
        let last_hit = match Timestamp::from_text(*slice_index_get(values, 2)) {
            Ok(t) => t,
            Err(e) => {
                return Err(StreakError::LastHit(e));
            },
        };
        let state = match StreakState::deserialize(*slice_index_get(values, 3)) {
            Ok(s) => s,
            Err(e) => {
                return Err(e);
            },
        };
        Ok(Streak { current_count, max_count, last_hit, state })
    }
}

} // verus!
