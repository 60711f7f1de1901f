//! A routing table, and what it was asked.

use vstd::prelude::*;
use crate::tun::prefixes::{ascending, Prefix};
use crate::tun::{Change, RouteTable, TunError};

verus! {

/// One question put to a routing table, and what it answered.
pub ghost struct Answer {
    /// Whether it was asked to put the prefix in, rather than to take it out.
    pub add: bool,
    pub prefix: Prefix,
    pub outcome: Result<(), TunError>,
}

/// A routing table that everything is asked of through here.
pub struct Asked<T: RouteTable> {
    table: T,
    answers: Ghost<Seq<Answer>>,
}

impl<T: RouteTable> Asked<T> {
    /// Everything the table was asked so far, in order.
    pub closed spec fn answers(&self) -> Seq<Answer> {
        self.answers@
    }

    /// The table as it is now.
    pub closed spec fn inside(&self) -> T {
        self.table
    }

    /// A table that nothing was asked of yet.
    pub fn new(table: T) -> (asked: Self)
        ensures
            asked.inside() == table,
            asked.answers() == Seq::<Answer>::empty(),
    {
        Asked { table, answers: Ghost(Seq::empty()) }
    }

    /// Ask the table to put a prefix in.
    pub fn add(&mut self, prefix: Prefix) -> (outcome: Result<(), TunError>)
        ensures
            final(self).answers() == old(self).answers().push(
                Answer { add: true, prefix, outcome },
            ),
    {
        let outcome = self.table.add(prefix.0, prefix.1);
        self.answers = Ghost(self.answers@.push(Answer { add: true, prefix, outcome }));
        outcome
    }

    /// Ask the table to take a prefix out.
    pub fn remove(&mut self, prefix: Prefix) -> (outcome: Result<(), TunError>)
        ensures
            final(self).answers() == old(self).answers().push(
                Answer { add: false, prefix, outcome },
            ),
    {
        let outcome = self.table.remove(prefix.0, prefix.1);
        self.answers = Ghost(self.answers@.push(Answer { add: false, prefix, outcome }));
        outcome
    }

    /// The table itself.
    pub fn table(&self) -> (table: &T)
        ensures
            *table == self.inside(),
    {
        &self.table
    }
}

/// The prefixes that are routed after a run of answers: those the table agreed to move have moved.
pub open spec fn rows_after(rows: Set<Prefix>, answers: Seq<Answer>) -> Set<Prefix>
    decreases answers.len(),
{
    if answers.len() == 0 {
        rows
    } else {
        let before = rows_after(rows, answers.drop_last());
        let last = answers.last();
        if last.outcome is Err {
            before
        } else if last.add {
            before.insert(last.prefix)
        } else {
            before.remove(last.prefix)
        }
    }
}

/// The prefixes that the table agreed to put in, or to take out, in order.
pub open spec fn moved(answers: Seq<Answer>, add: bool) -> Seq<Prefix>
    decreases answers.len(),
{
    if answers.len() == 0 {
        Seq::empty()
    } else {
        let before = moved(answers.drop_last(), add);
        let last = answers.last();
        if last.outcome is Ok && last.add == add {
            before.push(last.prefix)
        } else {
            before
        }
    }
}

/// The first refusal among answers.
pub open spec fn first_refusal(answers: Seq<Answer>) -> Option<TunError>
    decreases answers.len(),
{
    if answers.len() == 0 {
        None
    } else {
        match first_refusal(answers.drop_last()) {
            Some(problem) => Some(problem),
            None => match answers.last().outcome {
                Ok(_) => None,
                Err(problem) => Some(problem),
            },
        }
    }
}

/// Whether these are the prefixes of a set, in order.
pub open spec fn in_order(prefixes: Seq<Prefix>, set: Set<Prefix>) -> bool {
    ascending(prefixes) && prefixes.to_set() == set
}

/// Whether a table was asked to take these prefixes out, and then to put those in.
pub open spec fn asks_for(answers: Seq<Answer>, going: Seq<Prefix>, coming: Seq<Prefix>) -> bool {
    &&& answers.len() == going.len() + coming.len()
    &&& forall|i: int|
        0 <= i < going.len() ==> !(#[trigger] answers[i]).add && answers[i].prefix == going[i]
    &&& forall|i: int|
        going.len() <= i < answers.len() ==> (#[trigger] answers[i]).add && answers[i].prefix
            == coming[i - going.len()]
}

/// Whether a table was asked what making some rows into a wanted set takes: first everything that
/// is routed and not wanted is taken out, and then everything that is wanted and not routed is put
/// in, each in order.
pub open spec fn asks_for_difference(
    answers: Seq<Answer>,
    rows: Set<Prefix>,
    wanted: Set<Prefix>,
) -> bool {
    exists|going: Seq<Prefix>, coming: Seq<Prefix>| #[trigger]
        asks_for(answers, going, coming) && in_order(going, rows.difference(wanted)) && in_order(
            coming,
            wanted.difference(rows),
        )
}

/// What the answers of a table come to: what moved, or the first refusal.
pub open spec fn comes_to(answers: Seq<Answer>, change: Result<Change, TunError>) -> bool {
    match first_refusal(answers) {
        Some(problem) => change == Err::<Change, TunError>(problem),
        None => change matches Ok(change) && change.removed@ == moved(answers, false)
            && change.added@ == moved(answers, true),
    }
}

/// Whether making some rows into a wanted set was asked of a table whose answers so far were
/// `before` and are now `after`, and came to these rows and this change.
pub open spec fn applies(
    before: Seq<Answer>,
    after: Seq<Answer>,
    rows: Set<Prefix>,
    now: Set<Prefix>,
    wanted: Set<Prefix>,
    change: Result<Change, TunError>,
) -> bool {
    &&& before.len() <= after.len()
    &&& after.take(before.len() as int) == before
    &&& asks_for_difference(after.skip(before.len() as int), rows, wanted)
    &&& now == rows_after(rows, after.skip(before.len() as int))
    &&& comes_to(after.skip(before.len() as int), change)
}

/// What is routed after a run of answers: a prefix that the table last agreed to put in, or one that
/// was routed before and that it agreed to move in no answer.
pub proof fn law_the_last_agreement_decides(
    rows: Set<Prefix>,
    answers: Seq<Answer>,
    prefix: Prefix,
    last: int,
)
    ensures
        0 <= last < answers.len() && answers[last].prefix == prefix && answers[last].outcome is Ok
            && (forall|i: int|
            last < i < answers.len() ==> (#[trigger] answers[i]).prefix != prefix
                || answers[i].outcome is Err) ==> (rows_after(rows, answers).contains(prefix)
            <==> answers[last].add),
        (forall|i: int|
            0 <= i < answers.len() ==> (#[trigger] answers[i]).prefix != prefix
                || answers[i].outcome is Err) ==> (rows_after(rows, answers).contains(prefix)
            <==> rows.contains(prefix)),
    decreases answers.len(),
{
    if answers.len() > 0 {
        let before = answers.drop_last();
        law_the_last_agreement_decides(rows, before, prefix, last);
        assert(forall|i: int| 0 <= i < before.len() ==> #[trigger] before[i] == answers[i]);
        assert(answers[answers.len() - 1] == answers.last());
    }
}

/// What moved is what the table agreed to, in the order it was asked; a refusal moves nothing, and the
/// first is the one that is told.
pub proof fn law_what_moved_is_what_was_agreed(answers: Seq<Answer>, answer: Answer, add: bool)
    ensures
        moved(Seq::empty(), add) == Seq::<Prefix>::empty(),
        first_refusal(Seq::empty()) is None,
        answer.outcome is Ok && answer.add == add ==> moved(answers.push(answer), add) == moved(
            answers,
            add,
        ).push(answer.prefix),
        answer.outcome is Err || answer.add != add ==> moved(answers.push(answer), add) == moved(
            answers,
            add,
        ),
        first_refusal(answers) is Some ==> first_refusal(answers.push(answer)) == first_refusal(
            answers,
        ),
        first_refusal(answers) is None ==> first_refusal(answers.push(answer)) == match answer.outcome {
            Ok(_) => None,
            Err(problem) => Some(problem),
        },
{
    assert(answers.push(answer).drop_last() =~= answers);
}

} // verus!
