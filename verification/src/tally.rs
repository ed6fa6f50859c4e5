//! Choosing what a failed choice between alternatives reports: the message
//! of the attempt that got furthest, or, where none got anywhere, what each
//! of them expected.

use vstd::prelude::*;
use vstd::string::StringExecFns;

verus! {

/// What one failed attempt reported: how far it got and what it expected.
pub struct Attempt {
    pub max_index: usize,
    pub mesg: Seq<char>,
}

/// The running account of the attempts made so far.
pub struct Tally {
    /// The furthest position reached by any attempt, and no less than the
    /// position at which the attempts started.
    pub max_index: usize,
    /// The message of the first attempt that reached `max_index`; empty while
    /// no attempt has got beyond the start.
    pub best: String,
    /// The distinct messages of the attempts that did not get further than
    /// those before them, in the order in which they were made.
    pub others: Vec<String>,
}

/// The mathematical content of a `Tally`.
pub struct TallyView {
    pub max_index: usize,
    pub best: Seq<char>,
    pub others: Seq<Seq<char>>,
}

impl View for Tally {
    type V = TallyView;

    open spec fn view(&self) -> TallyView {
        TallyView {
            max_index: self.max_index,
            best: self.best@,
            others: Seq::new(self.others@.len(), |i: int| self.others@[i]@),
        }
    }
}

/// The separator between the messages of a merged report.
pub open spec fn separator() -> Seq<char> {
    " or "@
}

/// The account before any attempt, for attempts that start at `index`.
pub open spec fn tally_start(index: usize) -> TallyView {
    TallyView { max_index: index, best: Seq::empty(), others: Seq::empty() }
}

/// The account after one more attempt. An attempt that got strictly further
/// than all before it becomes the best; any other adds its message to the
/// others, unless that message is among them already.
pub open spec fn tally_add(tally: TallyView, attempt: Attempt) -> TallyView {
    if attempt.max_index > tally.max_index {
        TallyView { max_index: attempt.max_index, best: attempt.mesg, others: tally.others }
    } else if !tally.others.contains(attempt.mesg) {
        TallyView {
            max_index: tally.max_index,
            best: tally.best,
            others: tally.others.push(attempt.mesg),
        }
    } else {
        tally
    }
}

/// The account after `attempts`, made in this order from `index`.
pub open spec fn tally_of(index: usize, attempts: Seq<Attempt>) -> TallyView
    decreases attempts.len(),
{
    if attempts.len() == 0 {
        tally_start(index)
    } else {
        tally_add(tally_of(index, attempts.drop_last()), attempts.last())
    }
}

/// `parts` written one after the other with `sep` between neighbours.
pub open spec fn joined(parts: Seq<Seq<char>>, sep: Seq<char>) -> Seq<char>
    decreases parts.len(),
{
    if parts.len() == 0 {
        Seq::empty()
    } else if parts.len() == 1 {
        parts[0]
    } else {
        joined(parts.drop_last(), sep) + sep + parts.last()
    }
}

/// The message that an account stands for: the best attempt's, or, where
/// that is empty, the others' joined by " or ".
pub open spec fn tally_message(tally: TallyView) -> Seq<char> {
    if tally.best.len() == 0 {
        joined(tally.others, separator())
    } else {
        tally.best
    }
}

/// Whether `mesg` is among `messages`.
pub fn contains_message(messages: &Vec<String>, mesg: &String) -> (found: bool)
    ensures
        found == exists|i: int| 0 <= i < messages@.len() && messages@[i]@ == mesg@,
{
    let mut i: usize = 0;
    while i < messages.len()
        invariant
            i <= messages.len(),
            forall|k: int| 0 <= k < i ==> messages@[k]@ != mesg@,
        decreases messages.len() - i,
    {
        if messages[i] == *mesg {
            return true;
        }
        i += 1;
    }
    false
}

/// The strings of `parts` written one after the other with `sep` between
/// neighbours.
pub fn connect(parts: &Vec<String>, sep: &str) -> (value: String)
    ensures
        value@ == joined(Seq::new(parts@.len(), |i: int| parts@[i]@), sep@),
{
    let ghost views = Seq::new(parts@.len(), |i: int| parts@[i]@);
    let mut value = String::new();
    let mut i: usize = 0;
    while i < parts.len()
        invariant
            i <= parts.len(),
            views == Seq::new(parts@.len(), |k: int| parts@[k]@),
            value@ == joined(views.take(i as int), sep@),
        decreases parts.len() - i,
    {
        proof {
            let next = views.take(i + 1);
            assert(next.drop_last() =~= views.take(i as int));
            assert(next.last() == parts@[i as int]@);
            if i == 0 {
                assert(joined(next, sep@) =~= parts@[0]@);
            }
        }
        if i > 0 {
            value.append(sep);
        }
        value.append(parts[i].as_str());
        i += 1;
        assert(value@ =~= joined(views.take(i as int), sep@));
    }
    assert(views.take(i as int) =~= views);
    value
}

impl Tally {
    /// The account before any attempt.
    pub fn new(index: usize) -> (tally: Tally)
        ensures
            tally@ == tally_start(index),
    {
        let tally = Tally { max_index: index, best: String::new(), others: Vec::new() };
        assert(tally@.others =~= Seq::empty());
        tally
    }

    /// Takes one more failed attempt into the account.
    pub fn add(&mut self, max_index: usize, mesg: String)
        ensures
            final(self)@ == tally_add(old(self)@, Attempt { max_index, mesg: mesg@ }),
    {
        if max_index > self.max_index {
            self.max_index = max_index;
            self.best = mesg;
            assert(self@.others =~= old(self)@.others);
        } else if !contains_message(&self.others, &mesg) {
            assert(!old(self)@.others.contains(mesg@)) by {
                if old(self)@.others.contains(mesg@) {
                    let k = choose|k: int|
                        0 <= k < old(self)@.others.len() && old(self)@.others[k] == mesg@;
                    assert(old(self).others@[k]@ == mesg@);
                }
            }
            self.others.push(mesg);
            assert(self@.others =~= old(self)@.others.push(mesg@));
        } else {
            let ghost k = choose|k: int| 0 <= k < self.others@.len() && self.others@[k]@ == mesg@;
            assert(self@.others[k] == mesg@);
        }
    }

    /// The message that the account stands for.
    pub fn message(self) -> (mesg: String)
        ensures
            mesg@ == tally_message(self@),
    {
        if self.best.as_str().is_empty() {
            connect(&self.others, " or ")
        } else {
            self.best
        }
    }
}

/// The messages of `attempts`, in order.
pub open spec fn messages_of(attempts: Seq<Attempt>) -> Seq<Seq<char>> {
    Seq::new(attempts.len(), |i: int| attempts[i].mesg)
}

/// `messages` without repetitions: each message where it occurs first.
pub open spec fn distinct(messages: Seq<Seq<char>>) -> Seq<Seq<char>>
    decreases messages.len(),
{
    if messages.len() == 0 {
        Seq::empty()
    } else {
        let before = distinct(messages.drop_last());
        if before.contains(messages.last()) {
            before
        } else {
            before.push(messages.last())
        }
    }
}

/// `distinct` keeps every message, adds none, and repeats none.
pub proof fn lemma_distinct(messages: Seq<Seq<char>>)
    ensures
        forall|m: Seq<char>| distinct(messages).contains(m) <==> messages.contains(m),
        distinct(messages).no_duplicates(),
        distinct(messages).len() <= messages.len(),
    decreases messages.len(),
{
    if messages.len() > 0 {
        let front = messages.drop_last();
        let before = distinct(front);
        lemma_distinct(front);
        assert forall|m: Seq<char>| distinct(messages).contains(m) <==> messages.contains(
            m,
        ) by {
            if messages.contains(m) {
                let i = choose|i: int| 0 <= i < messages.len() && messages[i] == m;
                if i < front.len() {
                    assert(front[i] == m);
                    assert(front.contains(m));
                    assert(before.contains(m));
                    let j = choose|j: int| 0 <= j < before.len() && before[j] == m;
                    assert(distinct(messages)[j] == m);
                } else {
                    if !before.contains(m) {
                        assert(distinct(messages)[before.len() as int] == m);
                    }
                }
            }
            if distinct(messages).contains(m) {
                let j = choose|j: int| 0 <= j < distinct(messages).len() && distinct(messages)[j] == m;
                if j < before.len() {
                    assert(before[j] == m);
                    assert(front.contains(m));
                    let i = choose|i: int| 0 <= i < front.len() && front[i] == m;
                    assert(messages[i] == m);
                } else {
                    assert(messages[messages.len() - 1] == m);
                }
            }
        }
    }
}

/// The account never falls behind: it has reached the start and as far as
/// every attempt, and no further than the start or one of the attempts.
pub proof fn lemma_tally_reach(index: usize, attempts: Seq<Attempt>)
    ensures
        tally_of(index, attempts).max_index >= index,
        forall|i: int|
            0 <= i < attempts.len() ==> tally_of(index, attempts).max_index
                >= (#[trigger] attempts[i]).max_index,
        tally_of(index, attempts).max_index == index || exists|i: int|
            0 <= i < attempts.len() && tally_of(index, attempts).max_index
                == (#[trigger] attempts[i]).max_index,
    decreases attempts.len(),
{
    if attempts.len() > 0 {
        let front = attempts.drop_last();
        lemma_tally_reach(index, front);
        let before = tally_of(index, front);
        assert forall|i: int| 0 <= i < attempts.len() implies tally_of(index, attempts).max_index
            >= (#[trigger] attempts[i]).max_index by {
            if i < front.len() {
                assert(front[i] == attempts[i]);
            }
        }
        if tally_of(index, attempts).max_index != index {
            if attempts.last().max_index > before.max_index {
                assert(attempts[attempts.len() - 1].max_index == tally_of(index, attempts).max_index);
            } else {
                let i = choose|i: int|
                    0 <= i < front.len() && before.max_index == (#[trigger] front[i]).max_index;
                assert(attempts[i] == front[i]);
            }
        }
    }
}

/// The attempt that got furthest decides. If attempt `k` got beyond the
/// start and beyond every attempt before it, and no later attempt got
/// further still, the account has reached as far as attempt `k` and holds
/// its message.
pub proof fn lemma_furthest_attempt_wins(index: usize, attempts: Seq<Attempt>, k: int)
    requires
        0 <= k < attempts.len(),
        attempts[k].max_index > index,
        forall|i: int| 0 <= i < k ==> (#[trigger] attempts[i]).max_index < attempts[k].max_index,
        forall|i: int|
            k < i < attempts.len() ==> (#[trigger] attempts[i]).max_index <= attempts[k].max_index,
    ensures
        tally_of(index, attempts).max_index == attempts[k].max_index,
        tally_of(index, attempts).best == attempts[k].mesg,
        attempts[k].mesg.len() > 0 ==> tally_message(tally_of(index, attempts)) == attempts[k].mesg,
    decreases attempts.len(),
{
    let front = attempts.drop_last();
    if k == attempts.len() - 1 {
        lemma_tally_reach(index, front);
        let before = tally_of(index, front);
        if before.max_index != index {
            let i = choose|i: int|
                0 <= i < front.len() && before.max_index == (#[trigger] front[i]).max_index;
            assert(front[i] == attempts[i]);
        }
    } else {
        assert(front[k] == attempts[k]);
        assert forall|i: int| 0 <= i < k implies (#[trigger] front[i]).max_index
            < front[k].max_index by {
            assert(front[i] == attempts[i]);
        }
        assert forall|i: int| k < i < front.len() implies (#[trigger] front[i]).max_index
            <= front[k].max_index by {
            assert(front[i] == attempts[i]);
        }
        lemma_furthest_attempt_wins(index, front, k);
        assert(attempts[attempts.len() - 1].max_index <= attempts[k].max_index);
    }
}

/// Where no attempt got beyond the start, the account stays at the start and
/// stands for what every attempt expected: the distinct messages in the
/// order in which they came, joined by " or ".
pub proof fn lemma_no_progress_merges(index: usize, attempts: Seq<Attempt>)
    requires
        forall|i: int| 0 <= i < attempts.len() ==> (#[trigger] attempts[i]).max_index <= index,
    ensures
        tally_of(index, attempts).max_index == index,
        tally_of(index, attempts).best.len() == 0,
        tally_of(index, attempts).others == distinct(messages_of(attempts)),
        tally_message(tally_of(index, attempts)) == joined(
            distinct(messages_of(attempts)),
            separator(),
        ),
    decreases attempts.len(),
{
    if attempts.len() > 0 {
        let front = attempts.drop_last();
        assert forall|i: int| 0 <= i < front.len() implies (#[trigger] front[i]).max_index
            <= index by {
            assert(front[i] == attempts[i]);
        }
        lemma_no_progress_merges(index, front);
        assert(messages_of(attempts).drop_last() =~= messages_of(front));
        assert(messages_of(attempts).last() == attempts.last().mesg);
        assert(attempts[attempts.len() - 1].max_index <= index);
    } else {
        assert(messages_of(attempts) =~= Seq::empty());
    }
}

/// Two parts are joined by writing the separator between them.
pub proof fn lemma_joined_two(first: Seq<char>, second: Seq<char>, sep: Seq<char>)
    ensures
        joined(seq![first, second], sep) == first + sep + second,
{
    let parts = seq![first, second];
    assert(parts.drop_last() =~= seq![first]);
    assert(joined(seq![first], sep) == first);
}

/// Two attempts that got nowhere and expected different things are reported
/// as the first message, " or ", and the second.
pub proof fn lemma_two_attempts_merge(index: usize, first: Attempt, second: Attempt)
    requires
        first.max_index <= index,
        second.max_index <= index,
        first.mesg != second.mesg,
    ensures
        tally_of(index, seq![first, second]).max_index == index,
        tally_message(tally_of(index, seq![first, second])) == first.mesg + separator()
            + second.mesg,
{
    let attempts = seq![first, second];
    lemma_no_progress_merges(index, attempts);
    let messages = messages_of(attempts);
    assert(messages =~= seq![first.mesg, second.mesg]);
    assert(messages.drop_last() =~= seq![first.mesg]);
    let one = seq![first.mesg];
    assert(one.drop_last() =~= Seq::<Seq<char>>::empty());
    assert(distinct(one.drop_last()) =~= Seq::<Seq<char>>::empty());
    assert(!distinct(one.drop_last()).contains(one.last()));
    assert(distinct(one) =~= one);
    assert(!one.contains(second.mesg));
    assert(distinct(messages) =~= seq![first.mesg, second.mesg]);
    lemma_joined_two(first.mesg, second.mesg, separator());
}

} // verus!
