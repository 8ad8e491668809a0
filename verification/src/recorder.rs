use crate::text::dec_digits;
use crate::text::is_dec_digit;
use crate::text::lemma_dec_digits_injective;
use crate::text::lemma_dec_digits_shape;
use crate::text::u32_to_decimal;
use vstd::prelude::*;
use vstd::string::StringExecFns;

verus! {

/// The text of one log entry: the label and the count the visit was given,
/// rendered as `thread: {label}, visit: {count}`.
pub open spec fn entry_chars(label: Seq<char>, count: nat) -> Seq<char> {
    "thread: "@ + label + ", visit: "@ + dec_digits(count)
}

/// The abstract state of a recorder: a lifetime visit counter and the
/// transcript of entries appended since the last clear.
#[verifier::ext_equal]
pub struct StatsView {
    pub visits: nat,
    pub log: Seq<Seq<char>>,
}

/// The state of a recorder that has seen no visits: zero count, empty log.
pub open spec fn fresh() -> StatsView {
    StatsView { visits: 0, log: Seq::empty() }
}

impl StatsView {
    /// The state after one recorded visit: the counter moves up by one and
    /// the entry embedding the new count is appended.
    pub open spec fn record(self, label: Seq<char>) -> StatsView {
        StatsView {
            visits: self.visits + 1,
            log: self.log.push(entry_chars(label, self.visits + 1)),
        }
    }

    /// The state after the log is cleared: the transcript is emptied while
    /// the lifetime counter stays.
    pub open spec fn cleared(self) -> StatsView {
        StatsView { visits: self.visits, log: Seq::empty() }
    }
}

/// The state after a whole sequence of visits, recorded one at a time in the
/// order given.
pub open spec fn record_seq(v: StatsView, labels: Seq<Seq<char>>) -> StatsView
    decreases labels.len(),
{
    if labels.len() == 0 {
        v
    } else {
        record_seq(v.record(labels[0]), labels.drop_first())
    }
}

/// A visit recorder: a monotone visit counter beside an append-only log of
/// entry strings. The two are mutated together, never separately.
pub struct Stats {
    visits: u32,
    log: Vec<String>,
}

impl View for Stats {
    type V = StatsView;

    closed spec fn view(&self) -> StatsView {
        StatsView { visits: self.visits as nat, log: self.log.deep_view() }
    }
}

impl Stats {
    /// Creates a recorder with zero visits and an empty log.
    pub fn new() -> (r: Stats)
        ensures
            r@ == fresh(),
    {
        let r = Stats { visits: 0, log: Vec::new() };
        proof {
            assert(r@ =~= fresh());
        }
        r
    }

    /// Increments the visit counter and appends the matching log entry, as
    /// one step: no state in between is observable.
    pub fn add_visit(&mut self, string: &str)
        requires
            old(self)@.visits < u32::MAX,
        ensures
            final(self)@ == old(self)@.record(string@),
    {
        self.visits = self.visits + 1;
        let mut e = String::from_str("thread: ");
        e.append(string);
        e.append(", visit: ");
        let digits = u32_to_decimal(self.visits);
        e.append(digits.as_str());
        proof {
            assert(e@ =~= entry_chars(string@, old(self)@.visits + 1));
        }
        self.log.push(e);
        proof {
            assert(self.log.deep_view() =~= old(self).log.deep_view().push(
                entry_chars(string@, old(self)@.visits + 1),
            ));
            assert(self@ =~= old(self)@.record(string@));
        }
    }

    /// The number of visits recorded over the recorder's lifetime.
    pub fn visits(&self) -> (r: u32)
        ensures
            r as nat == self@.visits,
    {
        self.visits
    }

    /// A snapshot of the log; the recorder keeps its own copy.
    pub fn log(&self) -> (r: Vec<String>)
        ensures
            r.deep_view() == self@.log,
    {
        let r = self.log.clone();
        proof {
            assert(r@ =~= self.log@);
            assert(r.deep_view() =~= self.log.deep_view());
        }
        r
    }

    /// Empties the log while leaving the visit counter untouched.
    pub fn clear_log(&mut self)
        ensures
            final(self)@ == old(self)@.cleared(),
    {
        self.log.clear();
        proof {
            assert(self@ =~= old(self)@.cleared());
        }
    }
}

/// Records one visit per label, in order: the serialized effect of a pool of
/// workers whose record operations the lock has put in this order.
pub fn record_all(stats: &mut Stats, labels: &Vec<String>)
    requires
        old(stats)@.visits + labels@.len() <= u32::MAX,
    ensures
        final(stats)@ == record_seq(old(stats)@, labels.deep_view()),
{
    let ghost v0 = stats@;
    let ghost lv = labels.deep_view();
    let n = labels.len();
    let mut i: usize = 0;
    while i < n
        invariant
            i <= n,
            n == lv.len(),
            lv == labels.deep_view(),
            v0.visits + n <= u32::MAX,
            stats@ == record_seq(v0, lv.take(i as int)),
        decreases n - i,
    {
        proof {
            lemma_record_seq_counts(v0, lv.take(i as int));
        }
        stats.add_visit(labels[i].as_str());
        proof {
            assert(lv.take(i as int).push(lv[i as int]) =~= lv.take(i + 1));
            lemma_record_seq_snoc(v0, lv.take(i as int), lv[i as int]);
        }
        i = i + 1;
    }
    proof {
        assert(lv.take(n as int) =~= lv);
    }
}

/// Counting: a run of visits moves the counter and the log length up by
/// exactly the number of labels, whatever the labels are.
pub proof fn lemma_record_seq_counts(v: StatsView, labels: Seq<Seq<char>>)
    ensures
        record_seq(v, labels).visits == v.visits + labels.len(),
        record_seq(v, labels).log.len() == v.log.len() + labels.len(),
    decreases labels.len(),
{
    if labels.len() > 0 {
        lemma_record_seq_counts(v.record(labels[0]), labels.drop_first());
    }
}

/// Recording visits one more at the end is the same as recording the first
/// ones and then the last.
pub proof fn lemma_record_seq_snoc(v: StatsView, labels: Seq<Seq<char>>, l: Seq<char>)
    ensures
        record_seq(v, labels.push(l)) == record_seq(v, labels).record(l),
    decreases labels.len(),
{
    if labels.len() == 0 {
        assert(labels.push(l)[0] == l);
        assert(labels.push(l).drop_first() =~= Seq::<Seq<char>>::empty());
        assert(record_seq(v, labels.push(l)) == record_seq(
            v.record(l),
            Seq::<Seq<char>>::empty(),
        ));
        assert(record_seq(v.record(l), Seq::<Seq<char>>::empty()) == v.record(l));
    } else {
        assert(labels.push(l)[0] == labels[0]);
        assert(labels.push(l).drop_first() =~= labels.drop_first().push(l));
        assert(record_seq(v, labels.push(l)) == record_seq(
            v.record(labels[0]),
            labels.drop_first().push(l),
        ));
        lemma_record_seq_snoc(v.record(labels[0]), labels.drop_first(), l);
        assert(record_seq(v, labels) == record_seq(v.record(labels[0]), labels.drop_first()));
    }
}

/// A run of workers against a fresh recorder that completes in full leaves
/// the visit counter and the log length both equal to the number of workers,
/// in whatever order the visits were serialized.
pub proof fn lemma_fresh_run_counts(labels: Seq<Seq<char>>)
    ensures
        record_seq(fresh(), labels).visits == labels.len(),
        record_seq(fresh(), labels).log.len() == labels.len(),
{
    lemma_record_seq_counts(fresh(), labels);
}

/// Entries embedding different counts are different strings, whatever the
/// labels: the digits at the tail pin the count down.
pub proof fn lemma_entry_count_injective(l1: Seq<char>, n1: nat, l2: Seq<char>, n2: nat)
    requires
        n1 != n2,
    ensures
        entry_chars(l1, n1) != entry_chars(l2, n2),
{
    reveal_strlit("thread: ");
    reveal_strlit(", visit: ");
    lemma_dec_digits_shape(n1);
    lemma_dec_digits_shape(n2);
    let e1 = entry_chars(l1, n1);
    let e2 = entry_chars(l2, n2);
    let a1 = "thread: "@ + l1 + ", visit: "@;
    let a2 = "thread: "@ + l2 + ", visit: "@;
    let d1 = dec_digits(n1);
    let d2 = dec_digits(n2);
    assert(e1 == a1 + d1);
    assert(e2 == a2 + d2);
    assert(", visit: "@.len() == 9);
    assert(", visit: "@[8] == ' ');
    assert(a1[a1.len() - 1] == ' ');
    assert(a2[a2.len() - 1] == ' ');
    if e1 == e2 {
        assert(e1.len() == e2.len());
        if d1.len() == d2.len() {
            assert(a1.len() == a2.len());
            assert(forall|j: int| 0 <= j < d1.len() ==> d1[j] == d2[j]) by {
                assert(forall|j: int|
                    0 <= j < d1.len() ==> e1[a1.len() + j] == d1[j] && e2[a1.len() + j] == d2[j]);
            }
            assert(d1 =~= d2);
            lemma_dec_digits_injective(n1, n2);
            assert(false);
        } else if d1.len() < d2.len() {
            let p = a1.len() - 1;
            assert(e1[p] == a1[p]);
            assert(p - a2.len() == d2.len() - d1.len() - 1);
            assert(e2[p] == d2[p - a2.len()]);
            assert(is_dec_digit(d2[p - a2.len()]));
            assert(!is_dec_digit(' '));
            assert(false);
        } else {
            let p = a2.len() - 1;
            assert(e2[p] == a2[p]);
            assert(p - a1.len() == d1.len() - d2.len() - 1);
            assert(e1[p] == d1[p - a1.len()]);
            assert(is_dec_digit(d1[p - a1.len()]));
            assert(!is_dec_digit(' '));
            assert(false);
        }
    }
}

/// What a run appends: earlier entries stay in place, and the entry for the
/// `i`-th label embeds the count the recorder reached with it.
pub proof fn lemma_record_seq_log(v: StatsView, labels: Seq<Seq<char>>)
    ensures
        record_seq(v, labels).log.len() == v.log.len() + labels.len(),
        forall|i: int| 0 <= i < v.log.len() ==> record_seq(v, labels).log[i] == v.log[i],
        forall|i: int|
            0 <= i < labels.len() ==> record_seq(v, labels).log[v.log.len() + i] == entry_chars(
                labels[i],
                (v.visits + i + 1) as nat,
            ),
    decreases labels.len(),
{
    lemma_record_seq_counts(v, labels);
    if labels.len() > 0 {
        let v1 = v.record(labels[0]);
        lemma_record_seq_log(v1, labels.drop_first());
        let r = record_seq(v, labels);
        assert(r == record_seq(v1, labels.drop_first()));
        assert(v1.log == v.log.push(entry_chars(labels[0], v.visits + 1)));
        assert forall|i: int| 0 <= i < v.log.len() implies r.log[i] == v.log[i] by {
            assert(r.log[i] == v1.log[i]);
            assert(v1.log[i] == v.log[i]);
        }
        assert(r.log[v.log.len() as int] == v1.log[v.log.len() as int]);
        assert forall|i: int| 1 <= i < labels.len() implies r.log[v.log.len() + i] == entry_chars(
            labels[i],
            (v.visits + i + 1) as nat,
        ) by {
            assert(labels.drop_first()[i - 1] == labels[i]);
            assert(r.log[v1.log.len() + (i - 1)] == entry_chars(
                labels.drop_first()[i - 1],
                (v1.visits + (i - 1) + 1) as nat,
            ));
            assert(v1.log.len() + (i - 1) == v.log.len() + i);
        }
    }
}

/// No two entries of the log are the same after a run against a fresh
/// recorder: each entry embeds the count of its own visit, and those counts
/// are all different.
pub proof fn lemma_fresh_run_entries_distinct(labels: Seq<Seq<char>>)
    ensures
        forall|i: int, j: int|
            0 <= i < j < record_seq(fresh(), labels).log.len() ==> record_seq(
                fresh(),
                labels,
            ).log[i] != record_seq(fresh(), labels).log[j],
{
    lemma_record_seq_log(fresh(), labels);
    let lg = record_seq(fresh(), labels).log;
    assert forall|i: int, j: int| 0 <= i < j < lg.len() implies lg[i] != lg[j] by {
        assert(lg[i] == entry_chars(labels[i], (i + 1) as nat));
        assert(lg[j] == entry_chars(labels[j], (j + 1) as nat));
        lemma_entry_count_injective(labels[i], (i + 1) as nat, labels[j], (j + 1) as nat);
    }
}

/// One mutating operation of the recorder's interface.
pub enum RecorderOp {
    RecordVisit(Seq<char>),
    ClearLog,
}

/// The state after one operation.
pub open spec fn apply_op(v: StatsView, op: RecorderOp) -> StatsView {
    match op {
        RecorderOp::RecordVisit(label) => v.record(label),
        RecorderOp::ClearLog => v.cleared(),
    }
}

/// The state after a sequence of operations, applied in order.
pub open spec fn apply_ops(v: StatsView, ops: Seq<RecorderOp>) -> StatsView
    decreases ops.len(),
{
    if ops.len() == 0 {
        v
    } else {
        apply_ops(apply_op(v, ops[0]), ops.drop_first())
    }
}

/// How many of the operations record a visit.
pub open spec fn count_records(ops: Seq<RecorderOp>) -> nat
    decreases ops.len(),
{
    if ops.len() == 0 {
        0
    } else {
        (if ops[0] is RecordVisit {
            1 as nat
        } else {
            0 as nat
        }) + count_records(ops.drop_first())
    }
}

/// The visit counter never decreases across any sequence of record and clear
/// operations: it ends exactly one higher per recorded visit, and clearing
/// the log leaves it alone.
pub proof fn lemma_visits_monotonic(v: StatsView, ops: Seq<RecorderOp>)
    ensures
        apply_ops(v, ops).visits == v.visits + count_records(ops),
        apply_ops(v, ops).visits >= v.visits,
    decreases ops.len(),
{
    if ops.len() > 0 {
        lemma_visits_monotonic(apply_op(v, ops[0]), ops.drop_first());
    }
}

} // verus!
