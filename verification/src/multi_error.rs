//! A report that collects one message per input field.

use vstd::prelude::*;

verus! {

/// The map that a list of `(field, message)` pairs stands for: a later pair
/// for the same field replaces an earlier one.
pub open spec fn report_of(pairs: Seq<(String, String)>) -> Map<Seq<char>, Seq<char>>
    decreases pairs.len(),
{
    if pairs.len() == 0 {
        Map::empty()
    } else {
        report_of(pairs.drop_last()).insert(pairs.last().0@, pairs.last().1@)
    }
}

/// No field is named by two pairs.
pub open spec fn distinct_fields(pairs: Seq<(String, String)>) -> bool {
    forall|i: int, j: int|
        0 <= i < j < pairs.len() ==> (#[trigger] pairs[i]).0@ != (#[trigger] pairs[j]).0@
}

/// A field is in the report exactly when some pair names it.
pub proof fn lemma_report_domain(pairs: Seq<(String, String)>, field: Seq<char>)
    ensures
        report_of(pairs).dom().contains(field) <==> exists|i: int|
            0 <= i < pairs.len() && (#[trigger] pairs[i]).0@ == field,
    decreases pairs.len(),
{
    if pairs.len() > 0 {
        let front = pairs.drop_last();
        lemma_report_domain(front, field);
        if report_of(pairs).dom().contains(field) {
            if pairs.last().0@ == field {
                assert(pairs[pairs.len() - 1].0@ == field);
            } else {
                let i = choose|i: int| 0 <= i < front.len() && (#[trigger] front[i]).0@ == field;
                assert(pairs[i].0@ == field);
            }
        }
        if exists|i: int| 0 <= i < pairs.len() && (#[trigger] pairs[i]).0@ == field {
            let i = choose|i: int| 0 <= i < pairs.len() && (#[trigger] pairs[i]).0@ == field;
            if i < front.len() {
                assert(front[i].0@ == field);
            }
        }
    }
}

/// Where no field occurs twice, each pair's message is what the report holds
/// for its field.
pub proof fn lemma_report_value(pairs: Seq<(String, String)>, i: int)
    requires
        distinct_fields(pairs),
        0 <= i < pairs.len(),
    ensures
        report_of(pairs).dom().contains(pairs[i].0@),
        report_of(pairs)[pairs[i].0@] == pairs[i].1@,
    decreases pairs.len(),
{
    let front = pairs.drop_last();
    if i < pairs.len() - 1 {
        assert(distinct_fields(front)) by {
            assert forall|a: int, b: int| 0 <= a < b < front.len() implies (#[trigger] front[a]).0@
                != (#[trigger] front[b]).0@ by {
                assert(pairs[a].0@ != pairs[b].0@);
            }
        }
        lemma_report_value(front, i);
        assert(front[i] == pairs[i]);
        assert(pairs[i].0@ != pairs[pairs.len() - 1].0@);
    }
}

/// Replacing the message of a pair in place is an insertion into the report.
pub proof fn lemma_report_update(pairs: Seq<(String, String)>, i: int, pair: (String, String))
    requires
        distinct_fields(pairs),
        0 <= i < pairs.len(),
        pair.0@ == pairs[i].0@,
    ensures
        distinct_fields(pairs.update(i, pair)),
        report_of(pairs.update(i, pair)) == report_of(pairs).insert(pair.0@, pair.1@),
    decreases pairs.len(),
{
    let after = pairs.update(i, pair);
    assert(distinct_fields(after)) by {
        assert forall|a: int, b: int| 0 <= a < b < after.len() implies (#[trigger] after[a]).0@
            != (#[trigger] after[b]).0@ by {
            assert(pairs[a].0@ != pairs[b].0@);
        }
    }
    let front = pairs.drop_last();
    if i == pairs.len() - 1 {
        assert(after.drop_last() =~= front);
        assert(report_of(after) =~= report_of(pairs).insert(pair.0@, pair.1@));
    } else {
        assert(distinct_fields(front)) by {
            assert forall|a: int, b: int| 0 <= a < b < front.len() implies (#[trigger] front[a]).0@
                != (#[trigger] front[b]).0@ by {
                assert(pairs[a].0@ != pairs[b].0@);
            }
        }
        lemma_report_update(front, i, pair);
        assert(after.drop_last() =~= front.update(i, pair));
        assert(after.last() == pairs.last());
        assert(pairs[i].0@ != pairs[pairs.len() - 1].0@);
        assert(report_of(after) =~= report_of(pairs).insert(pair.0@, pair.1@));
    }
}

/// A message, if there is one, as text.
pub open spec fn message_view(message: Option<String>) -> Option<Seq<char>> {
    match message {
        Some(text) => Some(text@),
        None => None,
    }
}

/// The report with the fault of one more field, if the field has one.
pub open spec fn with_fault(
    report: Map<Seq<char>, Seq<char>>,
    field: Seq<char>,
    fault: Option<Seq<char>>,
) -> Map<Seq<char>, Seq<char>> {
    match fault {
        Some(message) => report.insert(field, message),
        None => report,
    }
}

/// Messages keyed by the field they are about. Each field has at most one
/// message: a second one for the same field replaces the first.
#[derive(Debug)]
pub struct MultiError {
    errors: Vec<(String, String)>,
}

impl View for MultiError {
    type V = Map<Seq<char>, Seq<char>>;

    closed spec fn view(&self) -> Map<Seq<char>, Seq<char>> {
        report_of(self.errors@)
    }
}

impl MultiError {
    /// The pairs are kept with no field twice.
    pub closed spec fn wf(&self) -> bool {
        distinct_fields(self.errors@)
    }

    /// The number of fields that have a message.
    pub closed spec fn spec_len(&self) -> nat {
        self.errors@.len()
    }

    /// An empty report.
    pub fn new() -> (report: Self)
        ensures
            report.wf(),
            report@ == Map::<Seq<char>, Seq<char>>::empty(),
            report.spec_len() == 0,
    {
        MultiError { errors: Vec::new() }
    }

    /// Records `msg` for `section`, in place of any message that the field
    /// had before. Every other field keeps its message.
    pub fn push(&mut self, section: &str, msg: String)
        requires
            old(self).wf(),
        ensures
            final(self).wf(),
            final(self)@ == old(self)@.insert(section@, msg@),
            final(self).spec_len() == old(self).spec_len() + (if old(self)@.dom().contains(
                section@,
            ) {
                0nat
            } else {
                1nat
            }),
    {
        let key = section.to_owned();
        let n = self.errors.len();
        let mut i: usize = 0;
        while i < n
            invariant
                n == self.errors@.len(),
                self.errors@ == old(self).errors@,
                distinct_fields(self.errors@),
                key@ == section@,
                0 <= i <= n,
                forall|j: int| 0 <= j < i ==> (#[trigger] self.errors@[j]).0@ != section@,
            decreases n - i,
        {
            if self.errors[i].0 == key {
                proof {
                    lemma_report_update(self.errors@, i as int, (key, msg));
                    lemma_report_domain(self.errors@, section@);
                }
                self.errors.set(i, (key, msg));
                return ;
            }
            i += 1;
        }
        proof {
            lemma_report_domain(self.errors@, section@);
            let grown = self.errors@.push((key, msg));
            assert(grown.drop_last() =~= self.errors@);
            assert(distinct_fields(grown)) by {
                assert forall|a: int, b: int| 0 <= a < b < grown.len() implies (
                #[trigger] grown[a]).0@ != (#[trigger] grown[b]).0@ by {
                    if b < self.errors@.len() {
                        assert(self.errors@[a].0@ != self.errors@[b].0@);
                    } else {
                        assert(self.errors@[a].0@ != section@);
                    }
                }
            }
        }
        self.errors.push((key, msg));
    }

    /// Records the fault of a field, if it has one.
    pub fn note(&mut self, section: &str, fault: Option<String>)
        requires
            old(self).wf(),
        ensures
            final(self).wf(),
            final(self)@ == with_fault(old(self)@, section@, message_view(fault)),
    {
        match fault {
            Some(message) => {
                self.push(section, message);
            },
            None => {},
        }
    }

    /// Whether no field has a message.
    pub fn is_empty(&self) -> (empty: bool)
        ensures
            empty == (self.spec_len() == 0),
            empty == (self@ =~= Map::<Seq<char>, Seq<char>>::empty()),
    {
        proof {
            if self.errors@.len() > 0 {
                assert(report_of(self.errors@).dom().contains(self.errors@.last().0@));
            }
        }
        self.errors.len() == 0
    }

    /// The number of fields that have a message.
    pub fn len(&self) -> (n: usize)
        ensures
            n == self.spec_len(),
    {
        self.errors.len()
    }

    /// The message recorded for `section`, if there is one.
    pub fn get(&self, section: &str) -> (msg: Option<String>)
        requires
            self.wf(),
        ensures
            msg is Some <==> self@.dom().contains(section@),
            msg matches Some(m) ==> m@ == self@[section@],
    {
        let key = section.to_owned();
        let n = self.errors.len();
        let mut i: usize = 0;
        while i < n
            invariant
                n == self.errors@.len(),
                distinct_fields(self.errors@),
                key@ == section@,
                0 <= i <= n,
                forall|j: int| 0 <= j < i ==> (#[trigger] self.errors@[j]).0@ != section@,
            decreases n - i,
        {
            if self.errors[i].0 == key {
                proof {
                    lemma_report_value(self.errors@, i as int);
                }
                return Some(self.errors[i].1.clone());
            }
            i += 1;
        }
        proof {
            lemma_report_domain(self.errors@, section@);
        }
        None
    }

    /// The fields with their messages, each field once, in the order in which
    /// the fields were first recorded.
    pub fn into_error_map(self) -> (pairs: Vec<(String, String)>)
        requires
            self.wf(),
        ensures
            distinct_fields(pairs@),
            report_of(pairs@) == self@,
            pairs@.len() == self.spec_len(),
    {
        self.errors
    }
}

} // verus!
