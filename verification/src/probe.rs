//! What folio asks an endpoint before it trusts it: how long an input it
//! accepts, and which text to ask that with.
//!
//! folio budgets characters and the server counts tokens, and the ratio
//! belongs to the corpus rather than to folio, so the only authority on the
//! budget is the server that has to accept the input.

use vstd::prelude::*;

use crate::sections::Section;
use crate::text::{chars_of, str_of, string_of};

verus! {

/// Below this, a section is too short to carry a section's meaning, and a
/// server refusing it is refusing for some other reason.
pub const FLOOR: usize = 256;

/// What became of one probe sent to the endpoint.
#[derive(Debug, Clone, Copy, PartialEq, Eq, Structural)]
pub enum Outcome {
    /// It returned a vector.
    Accepted,
    /// It answered, and refused the input.
    Refused,
    /// It did not answer, so nothing was learned about the input.
    NoAnswer,
}

/// What calibration does next.
#[derive(Debug, Clone, Copy, PartialEq, Eq, Structural)]
pub enum Step {
    /// The budget that was accepted.
    Done(usize),
    /// Give up, with the endpoint's own error.
    Fail,
    /// Probe again at this budget.
    Retry(usize),
}

/// One step of calibration: halve on a refusal, down to the floor.
///
/// Halving rather than searching: the answer is used to cut text, so landing
/// under the limit matters and landing exactly on it does not.
pub open spec fn step_spec(budget: nat, outcome: Outcome) -> Step {
    match outcome {
        Outcome::Accepted => Step::Done(budget as usize),
        Outcome::NoAnswer => Step::Fail,
        Outcome::Refused => if budget <= FLOOR {
            Step::Fail
        } else {
            Step::Retry((budget / 2) as usize)
        },
    }
}

pub fn calibrate_step(budget: usize, outcome: Outcome) -> (r: Step)
    ensures
        r == step_spec(budget as nat, outcome),
{
    match outcome {
        Outcome::Accepted => Step::Done(budget),
        Outcome::NoAnswer => Step::Fail,
        Outcome::Refused => if budget <= FLOOR {
            Step::Fail
        } else {
            Step::Retry(budget / 2)
        },
    }
}

/// Calibration never raises a budget and always ends: each retry probes at
/// half the budget before it, which is more than half the floor, so a run of
/// refusals reaches the floor and stops.
pub proof fn lemma_calibration_shrinks(budget: nat, outcome: Outcome)
    requires
        budget <= usize::MAX,
    ensures
        step_spec(budget, outcome) matches Step::Retry(b) ==> b < budget && b * 2 <= budget && b
            >= FLOOR / 2,
        step_spec(budget, outcome) matches Step::Done(b) ==> b == budget,
{
}

/// The first `budget` characters of `s`, as `chars().take(budget)` gives them.
pub open spec fn take_spec(s: Seq<char>, budget: nat) -> Seq<char> {
    if s.len() <= budget {
        s
    } else {
        s.subrange(0, budget as int)
    }
}

pub fn take_chars(s: &str, budget: usize) -> (r: String)
    ensures
        r@ == take_spec(s@, budget as nat),
{
    let v = chars_of(s);
    let n = if v.len() <= budget {
        v.len()
    } else {
        budget
    };
    assert(v@.subrange(0, v@.len() as int) =~= v@);
    string_of(v.as_slice(), 0, n)
}

/// Prose-like filler at roughly four characters per token, which is English.
pub open spec fn filler() -> Seq<char> {
    "The quarterly figures arrived late again this morning. "@
}

/// `n` characters of the filler, repeated as often as it takes.
pub open spec fn synthetic_spec(n: nat) -> Seq<char> {
    Seq::new(n, |i: int| filler()[i % filler().len() as int])
}

/// A probe for an endpoint when there is no corpus to take one from.
pub fn synthetic_probe(n: usize) -> (r: String)
    ensures
        r@ == synthetic_spec(n as nat),
{
    let f = chars_of("The quarterly figures arrived late again this morning. ");
    proof {
        reveal_strlit("The quarterly figures arrived late again this morning. ");
    }
    assert(f@.len() == 55);
    let mut v: Vec<char> = Vec::new();
    let mut i: usize = 0;
    let mut j: usize = 0;
    while i < n
        invariant
            i <= n,
            j < f@.len(),
            f@ == filler(),
            f@.len() == 55,
            j as int == i as int % 55,
            v@ =~= synthetic_spec(i as nat),
        decreases n - i,
    {
        v.push(f[j]);
        j = if j + 1 == f.len() {
            0
        } else {
            j + 1
        };
        i = i + 1;
        proof {
            assert(v@ =~= synthetic_spec(i as nat));
        }
    }
    crate::text::string_of_all(&v)
}

/// The longest section seen so far, and where it came from.
pub struct Longest {
    pub text: String,
    pub from: String,
}

impl Longest {
    pub fn new() -> (l: Longest)
        ensures
            l.text@.len() == 0,
            l.from@.len() == 0,
    {
        Longest { text: String::new(), from: String::new() }
    }

    /// Consider the sections of one file: the first of its longest sections
    /// takes the place, and only when it is strictly longer than the longest
    /// so far.
    pub fn offer(&mut self, sections: Vec<Section>)
        ensures
            ({
                let s = sections@;
                if exists|i: int| 0 <= i < s.len() && (#[trigger] s[i]).text@.len() > old(self).text@.len() {
                    exists|m: int| {
                        &&& 0 <= m < s.len()
                        &&& (forall|i: int| 0 <= i < s.len() ==> (#[trigger] s[i]).text@.len() <= s[m].text@.len())
                        &&& (forall|i: int| 0 <= i < m ==> (#[trigger] s[i]).text@.len() < s[m].text@.len())
                        &&& final(self).text@ == s[m].text@
                        &&& final(self).from@ == "the longest section in "@ + s[m].path@
                    }
                } else {
                    final(self).text@ == old(self).text@ && final(self).from@ == old(self).from@
                }
            }),
    {
        let mut sections = sections;
        let ghost s = sections@;
        if sections.len() == 0 {
            return;
        }
        let mut m: usize = 0;
        let mut best = chars_of(sections[0].text.as_str()).len();
        let mut i: usize = 1;
        while i < sections.len()
            invariant
                sections@ == s,
                0 <= m < i <= s.len(),
                best == s[m as int].text@.len(),
                forall|j: int| 0 <= j < i ==> (#[trigger] s[j]).text@.len() <= best,
                forall|j: int| 0 <= j < m ==> (#[trigger] s[j]).text@.len() < best,
            decreases s.len() - i,
        {
            let n = chars_of(sections[i].text.as_str()).len();
            if n > best {
                m = i;
                best = n;
            }
            i = i + 1;
        }
        let now = chars_of(self.text.as_str()).len();
        if best > now {
            let sec = sections.swap_remove(m);
            assert(sec == s[m as int]);
            let mut from = str_of("the longest section in ");
            from.append(sec.path.as_str());
            self.from = from;
            self.text = sec.text;
        } else {
            assert forall|j: int| 0 <= j < s.len() implies !((#[trigger] s[j]).text@.len() > old(self).text@.len()) by {}
        }
    }

    /// The probe, capped at the budget, and where it came from; filler where
    /// no section was found.
    pub fn finish(self, max_chars: usize) -> (r: (String, String))
        ensures
            self.text@.len() == 0 ==> r.0@ == synthetic_spec(max_chars as nat) && r.1@
                == "synthetic English prose, no corpus under this root"@,
            self.text@.len() > 0 && self.text@.len() <= max_chars ==> r.0@ == self.text@ && r.1@
                == self.from@,
            self.text@.len() > max_chars ==> r.0@ == self.text@.subrange(0, max_chars as int) && r.1@ == self.from@
                + ", cut to the budget"@,
    {
        let n = chars_of(self.text.as_str()).len();
        if n == 0 {
            return (synthetic_probe(max_chars), str_of("synthetic English prose, no corpus under this root"));
        }
        if n > max_chars {
            let cut = take_chars(self.text.as_str(), max_chars);
            let mut from = self.from;
            from.append(", cut to the budget");
            return (cut, from);
        }
        (self.text, self.from)
    }
}

/// How many inputs one request to the endpoint carries.
pub const BATCH: usize = 32;

/// The input a returned vector belongs to: its index within its batch, offset
/// by the inputs of the batches before it, when that is one of the inputs
/// sent.
pub fn response_slot(batch: usize, index: usize, sent: usize) -> (r: Option<usize>)
    ensures
        match r {
            Some(at) => at == batch * BATCH + index && at < sent,
            None => batch * BATCH + index >= sent,
        },
{
    if batch > sent / BATCH {
        assert(batch * BATCH >= (sent / BATCH + 1) * BATCH) by (nonlinear_arith)
            requires batch > sent / BATCH;
        assert((sent / BATCH + 1) * BATCH > sent) by (nonlinear_arith);
        return None;
    }
    assert(batch * BATCH <= (sent / BATCH) * BATCH) by (nonlinear_arith)
        requires batch <= sent / BATCH;
    assert((sent / BATCH) * BATCH <= sent) by (nonlinear_arith);
    let base = batch * BATCH;
    if index >= sent - base {
        return None;
    }
    Some(base + index)
}

/// The first input that no returned vector was placed at.
pub fn first_missing(filled: &Vec<bool>) -> (r: Option<usize>)
    ensures
        match r {
            Some(i) => i < filled@.len() && !filled@[i as int] && forall|j: int| 0 <= j < i ==> filled@[j],
            None => forall|j: int| 0 <= j < filled@.len() ==> filled@[j],
        },
{
    let mut i: usize = 0;
    while i < filled.len()
        invariant
            i <= filled@.len(),
            forall|j: int| 0 <= j < i ==> filled@[j],
        decreases filled@.len() - i,
    {
        if !filled[i] {
            return Some(i);
        }
        i = i + 1;
    }
    None
}

} // verus!
