//! A tolerated anomaly.
//!
//! Data on the value, never a log line: a caller can print it, and a test can
//! compare it.

use crate::text::cat5;
use vstd::prelude::*;

verus! {

/// One anomaly a reader chose to survive.
#[derive(Debug, Clone)]
pub struct Warning {
    /// A stable kebab-case identifier. Machine-readable; never reworded.
    pub code: &'static str,
    /// Where the anomaly is: a path into a manifest, a node name, or the
    /// identity of a record.
    pub path: String,
    /// One sentence saying what was found and what was done.
    pub message: String,
}

/// A warning as text: its code, its path and its message.
pub struct Notice {
    pub code: Seq<char>,
    pub path: Seq<char>,
    pub message: Seq<char>,
}

impl View for Warning {
    type V = Notice;

    open spec fn view(&self) -> Notice {
        Notice { code: self.code@, path: self.path@, message: self.message@ }
    }
}

/// Several warnings, each as text.
pub open spec fn notices(warnings: Seq<Warning>) -> Seq<Notice> {
    warnings.map_values(|w: Warning| w@)
}

/// The warnings grow by one.
pub proof fn notices_push(warnings: Seq<Warning>, w: Warning)
    ensures
        notices(warnings.push(w)) == notices(warnings).push(w@),
{
    assert(notices(warnings.push(w)) =~= notices(warnings).push(w@));
}

impl Warning {
    pub fn new(code: &'static str, path: String, message: String) -> (w: Self)
        ensures
            w@ == (Notice { code: code@, path: path@, message: message@ }),
            w.code == code,
            w.path == path,
            w.message == message,
    {
        Warning { code, path, message }
    }

    /// The warning in one line: `code at path: message`.
    pub fn to_text(&self) -> (out: String)
        ensures
            out@ == self.code@ + " at "@ + self.path@ + ": "@ + self.message@,
    {
        cat5(self.code, " at ", self.path.as_str(), ": ", self.message.as_str())
    }

    /// A warning that says the same.
    pub fn duplicate(&self) -> (w: Self)
        ensures
            w@ == self@,
    {
        Warning { code: self.code, path: self.path.clone(), message: self.message.clone() }
    }
}

/// Appends copies of `more` to a list of warnings.
pub fn append(list: &mut Vec<Warning>, more: &Vec<Warning>)
    ensures
        notices(final(list)@) == notices(old(list)@) + notices(more@),
{
    let mut i: usize = 0;
    assert(notices(list@) =~= notices(old(list)@) + notices(more@.take(0)));
    while i < more.len()
        invariant
            i <= more.len(),
            notices(list@) == notices(old(list)@) + notices(more@.take(i as int)),
        decreases more.len() - i,
    {
        let ghost before = list@;
        list.push(more[i].duplicate());
        proof {
            notices_push(before, list@.last());
            assert(more@.take(i + 1) =~= more@.take(i as int).push(more@[i as int]));
            notices_push(more@.take(i as int), more@[i as int]);
            assert(notices(list@) =~= notices(old(list)@) + notices(more@.take(i + 1)));
        }
        i = i + 1;
    }
    assert(more@.take(i as int) =~= more@);
}

} // verus!
