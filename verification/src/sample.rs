//! Rows of a backend query result.

use vstd::prelude::*;
use crate::text::str_eq;

verus! {

/// One row of a backend time-series result: its label set and the
/// string-encoded reading.
pub struct MetricSample {
    pub labels: Vec<(String, String)>,
    pub value: String,
}

/// The value of the first label called `name`, if any.
pub open spec fn label_of(labels: Seq<(String, String)>, name: Seq<char>) -> Option<Seq<char>>
    decreases labels.len(),
{
    if labels.len() == 0 {
        None
    } else if labels[0].0@ == name {
        Some(labels[0].1@)
    } else {
        label_of(labels.drop_first(), name)
    }
}

impl MetricSample {
    /// Finds a label by name.
    #[verifier::loop_isolation(false)]
    pub fn label(&self, name: &str) -> (r: Option<&String>)
        ensures
            match r {
                Some(v) => label_of(self.labels@, name@) == Some(v@),
                None => label_of(self.labels@, name@) is None,
            },
    {
        proof {
            assert(self.labels@.skip(0) =~= self.labels@);
        }
        let n = self.labels.len();
        let mut i: usize = 0;
        while i < n
            invariant
                0 <= i <= n,
                label_of(self.labels@, name@) == label_of(self.labels@.skip(i as int), name@),
            decreases n - i,
        {
            if str_eq(self.labels[i].0.as_str(), name) {
                proof {
                    assert(self.labels@.skip(i as int)[0] == self.labels@[i as int]);
                }
                return Some(&self.labels[i].1);
            }
            proof {
                assert(self.labels@.skip(i as int)[0] == self.labels@[i as int]);
                assert(self.labels@.skip(i as int).drop_first() =~= self.labels@.skip(i + 1));
            }
            i += 1;
        }
        None
    }
}

} // verus!
