//! A trace given as lines of text, shown numbered.

use crate::text::{decimal, push_decimal, push_str};
use vstd::prelude::*;

verus! {

/// A trace whose steps are already text.
#[derive(Debug, Clone)]
pub struct Trace {
    pub trace: Vec<String>,
}

/// The steps, one per line, each numbered from 0.
pub open spec fn numbered_lines(steps: Seq<Seq<char>>) -> Seq<char>
    decreases steps.len(),
{
    if steps.len() == 0 {
        Seq::empty()
    } else {
        numbered_lines(steps.drop_last()) + decimal((steps.len() - 1) as nat) + ". "@ + steps.last()
            + "\n"@
    }
}

impl Trace {
    /// The steps as text, one numbered line each.
    pub fn render(&self) -> (r: String)
        ensures
            r@ == numbered_lines(self.trace@.map_values(|s: String| s@)),
    {
        let ghost steps = self.trace@.map_values(|s: String| s@);
        let mut out = String::new();
        let mut i: usize = 0;
        while i < self.trace.len()
            invariant
                i <= steps.len(),
                steps == self.trace@.map_values(|s: String| s@),
                out@ == numbered_lines(steps.take(i as int)),
            decreases steps.len() - i,
        {
            push_decimal(&mut out, i as u64);
            push_str(&mut out, ". ");
            push_str(&mut out, self.trace[i].as_str());
            push_str(&mut out, "\n");
            proof {
                assert(steps.take(i + 1).drop_last() =~= steps.take(i as int));
                assert(steps.take(i + 1).last() == self.trace@[i as int]@);
                assert(out@ =~= numbered_lines(steps.take(i + 1)));
            }
            i = i + 1;
        }
        proof {
            assert(steps.take(i as int) =~= steps);
        }
        out
    }
}

} // verus!
