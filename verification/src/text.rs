//! Diagnostic text renderings of a representation's matrices and
//! masks.

use vstd::prelude::*;
use crate::bits::bits_of;
use crate::representation::BitArrayRepresentation;
use crate::solution::{bit_chars, bit_string};

verus! {

/// The exclusion-matrix rows up to row `k`, one indented line each.
pub open spec fn rows_text(rep: BitArrayRepresentation, k: int) -> Seq<char>
    decreases k,
{
    if k <= 0 {
        Seq::empty()
    } else {
        rows_text(rep, k - 1) + "    "@ + bit_chars(rep.excl(k - 1)) + "\n"@
    }
}

/// The full diagnostic rendering of a representation.
pub open spec fn rep_text(rep: BitArrayRepresentation) -> Seq<char> {
    "BitArrayRepresentation: {\n  filled_sites = \n    "@ + bit_chars(bits_of(rep.filled_sites))
        + "\n  exclusion_matrix = \n"@ + rows_text(rep, rep.n() as int)
        + "  tripoint_mask = \n    "@ + bit_chars(rep.tri()) + "\n  midpoint_mask = \n    "@
        + bit_chars(rep.mid()) + "\n  singlet_mask = \n    "@ + bit_chars(rep.sin())
        + "\n  filter = \n    "@ + (match rep.filter {
        Some(f) => bit_chars(bits_of(f)),
        None => "None"@,
    }) + "\n}"@
}

impl BitArrayRepresentation {
    /// Render the matrices and masks for diagnostics.
    pub fn __str__(&self) -> (r: String)
        requires
            self.wf(),
        ensures
            r@ == rep_text(*self),
    {
        let mut output = String::new();
        output.append("BitArrayRepresentation: {\n  filled_sites = \n    ");
        let fs = bit_string(&self.filled_sites);
        output.append(fs.as_str());
        output.append("\n  exclusion_matrix = \n");
        let ghost head = output@;
        proof {
            assert(rows_text(*self, 0) =~= Seq::<char>::empty());
            assert(output@ =~= head + rows_text(*self, 0));
        }
        let n = self.exclusion_matrix.len();
        let mut i: usize = 0;
        while i < n
            invariant
                0 <= i <= n,
                self.wf(),
                n == self.n(),
                output@ == head + rows_text(*self, i as int),
            decreases n - i,
        {
            output.append("    ");
            let row = bit_string(&self.exclusion_matrix[i]);
            output.append(row.as_str());
            output.append("\n");
            proof {
                assert(output@ =~= head + rows_text(*self, i + 1));
            }
            i = i + 1;
        }
        output.append("  tripoint_mask = \n    ");
        let t = bit_string(&self.tripoint_mask);
        output.append(t.as_str());
        output.append("\n  midpoint_mask = \n    ");
        let m = bit_string(&self.midpoint_mask);
        output.append(m.as_str());
        output.append("\n  singlet_mask = \n    ");
        let s = bit_string(&self.singlet_mask);
        output.append(s.as_str());
        output.append("\n  filter = \n    ");
        match &self.filter {
            Some(f) => {
                let fb = bit_string(f);
                output.append(fb.as_str());
            },
            None => {
                output.append("None");
            },
        }
        output.append("\n}");
        proof {
            assert(output@ =~= rep_text(*self));
        }
        output
    }

    /// A one-line rendering: the type name and the initial state.
    pub fn __repr__(&self) -> (r: String)
        ensures
            r@ == "BitArrayRepresentation["@ + bit_chars(bits_of(self.filled_sites)) + "]"@,
    {
        let mut output = String::new();
        output.append("BitArrayRepresentation[");
        let fs = bit_string(&self.filled_sites);
        output.append(fs.as_str());
        output.append("]");
        proof {
            assert(output@ =~= "BitArrayRepresentation["@ + bit_chars(bits_of(self.filled_sites))
                + "]"@);
        }
        output
    }
}

} // verus!
