//! Labeled symbol sequences: the input data of model training and
//! classification. A sequence carries its class label and the cardinality of
//! the symbol alphabet (codebook size) shared by every sequence of a run.

use vstd::prelude::*;

verus! {

/// A labeled sequence of discrete symbols drawn from an alphabet of
/// `codebook_size` symbols.
pub struct Sequence {
    pub class_name: String,
    pub codebook_size: usize,
    pub symbols: Vec<usize>,
}

impl Sequence {
    /// Well-formedness: the alphabet is non-empty and every symbol lies in
    /// `[0, codebook_size)`.
    pub open spec fn wf(&self) -> bool {
        &&& self.codebook_size >= 1
        &&& forall|t: int|
            0 <= t < self.symbols@.len() ==> (#[trigger] self.symbols@[t]) < self.codebook_size
    }

    /// Builds a sequence, checking well-formedness; `None` on an empty
    /// alphabet or an out-of-range symbol.
    pub fn new(class_name: String, codebook_size: usize, symbols: Vec<usize>) -> (r: Option<
        Sequence,
    >)
        ensures
            r is Some ==> r->Some_0.wf(),
            r is Some ==> r->Some_0.class_name@ == class_name@
                && r->Some_0.codebook_size == codebook_size && r->Some_0.symbols@ == symbols@,
            r is None <==> (codebook_size == 0 || exists|t: int|
                0 <= t < symbols@.len() && (#[trigger] symbols@[t]) >= codebook_size),
    {
        if codebook_size == 0 {
            return None;
        }
        let mut t: usize = 0;
        while t < symbols.len()
            invariant
                t <= symbols@.len(),
                forall|u: int| 0 <= u < t ==> (#[trigger] symbols@[u]) < codebook_size,
            decreases symbols@.len() - t,
        {
            if symbols[t] >= codebook_size {
                return None;
            }
            t += 1;
        }
        Some(Sequence { class_name, codebook_size, symbols })
    }
}

} // verus!
