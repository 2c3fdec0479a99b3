//! The factors known by name, each name registered once.
use vstd::prelude::*;
use crate::compute_panel::{
    check_descriptor_names, descriptor_for, find_descriptor, first_repeated_descriptor,
};
use crate::error::QFactorsError;
use crate::factor::FactorDescriptor;

verus! {

/// The registered factor descriptors, in registration order.
#[derive(Debug)]
pub struct FactorRegistry {
    factors: Vec<FactorDescriptor>,
}

impl FactorRegistry {
    /// No two descriptors share a name.
    #[verifier::type_invariant]
    spec fn names_unique(&self) -> bool {
        first_repeated_descriptor(self.factors@) is None
    }

    /// The registered descriptors, in registration order.
    pub closed spec fn spec_descriptors(&self) -> Seq<FactorDescriptor> {
        self.factors@
    }

    /// A registry of `descriptors`; a name that an earlier descriptor already
    /// took is refused.
    pub fn from_descriptors(descriptors: Vec<FactorDescriptor>) -> (r: Result<Self, QFactorsError>)
        ensures
            first_repeated_descriptor(descriptors@) matches Some(j) ==> (r matches Err(
                QFactorsError::DuplicateFactorName(n),
            ) && n@ == descriptors@[j].factor_name@),
            first_repeated_descriptor(descriptors@) is None ==> (r matches Ok(reg)
                && reg.spec_descriptors() == descriptors@),
    {
        match check_descriptor_names(descriptors.as_slice()) {
            Ok(()) => Ok(FactorRegistry { factors: descriptors }),
            Err(QFactorsError::OutputColumnConflict(name)) => Err(
                QFactorsError::DuplicateFactorName(name),
            ),
            Err(e) => Err(e),
        }
    }

    /// The descriptor registered under `factor_name`.
    pub fn get(&self, factor_name: &str) -> (r: Option<&FactorDescriptor>)
        ensures
            descriptor_for(self.spec_descriptors(), factor_name@) matches Some(i) ==> r == Some(
                &self.spec_descriptors()[i],
            ),
            descriptor_for(self.spec_descriptors(), factor_name@) is None ==> r is None,
    {
        match find_descriptor(self.factors.as_slice(), factor_name) {
            Some(i) => Some(&self.factors[i]),
            None => None,
        }
    }

    /// Every registered descriptor, in registration order; no two share a name.
    pub fn descriptors(&self) -> (r: &[FactorDescriptor])
        ensures
            r@ == self.spec_descriptors(),
            forall|i: int, j: int|
                0 <= i < j < r@.len() ==> #[trigger] r@[i].factor_name@ != #[trigger] r@[j].factor_name@,
    {
        proof {
            use_type_invariant(self);
            let p = |j: int| crate::compute_panel::repeats_name(self.factors@, j);
            crate::frame::lemma_first_where(self.factors@.len(), p);
            assert forall|i: int, j: int| 0 <= i < j < self.factors@.len() implies #[trigger] self.factors@[i].factor_name@
                != #[trigger] self.factors@[j].factor_name@ by {
                if self.factors@[i].factor_name@ == self.factors@[j].factor_name@ {
                    assert(crate::compute_panel::repeats_name(self.factors@, j));
                    assert(p(j));
                }
            }
        }
        self.factors.as_slice()
    }
}

} // verus!
