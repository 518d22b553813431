use vstd::prelude::*;

verus! {

/// Accuracy tier of a measurement against the error budget.
#[derive(Debug, Clone, Copy, PartialEq, Eq, Structural)]
pub enum Tier {
    Good,
    Useful,
    Fail,
}

impl Tier {
    /// The tier's name as printed in reports.
    pub fn label(&self) -> (r: &'static str)
        ensures
            *self == Tier::Good ==> r@ == "GOOD"@,
            *self == Tier::Useful ==> r@ == "USEFUL"@,
            *self == Tier::Fail ==> r@ == "FAIL"@,
    {
        match self {
            Tier::Good => "GOOD",
            Tier::Useful => "USEFUL",
            Tier::Fail => "FAIL",
        }
    }
}

} // verus!
