use vstd::prelude::*;

verus! {

/// Which notion of "size" the tree totals up. Both sizes are captured per
/// file during the scan, so switching between them afterwards is an
/// in-memory recompute.
#[derive(Clone, Copy, PartialEq, Eq, Structural, Debug)]
pub enum SizeMode {
    /// Logical size: the bytes a file contains.
    Apparent,
    /// On-disk footprint: the 512-byte blocks actually allocated.
    Allocated,
}

impl Default for SizeMode {
    /// The on-disk footprint is what the analyzer shows unless asked otherwise.
    fn default() -> (m: SizeMode)
        ensures
            m == SizeMode::Allocated,
    {
        SizeMode::Allocated
    }
}

impl SizeMode {
    /// The other mode.
    pub open spec fn spec_toggled(self) -> SizeMode {
        match self {
            SizeMode::Apparent => SizeMode::Allocated,
            SizeMode::Allocated => SizeMode::Apparent,
        }
    }

    /// Lower-case name shown in the header and used as the command-line value.
    pub fn label(self) -> (s: &'static str)
        ensures
            self == SizeMode::Apparent ==> s@ == "apparent"@,
            self == SizeMode::Allocated ==> s@ == "allocated"@,
    {
        match self {
            SizeMode::Apparent => "apparent",
            SizeMode::Allocated => "allocated",
        }
    }

    /// The other mode, used by the interactive toggle.
    pub fn toggled(self) -> (m: SizeMode)
        ensures
            m == self.spec_toggled(),
    {
        match self {
            SizeMode::Apparent => SizeMode::Allocated,
            SizeMode::Allocated => SizeMode::Apparent,
        }
    }
}

/// Toggling always changes the mode, and toggling twice gives it back.
pub proof fn lemma_toggle_twice(m: SizeMode)
    ensures
        m.spec_toggled() != m,
        m.spec_toggled().spec_toggled() == m,
{
}

} // verus!
