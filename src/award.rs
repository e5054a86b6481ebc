//! The awards that a contact may be credited to.
use vstd::prelude::*;

verus! {

/// An award from the ADIF award enumeration.
#[allow(non_camel_case_types)]
#[derive(Debug, Clone, Copy, PartialEq, Eq, Structural)]
pub enum Award {
    AJA,
    CQDX,
    CQDXFIELD,
    CQWAZ_MIXED,
    CQWAZ_CW,
    CQWAZ_PHONE,
    CQWAZ_RTTY,
    CQWAZ_160m,
    CQWPX,
    DARC_DOK,
    DXCC,
    DXCC_MIXED,
    DXCC_CW,
    DXCC_PHONE,
    DXCC_RTTY,
    IOTA,
    JCC,
    JCG,
    MARATHON,
    RDA,
    WAB,
    WAC,
    WAE,
    WAIP,
    WAJA,
    WAS,
    WAZ,
    USACA,
    VUCC,
}

} // verus!
