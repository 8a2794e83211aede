//! What RPKI says of a route.
use vstd::prelude::*;

verus! {

/// The outcome of route origin validation.
#[derive(Clone, Copy, Debug, PartialEq, Eq, Structural)]
pub enum RovStatus {
    /// The route was not validated.
    NotChecked,
    /// No payload covers the prefix.
    NotFound,
    /// A payload matches the route.
    Valid,
    /// Payloads cover the prefix and none matches.
    Invalid,
}

/// The RPKI information kept with a route. It takes one octet in storage.
#[derive(Clone, Copy, Debug, PartialEq, Eq, Structural)]
pub struct RpkiInfo {
    rov_status: RovStatus,
}

impl RpkiInfo {
    /// The outcome of route origin validation.
    pub closed spec fn status(self) -> RovStatus {
        self.rov_status
    }

    /// The octet that stands for this information.
    pub open spec fn octet(self) -> u8 {
        match self.status() {
            RovStatus::NotChecked => 0,
            RovStatus::NotFound => 1,
            RovStatus::Valid => 2,
            RovStatus::Invalid => 3,
        }
    }

    /// The information with the given outcome.
    pub fn new(rov_status: RovStatus) -> (info: RpkiInfo)
        ensures
            info.status() == rov_status,
    {
        RpkiInfo { rov_status }
    }

    /// The outcome of route origin validation.
    pub fn rov_status(&self) -> (s: RovStatus)
        ensures
            s == self.status(),
    {
        self.rov_status
    }

    /// The octet that stands for this information.
    pub fn to_octet(self) -> (b: u8)
        ensures
            b == self.octet(),
    {
        match self.rov_status {
            RovStatus::NotChecked => 0,
            RovStatus::NotFound => 1,
            RovStatus::Valid => 2,
            RovStatus::Invalid => 3,
        }
    }

    /// Reads the information from its octet. An octet that stands for nothing
    /// reads as not checked.
    pub fn from_octet(b: u8) -> (info: RpkiInfo)
        ensures
            info.status() == rov_status_of(b),
    {
        let rov_status = match b {
            1 => RovStatus::NotFound,
            2 => RovStatus::Valid,
            3 => RovStatus::Invalid,
            _ => RovStatus::NotChecked,
        };
        RpkiInfo { rov_status }
    }
}

impl Default for RpkiInfo {
    fn default() -> (info: Self)
        ensures
            info.status() == RovStatus::NotChecked,
    {
        RpkiInfo { rov_status: RovStatus::NotChecked }
    }
}

/// The outcome that an octet stands for.
pub open spec fn rov_status_of(b: u8) -> RovStatus {
    match b {
        1 => RovStatus::NotFound,
        2 => RovStatus::Valid,
        3 => RovStatus::Invalid,
        _ => RovStatus::NotChecked,
    }
}

/// Information survives a round trip through its octet.
pub proof fn octet_round_trip(info: RpkiInfo)
    ensures
        rov_status_of(info.octet()) == info.status(),
{
}

} // verus!
