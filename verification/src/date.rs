//! Date nodes.
//!
//! A date payload is stored as whole seconds and sub-second microseconds
//! past the Mac epoch (2001-01-01T00:00:00Z, `MAC_EPOCH` seconds after the
//! Unix epoch).  The public contract speaks of durations since the Unix
//! epoch at microsecond granularity, carried by [`PlistDuration`]; the
//! epoch shift happens at this boundary.

use vstd::prelude::*;

use crate::error::PlistError;
use crate::{fresh_id, lemma_view_unfold, NodeOrigin, OwnershipState, PNode, Plist, PlistType, PlistValue};

verus! {

broadcast use lemma_view_unfold;

/// Seconds from the Unix epoch (1970-01-01T00:00:00Z) to the Mac epoch
/// (2001-01-01T00:00:00Z).
pub const MAC_EPOCH: u64 = 978307200;

/// A span of time since the Unix epoch, at microsecond granularity: whole
/// seconds plus sub-second microseconds.
#[derive(Debug, PartialEq, Eq, Structural, Clone, Copy)]
pub struct PlistDuration {
    pub secs: u64,
    pub micros: u32,
}

impl PlistDuration {
    /// Normalization: the sub-second part is less than one second.
    pub open spec fn wf(self) -> bool {
        self.micros < 1000000
    }

    /// The duration as a whole number of microseconds.
    pub open spec fn spec_as_micros(self) -> int {
        self.secs * 1000000 + self.micros
    }

    /// A duration from whole seconds and sub-second microseconds.
    pub fn new(secs: u64, micros: u32) -> (r: PlistDuration)
        requires
            micros < 1000000,
        ensures
            r == (PlistDuration { secs, micros }),
            r.wf(),
    {
        PlistDuration { secs, micros }
    }

    /// A duration from a whole number of microseconds.
    pub fn from_micros(total: u64) -> (r: PlistDuration)
        ensures
            r.secs == total / 1000000,
            r.micros == total % 1000000,
            r.wf(),
            r.spec_as_micros() == total,
    {
        PlistDuration { secs: total / 1000000, micros: (total % 1000000) as u32 }
    }

    /// A duration from whole seconds and sub-second nanoseconds; the
    /// nanosecond remainder below one microsecond is truncated toward
    /// zero, not rounded.
    pub fn from_secs_nanos(secs: u64, nanos: u32) -> (r: PlistDuration)
        requires
            nanos < 1000000000,
        ensures
            r.secs == secs,
            r.micros == nanos / 1000,
            r.wf(),
    {
        PlistDuration { secs, micros: nanos / 1000 }
    }
}

/// The date payload stored for a duration: the epoch shift to the Mac
/// epoch, split into seconds and microseconds.
pub open spec fn date_payload_of(d: PlistDuration) -> (i32, i32) {
    (((d.secs - MAC_EPOCH) as u64) as i32, d.micros as i32)
}

/// The duration recovered from a stored date payload: the epoch shift back
/// to the Unix epoch.
pub open spec fn duration_of_payload(sec: i32, usec: i32) -> PlistDuration {
    PlistDuration { secs: (MAC_EPOCH + sec) as u64, micros: usec as u32 }
}

impl Plist {
    /// Returns a new owning node with date kind.  The duration counts from
    /// the Unix epoch and must lie on or after the Mac epoch, within the
    /// range the stored seconds field can carry.
    pub fn new_date(date: PlistDuration) -> (r: Plist)
        requires
            date.wf(),
            date.secs >= MAC_EPOCH,
            date.secs - MAC_EPOCH <= i32::MAX,
        ensures
            r@ == (PNode::Date { sec: date_payload_of(date).0, usec: date_payload_of(date).1 }),
            r.wf(),
            r.owning(),
    {
        let sec: i32 = (date.secs - MAC_EPOCH) as i32;
        let usec: i32 = date.micros as i32;
        Plist {
            value: PlistValue::Date(sec, usec),
            plist_type: PlistType::Date,
            ownership: OwnershipState::Owning,
            origin: NodeOrigin::Detached,
            id: fresh_id(),
        }
    }

    /// Returns the date as a duration since the Unix epoch; any other kind
    /// is refused.
    pub fn get_date_val(&self) -> (r: Result<PlistDuration, PlistError>)
        requires
            self.wf(),
        ensures
            self@ is Date ==> r == Ok::<PlistDuration, PlistError>(
                duration_of_payload(self@->sec, self@->usec),
            ),
            self@ is Date ==> r->Ok_0.wf(),
            !(self@ is Date) ==> r == Err::<PlistDuration, PlistError>(PlistError::InvalidArg),
    {
        match &self.value {
            PlistValue::Date(sec, usec) => Ok(
                PlistDuration { secs: MAC_EPOCH + (*sec as u64), micros: *usec as u32 },
            ),
            _ => Err(PlistError::InvalidArg),
        }
    }

    /// Overwrites the value of a date node in place with a duration since
    /// the Unix epoch; any other kind is refused and left unchanged.
    pub fn set_date_val(&mut self, date: PlistDuration) -> (r: Result<(), PlistError>)
        requires
            date.wf(),
            date.secs >= MAC_EPOCH,
            date.secs - MAC_EPOCH <= i32::MAX,
        ensures
            old(self)@ is Date ==> r == Ok::<(), PlistError>(()) && final(self)@ == (
            PNode::Date { sec: date_payload_of(date).0, usec: date_payload_of(date).1 }),
            !(old(self)@ is Date) ==> r == Err::<(), PlistError>(PlistError::InvalidArg)
                && *final(self) == *old(self),
            final(self).cached_kind() == old(self).cached_kind(),
            final(self).owning() == old(self).owning(),
            old(self).wf() ==> final(self).wf(),
    {
        match &self.value {
            PlistValue::Date(_, _) => {
                let sec: i32 = (date.secs - MAC_EPOCH) as i32;
                let usec: i32 = date.micros as i32;
                self.value = PlistValue::Date(sec, usec);
                Ok(())
            },
            _ => Err(PlistError::InvalidArg),
        }
    }
}

/// Law: reading a date node built from a duration yields that duration
/// back unchanged, for every normalized duration on or after the Mac epoch
/// that the stored payload can carry.
pub proof fn lemma_date_round_trip(d: PlistDuration)
    requires
        d.wf(),
        d.secs >= MAC_EPOCH,
        d.secs - MAC_EPOCH <= i32::MAX,
    ensures
        duration_of_payload(date_payload_of(d).0, date_payload_of(d).1) == d,
{
}

} // verus!
