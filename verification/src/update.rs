//! What an endpoint reported of a slot.
use crate::notification::SlotNotificationResult;
use crate::time::Timestamp;
use vstd::prelude::*;

verus! {

/// How long after the first endpoint another one reported a slot, in
/// milliseconds.
#[derive(Clone, Copy, Debug)]
pub enum Delay {
    /// A delay that was read from the store: the bits of a double.
    Stored(u64),
    /// The time from `winner` to `observed`.
    Behind { observed: Timestamp, winner: Timestamp },
}

/// A [`Delay`] over the bits of its timestamps.
pub enum DelayView {
    Stored(u64),
    Behind { observed: u64, winner: u64 },
}

impl View for Delay {
    type V = DelayView;

    open spec fn view(&self) -> DelayView {
        match *self {
            Delay::Stored(bits) => DelayView::Stored(bits),
            Delay::Behind { observed, winner } => DelayView::Behind {
                observed: observed@,
                winner: winner@,
            },
        }
    }
}

/// The view of a delay that may be missing.
pub open spec fn delay_view(delay: Option<Delay>) -> Option<DelayView> {
    match delay {
        Some(d) => Some(d@),
        None => None,
    }
}

/// A slot as one endpoint reported it.
#[derive(Debug)]
pub struct SlotUpdate {
    pub timestamp: Timestamp,
    pub nickname: String,
    pub slot_info: SlotNotificationResult,
    pub delay: Option<Delay>,
}

/// A [`SlotUpdate`] over the bits of its timestamp and the characters of its
/// nickname.
pub struct SlotUpdateView {
    pub timestamp: u64,
    pub nickname: Seq<char>,
    pub slot_info: SlotNotificationResult,
    pub delay: Option<DelayView>,
}

impl View for SlotUpdate {
    type V = SlotUpdateView;

    open spec fn view(&self) -> SlotUpdateView {
        SlotUpdateView {
            timestamp: self.timestamp@,
            nickname: self.nickname@,
            slot_info: self.slot_info,
            delay: delay_view(self.delay),
        }
    }
}

impl Clone for SlotUpdate {
    fn clone(&self) -> (copy: SlotUpdate)
        ensures
            copy@ == self@,
    {
        SlotUpdate {
            timestamp: self.timestamp,
            nickname: self.nickname.clone(),
            slot_info: self.slot_info,
            delay: self.delay,
        }
    }
}

/// An update that says how far it was behind the winner of its slot.
pub open spec fn with_delay(update: SlotUpdateView, winner: u64) -> SlotUpdateView {
    SlotUpdateView {
        delay: Some(DelayView::Behind { observed: update.timestamp, winner }),
        ..update
    }
}

} // verus!
