//! What a stream does after each read of a connection.

use crate::outlet::Outlet;
use crate::preamble::{Outcome, SnifferState};
use crate::sniffer::{Feed, Sniffer};
use crate::{laws, outlet, preamble, text};
use once_cell::sync::OnceCell;
use std::sync::Arc;
use vstd::prelude::*;

verus! {

/// What one read does: the fingerprint to publish, and the state of the sniffer
/// after it. A read of nothing is the end of the connection.
pub open spec fn watched(
    sniffer: Option<SnifferState>,
    new: Seq<u8>,
) -> (Option<Seq<char>>, Option<SnifferState>) {
    match sniffer {
        None => (None, None),
        Some(st) => if new.len() == 0 {
            (None, None)
        } else {
            match preamble::fed(st, new) {
                (Outcome::Pending, next) => (None, Some(next)),
                (Outcome::Complete(text), _) => (Some(text), None),
                (Outcome::Refused, _) => (None, None),
            }
        },
    }
}

/// Watches the bytes read from a connection, until the fingerprint is complete or
/// there will be none.
pub struct Watch {
    /// `None` once sniffing has finished or was given up.
    sniffer: Option<Box<Sniffer>>,
}

impl View for Watch {
    type V = Option<SnifferState>;

    closed spec fn view(&self) -> Option<SnifferState> {
        match self.sniffer {
            Some(sniffer) => Some(sniffer@),
            None => None,
        }
    }
}

impl Watch {
    #[verifier::type_invariant]
    spec fn sound(self) -> bool {
        self.sniffer matches Some(sniffer) ==> preamble::live(sniffer@)
    }

    /// A watch on a connection from which nothing was read.
    pub fn new() -> (watch: Self)
        ensures
            watch@ == Some(preamble::unread(Seq::empty())),
    {
        Watch { sniffer: Some(Box::new(Sniffer::new())) }
    }

    /// Takes the bytes of one read into account. Returns the fingerprint if they
    /// complete it.
    pub fn after_read(&mut self, new: &[u8]) -> (found: Option<String>)
        ensures
            (text::opt_text(found), final(self)@) == watched(old(self)@, new@),
            final(self)@ matches Some(st) ==> preamble::live(st),
    {
        proof {
            use_type_invariant(&*self);
        }
        let mut taken: Option<Box<Sniffer>> = None;
        core::mem::swap(&mut taken, &mut self.sniffer);
        match taken {
            None => None,
            Some(mut sniffer) => {
                if new.len() == 0 {
                    // The connection ended before the preamble was complete.
                    return None;
                }
                proof {
                    laws::lemma_live_readable(sniffer@);
                }
                match sniffer.feed(new) {
                    Feed::More => {
                        self.sniffer = Some(sniffer);
                        None
                    },
                    Feed::Done(text) => Some(text),
                    Feed::Abort => None,
                }
            },
        }
    }
}

/// The state of a tap.
#[verifier::ext_equal]
pub struct TapState {
    /// The state of the sniffer, `None` once it has finished or was given up.
    pub sniffer: Option<SnifferState>,
    /// The texts handed to the cell, in order.
    pub handed: Seq<Seq<char>>,
}

/// A tap on a connection from which nothing was read.
pub open spec fn untouched() -> TapState {
    TapState { sniffer: Some(preamble::unread(Seq::empty())), handed: Seq::empty() }
}

/// The state of a tap after one more read: a fingerprint that the read completes is
/// handed to the cell, and nothing else is.
pub open spec fn tapped(st: TapState, new: Seq<u8>) -> TapState {
    let (found, next) = watched(st.sniffer, new);
    TapState {
        sniffer: next,
        handed: match found {
            Some(text) => st.handed.push(text),
            None => st.handed,
        },
    }
}

/// A watch on a connection together with the cell that its fingerprint is
/// published in.
pub struct Tap {
    watch: Watch,
    out: Outlet,
}

impl View for Tap {
    type V = TapState;

    closed spec fn view(&self) -> TapState {
        TapState { sniffer: self.watch@, handed: self.out.handed() }
    }
}

impl Tap {
    /// The cell that the fingerprint is published in.
    pub closed spec fn cell(&self) -> OnceCell<String> {
        self.out.cell()
    }

    /// A tap on a connection from which nothing was read, and the cell that the
    /// fingerprint will be published in.
    pub fn new() -> (made: (Tap, Arc<OnceCell<String>>))
        ensures
            made.0@ == untouched(),
            outlet::filled_with(*made.1) == outlet::filled_with(made.0.cell()),
    {
        let out = Outlet::new();
        let seen = out.reader();
        (Tap { watch: Watch::new(), out }, seen)
    }

    /// Takes the bytes of one read into account and publishes the fingerprint if
    /// they complete it. Returns what the cell made of it: `None` if nothing was
    /// handed to it, `Some(Ok(()))` if it is filled with the fingerprint, and
    /// `Some(Err(_))` with the fingerprint if it was full.
    pub fn after_read(&mut self, new: &[u8]) -> (published: Option<Result<(), String>>)
        ensures
            final(self)@ == tapped(old(self)@, new@),
            outlet::filled_with(final(self).cell()) == outlet::filled_with(old(self).cell()),
            match watched(old(self)@.sniffer, new@).0 {
                None => published is None,
                Some(text) => match published {
                    None => false,
                    Some(Ok(())) => outlet::filled_with(final(self).cell()) == Some(text),
                    Some(Err(back)) => back@ == text && outlet::filled_with(
                        final(self).cell(),
                    ) is Some,
                },
            },
    {
        match self.watch.after_read(new) {
            Some(text) => Some(outlet::fill(&mut self.out, text)),
            None => None,
        }
    }
}

} // verus!
