//! The decisions that keep the advertisement bound to the current interfaces.
//! The caller performs the effects: it lists the interfaces, starts and stops
//! the advertisement, and reports back what happened.
use vstd::prelude::*;

use crate::filter::InterfaceFilter;
use crate::snapshot::{
    collect_snapshot,
    selected_ips,
    snapshots_equal,
    IpAddress,
    InterfaceSnapshot,
    RawInterface,
};
#[allow(unused_imports)]
use crate::snapshot::{addresses_of, addrs_sorted, is_snapshot_of, snapshot_view, EntryView};

verus! {

/// The domain that advertised names live in.
pub open spec fn local_suffix() -> Seq<char> {
    seq!['.', 'l', 'o', 'c', 'a', 'l']
}

/// `name` as advertised: unchanged where it already ends in `.local`
/// (compared literally), else with `.local` appended.
pub open spec fn fqdn_of(name: Seq<char>) -> Seq<char> {
    if name.len() >= 6 && name.subrange(name.len() - 6, name.len() as int) == local_suffix() {
        name
    } else {
        name + local_suffix()
    }
}

/// `name` with the `.local` domain, appended only where it is not there already.
pub fn fqdn_name(name: &str) -> (r: String)
    ensures
        r@ == fqdn_of(name@),
{
    let suffix = ".local";
    proof {
        reveal_strlit(".local");
    }
    assert(suffix@ =~= local_suffix());
    let n = name.unicode_len();
    let mut ends_with_suffix = n >= 6;
    let mut k: usize = 0;
    while ends_with_suffix && k < 6
        invariant
            n == name@.len(),
            suffix@ == local_suffix(),
            k <= 6,
            ends_with_suffix ==> n >= 6,
            ends_with_suffix ==> forall|q: int| 0 <= q < k ==> name@[n - 6 + q] == suffix@[q],
            !ends_with_suffix ==> fqdn_of(name@) == name@ + local_suffix(),
        decreases if ends_with_suffix {
            7 - k
        } else {
            0
        },
    {
        if name.get_char(n - 6 + k) != suffix.get_char(k) {
            ends_with_suffix = false;
            assert(name@.subrange(n - 6, n as int)[k as int] != local_suffix()[k as int]);
        } else {
            k = k + 1;
        }
    }
    if ends_with_suffix {
        assert(name@.subrange(n - 6, n as int) =~= local_suffix());
        name.to_owned()
    } else {
        let mut r = name.to_owned();
        r.append(suffix);
        r
    }
}

/// `addresses` is the list to advertise on for `filter` and snapshot `s`: empty
/// (no restriction) for every interface, else each address of `s` once, sorted.
pub open spec fn advertises(
    filter: InterfaceFilter,
    s: Seq<EntryView>,
    addresses: Seq<IpAddress>,
) -> bool {
    match filter {
        InterfaceFilter::All => addresses.len() == 0,
        InterfaceFilter::Only(_) => addrs_sorted(addresses) && addresses.to_set() == addresses_of(s),
    }
}

/// What a tick asks the caller to do.
pub enum TickAction {
    /// Nothing changed that matters: leave the advertisement as it is.
    Keep,
    /// The interfaces changed: stop the running advertisement, if
    /// `stop_previous`, then start one on `addresses`, and report the outcome.
    Restart { stop_previous: bool, addresses: Vec<IpAddress> },
}

/// The state that the polling loop holds between events.
pub struct Monitor {
    /// The filter fixed at startup.
    pub filter: InterfaceFilter,
    /// The last snapshot taken, which the running advertisement was started for.
    pub held: Vec<InterfaceSnapshot>,
    /// Whether an advertisement is running.
    pub live: bool,
    /// Whether shutdown has been handled.
    pub stopped: bool,
}

impl Monitor {
    /// The state once the first advertisement has started for `initial`.
    pub fn new(filter: InterfaceFilter, initial: Vec<InterfaceSnapshot>) -> (r: Monitor)
        ensures
            r.filter == filter,
            r.held == initial,
            r.live,
            !r.stopped,
    {
        Monitor { filter, held: initial, live: true, stopped: false }
    }

    /// Handles one tick. `observed` is what the host listed, or `None` where
    /// listing failed; a failure changes nothing. A snapshot equal to the held
    /// one changes nothing either. Any other snapshot becomes the held one and
    /// asks for a restart on its addresses; until its outcome is reported no
    /// advertisement counts as running.
    pub fn on_tick(&mut self, observed: Option<Vec<RawInterface>>) -> (action: TickAction)
        ensures
            final(self).filter == old(self).filter,
            final(self).stopped == old(self).stopped,
            old(self).stopped ==> *final(self) == *old(self) && action is Keep,
            !old(self).stopped ==> match observed {
                None => *final(self) == *old(self) && action is Keep,
                Some(raw) => {
                    &&& is_snapshot_of(snapshot_view(final(self).held@), old(self).filter, raw@)
                    &&& if snapshot_view(final(self).held@) == snapshot_view(old(self).held@) {
                        *final(self) == *old(self) && action is Keep
                    } else {
                        &&& !final(self).live
                        &&& match action {
                            TickAction::Keep => false,
                            TickAction::Restart { stop_previous, addresses } => {
                                &&& stop_previous == old(self).live
                                &&& advertises(
                                    old(self).filter,
                                    snapshot_view(final(self).held@),
                                    addresses@,
                                )
                            },
                        }
                    }
                },
            },
    {
        if self.stopped {
            return TickAction::Keep;
        }
        match observed {
            None => TickAction::Keep,
            Some(raw) => {
                let current = collect_snapshot(&self.filter, &raw);
                if snapshots_equal(&current, &self.held) {
                    return TickAction::Keep;
                }
                let addresses = selected_ips(&self.filter, current.as_slice());
                let stop_previous = self.live;
                self.held = current;
                self.live = false;
                TickAction::Restart { stop_previous, addresses }
            },
        }
    }

    /// Records whether the restart that the last tick asked for started an
    /// advertisement. After a failure none runs until the next change.
    pub fn on_restart_result(&mut self, started: bool)
        ensures
            final(self).live == started,
            final(self).filter == old(self).filter,
            final(self).held == old(self).held,
            final(self).stopped == old(self).stopped,
    {
        self.live = started;
    }

    /// Handles shutdown: returns whether a running advertisement must be
    /// stopped. A second shutdown stops nothing.
    pub fn on_shutdown(&mut self) -> (stop_service: bool)
        ensures
            stop_service == old(self).live,
            !final(self).live,
            final(self).stopped,
            final(self).filter == old(self).filter,
            final(self).held == old(self).held,
    {
        let stop_service = self.live;
        self.live = false;
        self.stopped = true;
        stop_service
    }
}

} // verus!
