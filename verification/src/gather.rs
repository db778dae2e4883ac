//! Asking for the sinks until they are listed.
use crate::error::Error;
use crate::json::json_members;
use crate::sinks::{
    default_data, fault_stands, hold_up_to, law_default_reading_is_of_first_output,
    law_no_output_by_name, read_default_sink, PactlData, Root, RootElement,
};
use vstd::prelude::*;

verus! {

/// How often the sinks are asked for before they are given up.
pub const MOST_LISTINGS: u32 = 1024;

/// How long to wait after an empty listing.
pub const RETRY_MILLIS: u64 = 10;

/// What to do next in order to learn about the default output sink.
#[derive(Clone, Copy, Debug, PartialEq, Eq)]
pub enum GatherAction {
    /// Ask for the sinks, and hand in the listing.
    ListSinks,
    /// Wait for this many milliseconds, and report when they are over.
    Sleep(u64),
    /// Nothing more: this is the outcome.
    Finish(Result<PactlData, Error>),
    /// Nothing more: that the listing could not be read is the outcome.
    PassError,
}

/// What to do about a listing. `None` stands for one that cannot be read.
pub open spec fn on_listing(listing: Option<Seq<RootElement>>) -> GatherAction {
    match listing {
        Some(sinks) => if sinks.len() == 0 {
            GatherAction::Sleep(RETRY_MILLIS)
        } else {
            GatherAction::Finish(default_data(sinks))
        },
        None => GatherAction::PassError,
    }
}

/// What to do after waiting, when so many listings were empty.
pub open spec fn on_wake(empty_listings: nat) -> GatherAction {
    if empty_listings < MOST_LISTINGS {
        GatherAction::ListSinks
    } else {
        GatherAction::Finish(Err(Error::NoSinks))
    }
}

/// How far the asking has come.
pub struct Gather {
    empty_listings: u32,
}

impl Gather {
    /// How many listings were empty and have been waited for.
    pub closed spec fn empty_listings(self) -> nat {
        self.empty_listings as nat
    }

    /// Begins, and says what to do first.
    pub fn start() -> (begun: (Gather, GatherAction))
        ensures
            begun.0.empty_listings() == 0,
            begun.1 == GatherAction::ListSinks,
    {
        (Gather { empty_listings: 0 }, GatherAction::ListSinks)
    }

    /// Takes a listing, or `None` where it could not be read, and says what to do next.
    pub fn listed(&self, listing: Option<&Root>) -> (action: GatherAction)
        ensures
            action == on_listing(
                match listing {
                    Some(sinks) => Some(sinks@),
                    None => None,
                },
            ),
            match listing {
                Some(sinks) => if sinks@.len() == 0 {
                    action == GatherAction::Sleep(10)
                } else {
                    action == GatherAction::Finish(default_data(sinks@))
                },
                None => action == GatherAction::PassError,
            },
    {
        match listing {
            Some(sinks) => {
                if sinks.len() == 0 {
                    GatherAction::Sleep(RETRY_MILLIS)
                } else {
                    GatherAction::Finish(read_default_sink(sinks))
                }
            },
            None => GatherAction::PassError,
        }
    }

    /// Takes note that the wait after an empty listing is over, and says what to do next.
    pub fn slept(&mut self) -> (action: GatherAction)
        ensures
            final(self).empty_listings() == (if old(self).empty_listings() < MOST_LISTINGS {
                old(self).empty_listings() + 1
            } else {
                old(self).empty_listings()
            }),
            action == on_wake(final(self).empty_listings()),
            action == (if old(self).empty_listings() + 1 < 1024 {
                GatherAction::ListSinks
            } else {
                GatherAction::Finish(Err::<PactlData, Error>(Error::NoSinks))
            }),
    {
        if self.empty_listings < MOST_LISTINGS {
            self.empty_listings = self.empty_listings + 1;
        }
        if self.empty_listings < MOST_LISTINGS {
            GatherAction::ListSinks
        } else {
            GatherAction::Finish(Err(Error::NoSinks))
        }
    }
}

/// What is done in the end, where the sinks are listed one time after the other in the given ways
/// and so many listings were empty before. There is no end where it takes more listings than
/// these.
pub open spec fn outcome(
    listings: Seq<Option<Seq<RootElement>>>,
    empty_listings: nat,
) -> Option<GatherAction>
    decreases listings.len(),
{
    if listings.len() == 0 {
        None
    } else {
        match on_listing(listings[0]) {
            GatherAction::Sleep(_) => match on_wake(empty_listings + 1) {
                GatherAction::ListSinks => outcome(listings.drop_first(), empty_listings + 1),
                action => Some(action),
            },
            action => Some(action),
        }
    }
}

/// How often the sinks are asked for until then.
pub open spec fn listings_taken(
    listings: Seq<Option<Seq<RootElement>>>,
    empty_listings: nat,
) -> nat
    decreases listings.len(),
{
    if listings.len() == 0 {
        0
    } else {
        match on_listing(listings[0]) {
            GatherAction::Sleep(_) => match on_wake(empty_listings + 1) {
                GatherAction::ListSinks => 1 + listings_taken(
                    listings.drop_first(),
                    empty_listings + 1,
                ),
                _ => 1,
            },
            _ => 1,
        }
    }
}

/// An empty listing, as opposed to one that cannot be read.
pub open spec fn is_empty_listing(listing: Option<Seq<RootElement>>) -> bool {
    listing matches Some(sinks) && sinks.len() == 0
}

/// The first listing that is not empty decides, if it is among those that are asked for, and the
/// sinks are not asked for again.
pub proof fn law_first_listing_decides(
    listings: Seq<Option<Seq<RootElement>>>,
    k: int,
    empty_listings: nat,
)
    requires
        0 <= k < listings.len(),
        empty_listings + k < MOST_LISTINGS,
        !is_empty_listing(listings[k]),
        forall|i: int| 0 <= i < k ==> is_empty_listing(#[trigger] listings[i]),
    ensures
        outcome(listings, empty_listings) == Some(on_listing(listings[k])),
        listings_taken(listings, empty_listings) == k + 1,
    decreases k,
{
    if k > 0 {
        assert(is_empty_listing(listings[0]));
        let rest = listings.drop_first();
        assert(rest[k - 1] == listings[k]);
        assert forall|i: int| 0 <= i < k - 1 implies is_empty_listing(#[trigger] rest[i]) by {
            assert(rest[i] == listings[i + 1]);
        }
        law_first_listing_decides(rest, k - 1, empty_listings + 1);
    }
}

/// Empty listings before the first one that is not leave no trace in what comes of it.
pub proof fn law_empty_listings_do_not_matter(listings: Seq<Option<Seq<RootElement>>>, k: int)
    requires
        0 <= k < listings.len(),
        k < MOST_LISTINGS,
        !is_empty_listing(listings[k]),
        forall|i: int| 0 <= i < k ==> is_empty_listing(#[trigger] listings[i]),
    ensures
        outcome(listings, 0) == outcome(listings.skip(k), 0),
{
    law_first_listing_decides(listings, k, 0);
    assert(listings.skip(k)[0] == listings[k]);
    law_first_listing_decides(listings.skip(k), 0, 0);
}

/// Once as many listings as are asked for were empty, the sinks are given up.
pub proof fn law_empty_listings_give_up(
    listings: Seq<Option<Seq<RootElement>>>,
    empty_listings: nat,
)
    requires
        empty_listings < MOST_LISTINGS,
        listings.len() >= MOST_LISTINGS - empty_listings,
        forall|i: int|
            0 <= i < MOST_LISTINGS - empty_listings ==> is_empty_listing(#[trigger] listings[i]),
    ensures
        outcome(listings, empty_listings) == Some(
            GatherAction::Finish(Err::<PactlData, Error>(Error::NoSinks)),
        ),
        listings_taken(listings, empty_listings) == MOST_LISTINGS - empty_listings,
    decreases MOST_LISTINGS - empty_listings,
{
    assert(is_empty_listing(listings[0]));
    if empty_listings + 1 < MOST_LISTINGS {
        let rest = listings.drop_first();
        assert forall|i: int| 0 <= i < MOST_LISTINGS - (empty_listings + 1) implies is_empty_listing(
            #[trigger] rest[i],
        ) by {
            assert(rest[i] == listings[i + 1]);
        }
        law_empty_listings_give_up(rest, empty_listings + 1);
    }
}

/// The sinks are asked for at most 1024 times, ten milliseconds apart. If every listing is empty,
/// they are given up after that many, and not before.
pub proof fn law_sinks_are_asked_for_1024_times(listings: Seq<Option<Seq<RootElement>>>)
    requires
        forall|i: int| 0 <= i < listings.len() ==> is_empty_listing(#[trigger] listings[i]),
    ensures
        listings.len() >= 1024 ==> outcome(listings, 0) == Some(
            GatherAction::Finish(Err::<PactlData, Error>(Error::NoSinks)),
        ),
        listings.len() >= 1024 ==> listings_taken(listings, 0) == 1024,
        listings.len() < 1024 ==> outcome(listings, 0) is None,
        listings.len() < 1024 ==> listings_taken(listings, 0) == listings.len(),
        forall|i: int|
            0 <= i < listings.len() ==> on_listing(#[trigger] listings[i]) == GatherAction::Sleep(10),
{
    assert forall|i: int| 0 <= i < listings.len() implies on_listing(#[trigger] listings[i])
        == GatherAction::Sleep(10) by {
        assert(is_empty_listing(listings[i]));
    }
    if listings.len() >= 1024 {
        law_empty_listings_give_up(listings, 0);
    } else {
        lemma_still_asking(listings, 0);
    }
}

proof fn lemma_still_asking(listings: Seq<Option<Seq<RootElement>>>, empty_listings: nat)
    requires
        listings.len() + empty_listings < MOST_LISTINGS,
        forall|i: int| 0 <= i < listings.len() ==> is_empty_listing(#[trigger] listings[i]),
    ensures
        outcome(listings, empty_listings) is None,
        listings_taken(listings, empty_listings) == listings.len(),
    decreases listings.len(),
{
    if listings.len() > 0 {
        let rest = listings.drop_first();
        assert(is_empty_listing(listings[0]));
        assert forall|i: int| 0 <= i < rest.len() implies is_empty_listing(#[trigger] rest[i]) by {
            assert(rest[i] == listings[i + 1]);
        }
        lemma_still_asking(rest, empty_listings + 1);
    }
}

/// However many empty listings come first, what is read in the end is the first output of the first
/// listing that is not empty: its base volume, its index, whether it is muted, and the volume that
/// all of its channels hold.
pub proof fn law_reading_is_of_first_listing(
    listings: Seq<Option<Seq<RootElement>>>,
    k: int,
    sinks: Seq<RootElement>,
    o: int,
)
    requires
        0 <= k < listings.len(),
        k < 1024,
        listings[k] == Some(sinks),
        forall|i: int| 0 <= i < k ==> is_empty_listing(#[trigger] listings[i]),
        0 <= o < sinks.len(),
        "alsa_output."@.is_prefix_of(sinks[o].name@),
        forall|i: int| 0 <= i < o ==> !"alsa_output."@.is_prefix_of((#[trigger] sinks[i]).name@),
    ensures
        outcome(listings, 0) matches Some(GatherAction::Finish(result)) && match result {
            Ok(data) => {
                &&& data.base_volume == sinks[o].base_volume.value
                &&& data.index == sinks[o].index
                &&& data.mute == sinks[o].mute
                &&& forall|level: u64|
                    data.volume == Some(level) <==> json_members(sinks[o].volume).len() > 0
                        && #[trigger] hold_up_to(
                        json_members(sinks[o].volume),
                        json_members(sinks[o].volume).len() as int,
                        level,
                    )
            },
            Err(error) => error matches Error::Channel(fault) && fault_stands(
                json_members(sinks[o].volume),
                fault,
            ),
        },
        listings_taken(listings, 0) == k + 1,
{
    law_first_listing_decides(listings, k, 0);
    law_default_reading_is_of_first_output(sinks, o);
    if let Err(error) = default_data(sinks) {
        assert(fault_stands(json_members(sinks[o].volume), error->Channel_0));
    }
}

/// If the first listing that is not empty cannot be read, or holds no output, that is the outcome.
pub proof fn law_first_listing_without_output(listings: Seq<Option<Seq<RootElement>>>, k: int)
    requires
        0 <= k < listings.len(),
        k < 1024,
        !is_empty_listing(listings[k]),
        forall|i: int| 0 <= i < k ==> is_empty_listing(#[trigger] listings[i]),
    ensures
        outcome(listings, 0) == Some(GatherAction::PassError) <==> listings[k] is None,
        outcome(listings, 0) == Some(
            GatherAction::Finish(Err::<PactlData, Error>(Error::NoDefaultSink)),
        ) <==> (listings[k] matches Some(sinks) && forall|i: int|
            0 <= i < sinks.len() ==> !"alsa_output."@.is_prefix_of((#[trigger] sinks[i]).name@)),
        listings_taken(listings, 0) == k + 1,
{
    law_first_listing_decides(listings, k, 0);
    if let Some(sinks) = listings[k] {
        law_no_output_by_name(sinks);
    }
}

} // verus!
