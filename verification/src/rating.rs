//! The records of the rating service and what is kept of them.

use vstd::prelude::*;

verus! {

/// One clan's standing, as the rating service reports it.
#[derive(Debug, Clone, PartialEq, Eq, Hash)]
pub struct ClanRating {
    /// The clan's short code. The roster is matched against it.
    pub tag: String,
    /// The clan's name, as the report shows it.
    pub name: String,
    /// The clan's rank; a lower one stands further up in the report.
    pub rank: u32,
    /// By how many places the rank has changed since the last period.
    pub rank_delta: i32,
}

/// What a `ClanRating` holds.
pub struct ClanRatingView {
    pub tag: Seq<char>,
    pub name: Seq<char>,
    pub rank: nat,
    pub rank_delta: int,
}

impl View for ClanRating {
    type V = ClanRatingView;

    open spec fn view(&self) -> ClanRatingView {
        ClanRatingView {
            tag: self.tag@,
            name: self.name@,
            rank: self.rank as nat,
            rank_delta: self.rank_delta as int,
        }
    }
}

impl DeepView for ClanRating {
    type V = ClanRatingView;

    open spec fn deep_view(&self) -> ClanRatingView {
        self@
    }
}

/// One page of the rating service's answer.
#[derive(Debug, Clone, PartialEq, Eq)]
pub struct PageEnvelope {
    /// How many records are left behind this page; zero on the last page.
    pub count: usize,
    /// The records of this page, in the order in which they came.
    pub records: Vec<ClanRating>,
}

/// What a `PageEnvelope` holds.
pub struct PageView {
    pub count: nat,
    pub records: Seq<ClanRatingView>,
}

impl View for PageEnvelope {
    type V = PageView;

    open spec fn view(&self) -> PageView {
        PageView { count: self.count as nat, records: self.records.deep_view() }
    }
}

impl DeepView for PageEnvelope {
    type V = PageView;

    open spec fn deep_view(&self) -> PageView {
        self@
    }
}

/// A record of a clan of the roster, with the rank that the report orders
/// it by.
#[derive(Debug, Clone, PartialEq, Eq)]
pub struct RankedResult {
    /// The record as it came.
    pub rating: ClanRating,
    /// The record's rank at the time it was kept.
    pub effective_rank: u32,
}

/// What a `RankedResult` holds.
pub struct RankedResultView {
    pub rating: ClanRatingView,
    pub effective_rank: nat,
}

impl View for RankedResult {
    type V = RankedResultView;

    open spec fn view(&self) -> RankedResultView {
        RankedResultView { rating: self.rating@, effective_rank: self.effective_rank as nat }
    }
}

impl DeepView for RankedResult {
    type V = RankedResultView;

    open spec fn deep_view(&self) -> RankedResultView {
        self@
    }
}

/// What is kept of the record `rating`: the record, ordered by its own rank.
pub open spec fn ranked(rating: ClanRatingView) -> RankedResultView {
    RankedResultView { rating, effective_rank: rating.rank }
}

impl RankedResult {
    /// Keeps `rating`, with its own rank as the rank to order it by.
    pub fn from_rating(rating: ClanRating) -> (kept: RankedResult)
        ensures
            kept@ == ranked(rating@),
    {
        let effective_rank = rating.rank;
        RankedResult { rating, effective_rank }
    }
}

} // verus!
