//! The mathematical model of the store.
use vstd::prelude::*;

verus! {

/// What a store holds: feedback lines and rating entries by widget, and the
/// accounts whose rating has been counted.
pub ghost struct StoreModel {
    pub feedbacks: Map<Seq<char>, Seq<Seq<char>>>,
    pub ratings: Map<Seq<char>, Seq<(u64, u64)>>,
    pub voted: Set<Seq<char>>,
}

/// The line recorded for one submission: `"<account> said <text> "`.
pub open spec fn feedback_entry(account: Seq<char>, text: Seq<char>) -> Seq<char> {
    account + " said "@ + text + " "@
}

/// The sum of `star * count` over a widget's rating entries.
pub open spec fn weighted_star_sum(r: Seq<(u64, u64)>) -> int
    decreases r.len(),
{
    if r.len() == 0 {
        0
    } else {
        weighted_star_sum(r.drop_last()) + r.last().0 * r.last().1
    }
}

/// The sum of the counts over a widget's rating entries.
pub open spec fn count_sum(r: Seq<(u64, u64)>) -> int
    decreases r.len(),
{
    if r.len() == 0 {
        0
    } else {
        count_sum(r.drop_last()) + r.last().1
    }
}

/// Each entry's count is its 1-based position in the sequence.
pub open spec fn counts_are_positions(r: Seq<(u64, u64)>) -> bool {
    forall|j: int| 0 <= j < r.len() ==> #[trigger] r[j].1 == j + 1
}

/// The sum of `star * position` over a widget's rating entries, positions
/// counted from 1.
pub open spec fn position_weighted_sum(r: Seq<(u64, u64)>) -> int
    decreases r.len(),
{
    if r.len() == 0 {
        0
    } else {
        position_weighted_sum(r.drop_last()) + r.last().0 * r.len()
    }
}

/// With counts 1, 2, ..., n the counts add up to `n (n + 1) / 2`.
pub proof fn lemma_count_sum_positions(r: Seq<(u64, u64)>)
    requires
        counts_are_positions(r),
    ensures
        count_sum(r) == r.len() * (r.len() + 1) / 2,
    decreases r.len(),
{
    if r.len() > 0 {
        let p = r.drop_last();
        assert forall|j: int| 0 <= j < p.len() implies #[trigger] p[j].1 == j + 1 by {
            assert(r[j].1 == j + 1);
        }
        lemma_count_sum_positions(p);
        assert(r[r.len() - 1].1 == r.len());
        let n = r.len() as int;
        assert((n - 1) * n / 2 + n == n * (n + 1) / 2) by (nonlinear_arith);
    }
}

impl StoreModel {
    /// The store before any submission.
    pub open spec fn empty() -> StoreModel {
        StoreModel { feedbacks: Map::empty(), ratings: Map::empty(), voted: Set::empty() }
    }

    /// The feedback lines of a widget; empty for a widget never submitted to.
    pub open spec fn feedbacks_for(self, w: Seq<char>) -> Seq<Seq<char>> {
        if self.feedbacks.dom().contains(w) {
            self.feedbacks[w]
        } else {
            Seq::empty()
        }
    }

    /// The rating entries of a widget; empty for a widget never rated.
    pub open spec fn ratings_for(self, w: Seq<char>) -> Seq<(u64, u64)> {
        if self.ratings.dom().contains(w) {
            self.ratings[w]
        } else {
            Seq::empty()
        }
    }

    /// A widget is present only with at least one entry, and rating counts
    /// run 1, 2, 3, ... in each widget.
    pub open spec fn well_formed(self) -> bool {
        &&& forall|w: Seq<char>| #[trigger]
            self.feedbacks.dom().contains(w) ==> self.feedbacks[w].len() > 0
        &&& forall|w: Seq<char>| #[trigger]
            self.ratings.dom().contains(w) ==> self.ratings[w].len() > 0
        &&& forall|w: Seq<char>| #[trigger]
            self.ratings.dom().contains(w) ==> counts_are_positions(self.ratings[w])
    }

    /// The store after one submission: the line is always appended, and a
    /// rating `(star, n + 1)` is appended only for an account not yet counted.
    pub open spec fn after_feedback(
        self,
        feedback: Seq<char>,
        widget_id: Seq<char>,
        account: Seq<char>,
        star: u64,
    ) -> StoreModel {
        let fb = self.feedbacks.insert(
            widget_id,
            self.feedbacks_for(widget_id).push(feedback_entry(account, feedback)),
        );
        if self.voted.contains(account) {
            StoreModel { feedbacks: fb, ..self }
        } else {
            let r = self.ratings_for(widget_id);
            StoreModel {
                feedbacks: fb,
                ratings: self.ratings.insert(widget_id, r.push((star, (r.len() + 1) as u64))),
                voted: self.voted.insert(account),
            }
        }
    }
}

} // verus!
