//! Properties of the store that relate several submissions.
use vstd::prelude::*;

use crate::model::{
    StoreModel, count_sum, counts_are_positions, feedback_entry, lemma_count_sum_positions,
    position_weighted_sum, weighted_star_sum,
};

verus! {

/// One call of `add_feedback`, as the model sees it.
pub ghost struct Submission {
    pub feedback: Seq<char>,
    pub widget_id: Seq<char>,
    pub account: Seq<char>,
    pub star: u64,
}

/// The store after the given submissions, made in order on an empty store.
pub open spec fn replay(subs: Seq<Submission>) -> StoreModel
    decreases subs.len(),
{
    if subs.len() == 0 {
        StoreModel::empty()
    } else {
        let l = subs.last();
        replay(subs.drop_last()).after_feedback(l.feedback, l.widget_id, l.account, l.star)
    }
}

/// Whether some submission among `subs` comes from `account`.
pub open spec fn submitted_by(subs: Seq<Submission>, account: Seq<char>) -> bool {
    exists|j: int| 0 <= j < subs.len() && #[trigger] subs[j].account == account
}

proof fn lemma_replay_step(subs: Seq<Submission>, i: int)
    requires
        0 <= i < subs.len(),
    ensures
        replay(subs.take(i + 1)) == replay(subs.take(i)).after_feedback(
            subs[i].feedback,
            subs[i].widget_id,
            subs[i].account,
            subs[i].star,
        ),
{
    assert(subs.take(i + 1).drop_last() =~= subs.take(i));
}

/// A widget that no submission named has neither feedback nor ratings.
pub proof fn lemma_untouched_widget_absent(subs: Seq<Submission>, w: Seq<char>)
    requires
        forall|j: int| 0 <= j < subs.len() ==> #[trigger] subs[j].widget_id != w,
    ensures
        !replay(subs).feedbacks.dom().contains(w),
        !replay(subs).ratings.dom().contains(w),
    decreases subs.len(),
{
    if subs.len() > 0 {
        let p = subs.drop_last();
        assert forall|j: int| 0 <= j < p.len() implies #[trigger] p[j].widget_id != w by {
            assert(subs[j].widget_id != w);
        }
        lemma_untouched_widget_absent(p, w);
        assert(subs[subs.len() - 1].widget_id != w);
    }
}

/// A submission always ends its widget's feedback with its own line, whether
/// or not the account had voted before.
pub proof fn lemma_feedback_recorded(
    s: StoreModel,
    feedback: Seq<char>,
    w: Seq<char>,
    account: Seq<char>,
    star: u64,
)
    ensures
        s.after_feedback(feedback, w, account, star).feedbacks.dom().contains(w),
        s.after_feedback(feedback, w, account, star).feedbacks[w] == s.feedbacks_for(w).push(
            feedback_entry(account, feedback),
        ),
        s.after_feedback(feedback, w, account, star).feedbacks[w].last() == feedback_entry(
            account,
            feedback,
        ),
{
}

/// The accounts counted after some submissions are exactly those that
/// submitted.
pub proof fn lemma_voted_are_submitters(subs: Seq<Submission>)
    ensures
        forall|a: Seq<char>| #[trigger] replay(subs).voted.contains(a) <==> submitted_by(subs, a),
    decreases subs.len(),
{
    if subs.len() > 0 {
        let p = subs.drop_last();
        lemma_voted_are_submitters(p);
        assert(replay(subs).voted =~= replay(p).voted.insert(subs.last().account));
        assert forall|a: Seq<char>| #[trigger] replay(subs).voted.contains(a) <==> submitted_by(
            subs,
            a,
        ) by {
            if submitted_by(subs, a) {
                let j = choose|j: int| 0 <= j < subs.len() && #[trigger] subs[j].account == a;
                if j < p.len() {
                    assert(p[j].account == a);
                }
            }
            if submitted_by(p, a) {
                let j = choose|j: int| 0 <= j < p.len() && #[trigger] p[j].account == a;
                assert(subs[j].account == a);
            }
            if a == subs.last().account {
                assert(subs[subs.len() - 1].account == a);
            }
        }
    }
}

/// Only an account's first submission, on whichever widget, adds a rating
/// entry; each later one leaves the ratings and the counted accounts as they
/// were.
pub proof fn lemma_only_first_vote_counts(subs: Seq<Submission>, i: int)
    requires
        0 <= i < subs.len(),
    ensures
        ({
            let before = replay(subs.take(i));
            let after = replay(subs.take(i + 1));
            let w = subs[i].widget_id;
            &&& submitted_by(subs.take(i), subs[i].account) ==> after.ratings == before.ratings
                && after.voted == before.voted
            &&& !submitted_by(subs.take(i), subs[i].account) ==> after.ratings
                == before.ratings.insert(
                w,
                before.ratings_for(w).push(
                    (subs[i].star, (before.ratings_for(w).len() + 1) as u64),
                ),
            )
        }),
{
    lemma_replay_step(subs, i);
    lemma_voted_are_submitters(subs.take(i));
}

/// The same account submitting twice on one widget adds two feedback lines
/// and no second rating entry.
pub proof fn lemma_repeat_submission(
    s: StoreModel,
    w: Seq<char>,
    account: Seq<char>,
    feedback1: Seq<char>,
    star1: u64,
    feedback2: Seq<char>,
    star2: u64,
)
    ensures
        ({
            let s1 = s.after_feedback(feedback1, w, account, star1);
            let s2 = s1.after_feedback(feedback2, w, account, star2);
            &&& s2.feedbacks[w] == s.feedbacks_for(w).push(feedback_entry(account, feedback1)).push(
                feedback_entry(account, feedback2),
            )
            &&& s2.ratings == s1.ratings
            &&& s2.voted == s1.voted
            &&& s2.ratings_for(w).len() <= s.ratings_for(w).len() + 1
        }),
{
}

/// In a well-formed store a widget's rating entries carry the counts
/// 1, 2, ..., n, so its average is `sum(s_i * i) / sum(i)` with
/// `sum(i) = n (n + 1) / 2`: later ratings weigh more.
pub proof fn lemma_average_weights_by_position(s: StoreModel, w: Seq<char>)
    requires
        s.well_formed(),
        s.ratings.dom().contains(w),
    ensures
        weighted_star_sum(s.ratings[w]) == position_weighted_sum(s.ratings[w]),
        count_sum(s.ratings[w]) == s.ratings[w].len() * (s.ratings[w].len() + 1) / 2,
{
    lemma_weighted_is_positional(s.ratings[w]);
    lemma_count_sum_positions(s.ratings[w]);
}

proof fn lemma_weighted_is_positional(r: Seq<(u64, u64)>)
    requires
        counts_are_positions(r),
    ensures
        weighted_star_sum(r) == position_weighted_sum(r),
    decreases r.len(),
{
    if r.len() > 0 {
        let p = r.drop_last();
        assert forall|j: int| 0 <= j < p.len() implies #[trigger] p[j].1 == j + 1 by {
            assert(r[j].1 == j + 1);
        }
        lemma_weighted_is_positional(p);
        assert(r[r.len() - 1].1 == r.len());
    }
}

} // verus!
