//! The feedback store and its operations.
use vstd::prelude::*;

use crate::model::{
    StoreModel, count_sum, counts_are_positions, feedback_entry, lemma_count_sum_positions,
    weighted_star_sum,
};

verus! {

/// Whether the key `k` stands at some position of `v`.
pub open spec fn has_key<X>(v: Seq<(String, X)>, k: Seq<char>) -> bool {
    exists|i: int| 0 <= i < v.len() && #[trigger] v[i].0@ == k
}

/// A position of `v` that holds the key `k`.
pub open spec fn key_index<X>(v: Seq<(String, X)>, k: Seq<char>) -> int {
    choose|i: int| 0 <= i < v.len() && #[trigger] v[i].0@ == k
}

/// No key stands at two positions of `v`.
pub open spec fn keys_unique<X>(v: Seq<(String, X)>) -> bool {
    forall|i: int, j: int|
        0 <= i < v.len() && 0 <= j < v.len() && #[trigger] v[i].0@ == #[trigger] v[j].0@ ==> i == j
}

/// Whether some string of `v` has the view `s`.
pub open spec fn has_string(v: Seq<String>, s: Seq<char>) -> bool {
    exists|i: int| 0 <= i < v.len() && #[trigger] v[i]@ == s
}

/// The views of a sequence of strings.
pub open spec fn string_views(v: Seq<String>) -> Seq<Seq<char>> {
    v.map_values(|s: String| s@)
}

/// The feedback store: feedback lines and rating entries keyed by widget,
/// and the accounts whose rating has been counted.
pub struct Contract {
    widget_feedbacks: Vec<(String, Vec<String>)>,
    widget_ratings: Vec<(String, Vec<(u64, u64)>)>,
    voted_accounts: Vec<String>,
}

/// A widget's average rating as an exact fraction `total_stars / total_count`.
pub struct StarAverage {
    pub total_stars: u128,
    pub total_count: u128,
}

/// The store that the plain collections `fb` (feedback lines by widget),
/// `rt` (rating entries by widget) and `va` (counted accounts) describe.
pub open spec fn view_of(
    fb: Seq<(String, Vec<String>)>,
    rt: Seq<(String, Vec<(u64, u64)>)>,
    va: Seq<String>,
) -> StoreModel {
    StoreModel {
        feedbacks: Map::new(
            |k: Seq<char>| has_key(fb, k),
            |k: Seq<char>| string_views(fb[key_index(fb, k)].1@),
        ),
        ratings: Map::new(|k: Seq<char>| has_key(rt, k), |k: Seq<char>| rt[key_index(rt, k)].1@),
        voted: Set::new(|a: Seq<char>| has_string(va, a)),
    }
}

/// Whether plain collections make a valid store: each widget listed once in
/// each, and the model well formed.
pub open spec fn parts_valid(
    fb: Seq<(String, Vec<String>)>,
    rt: Seq<(String, Vec<(u64, u64)>)>,
    va: Seq<String>,
) -> bool {
    &&& keys_unique(fb)
    &&& keys_unique(rt)
    &&& view_of(fb, rt, va).well_formed()
}

impl View for Contract {
    type V = StoreModel;

    closed spec fn view(&self) -> StoreModel {
        view_of(self.widget_feedbacks@, self.widget_ratings@, self.voted_accounts@)
    }
}

/// The position of `key` in `v`, if it is there.
fn find_key<X>(v: &Vec<(String, X)>, key: &String) -> (r: Option<usize>)
    ensures
        r matches Some(i) ==> i < v@.len() && v@[i as int].0@ == key@,
        r is None ==> !has_key(v@, key@),
{
    let mut i: usize = 0;
    while i < v.len()
        invariant
            i <= v@.len(),
            forall|j: int| 0 <= j < i ==> #[trigger] v@[j].0@ != key@,
        decreases v@.len() - i,
    {
        if v[i].0 == *key {
            return Some(i);
        }
        i = i + 1;
    }
    None
}

/// Whether `v` holds a string equal to `s`.
fn contains_string(v: &Vec<String>, s: &String) -> (r: bool)
    ensures
        r == has_string(v@, s@),
{
    let mut i: usize = 0;
    while i < v.len()
        invariant
            i <= v@.len(),
            forall|j: int| 0 <= j < i ==> #[trigger] v@[j]@ != s@,
        decreases v@.len() - i,
    {
        if v[i] == *s {
            return true;
        }
        i = i + 1;
    }
    false
}

/// With unique keys, the position of a key is the one that holds it.
proof fn lemma_key_index<X>(v: Seq<(String, X)>, i: int)
    requires
        keys_unique(v),
        0 <= i < v.len(),
    ensures
        has_key(v, v[i].0@),
        key_index(v, v[i].0@) == i,
{
    assert(has_key(v, v[i].0@));
}

/// Appending an entry under a new key keeps the keys unique and the other
/// positions where they were.
proof fn lemma_push_new_key<X>(v: Seq<(String, X)>, e: (String, X))
    requires
        keys_unique(v),
        !has_key(v, e.0@),
    ensures
        keys_unique(v.push(e)),
        forall|k: Seq<char>| #[trigger] has_key(v.push(e), k) <==> (has_key(v, k) || k == e.0@),
        key_index(v.push(e), e.0@) == v.len(),
        forall|k: Seq<char>|
            has_key(v, k) ==> #[trigger] key_index(v.push(e), k) == key_index(v, k),
{
    let u = v.push(e);
    assert forall|i: int, j: int|
        0 <= i < u.len() && 0 <= j < u.len() && #[trigger] u[i].0@ == #[trigger] u[j].0@ implies i
        == j by {
        if i < v.len() && j == v.len() {
            assert(v[i].0@ == e.0@);
        } else if j < v.len() && i == v.len() {
            assert(v[j].0@ == e.0@);
        } else if i < v.len() && j < v.len() {
            assert(v[i].0@ == v[j].0@);
        }
    }
    assert forall|k: Seq<char>| #[trigger] has_key(u, k) <==> (has_key(v, k) || k == e.0@) by {
        if has_key(u, k) {
            let i = choose|i: int| 0 <= i < u.len() && #[trigger] u[i].0@ == k;
            if i < v.len() {
                assert(v[i].0@ == k);
            }
        }
        if has_key(v, k) {
            let i = choose|i: int| 0 <= i < v.len() && #[trigger] v[i].0@ == k;
            assert(u[i].0@ == k);
        }
        if k == e.0@ {
            assert(u[v.len() as int].0@ == k);
        }
    }
    lemma_key_index(u, v.len() as int);
    assert forall|k: Seq<char>| has_key(v, k) implies #[trigger] key_index(u, k) == key_index(
        v,
        k,
    ) by {
        let i = key_index(v, k);
        assert(u[i].0@ == k);
        lemma_key_index(u, i);
    }
}

/// Replacing the value at one position keeps the keys and their positions.
proof fn lemma_update_value<X>(v: Seq<(String, X)>, i: int, x: X)
    requires
        keys_unique(v),
        0 <= i < v.len(),
    ensures
        keys_unique(v.update(i, (v[i].0, x))),
        forall|k: Seq<char>| #[trigger] has_key(v.update(i, (v[i].0, x)), k) <==> has_key(v, k),
        forall|k: Seq<char>|
            has_key(v, k) ==> #[trigger] key_index(v.update(i, (v[i].0, x)), k) == key_index(v, k),
{
    let u = v.update(i, (v[i].0, x));
    assert forall|a: int, b: int|
        0 <= a < u.len() && 0 <= b < u.len() && #[trigger] u[a].0@ == #[trigger] u[b].0@ implies a
        == b by {
        assert(v[a].0@ == v[b].0@);
    }
    assert forall|k: Seq<char>| #[trigger] has_key(u, k) <==> has_key(v, k) by {
        if has_key(u, k) {
            let a = choose|a: int| 0 <= a < u.len() && #[trigger] u[a].0@ == k;
            assert(v[a].0@ == k);
        }
        if has_key(v, k) {
            let a = choose|a: int| 0 <= a < v.len() && #[trigger] v[a].0@ == k;
            assert(u[a].0@ == k);
        }
    }
    assert forall|k: Seq<char>| has_key(v, k) implies #[trigger] key_index(u, k) == key_index(
        v,
        k,
    ) by {
        let a = key_index(v, k);
        assert(u[a].0@ == k);
        lemma_key_index(u, a);
    }
}

/// The sums over a prefix grow by the next entry.
proof fn lemma_sums_step(r: Seq<(u64, u64)>, j: int)
    requires
        0 <= j < r.len(),
    ensures
        weighted_star_sum(r.take(j + 1)) == weighted_star_sum(r.take(j)) + r[j].0 * r[j].1,
        count_sum(r.take(j + 1)) == count_sum(r.take(j)) + r[j].1,
{
    assert(r.take(j + 1).drop_last() =~= r.take(j));
}

/// The weighted sum of a prefix is at most that of the whole sequence.
proof fn lemma_weighted_prefix_le(r: Seq<(u64, u64)>, j: int)
    requires
        0 <= j <= r.len(),
    ensures
        weighted_star_sum(r.take(j)) <= weighted_star_sum(r),
    decreases r.len(),
{
    if j == r.len() {
        assert(r.take(j) =~= r);
    } else {
        assert(r.drop_last().take(j) =~= r.take(j));
        lemma_weighted_prefix_le(r.drop_last(), j);
        assert(r.last().0 * r.last().1 >= 0) by (nonlinear_arith);
    }
}

/// A product of two `u64` values fits in a `u128`.
proof fn lemma_u64_product_fits(a: u64, b: u64)
    ensures
        0 <= a * b <= u128::MAX,
{
    assert(a * b <= (u64::MAX as int) * (u64::MAX as int)) by (nonlinear_arith)
        requires
            a <= u64::MAX,
            b <= u64::MAX,
    ;
    assert(0 <= a * b) by (nonlinear_arith);
}

/// Whether no key stands twice in `v`.
fn check_keys_unique<X>(v: &Vec<(String, X)>) -> (r: bool)
    ensures
        r == keys_unique(v@),
{
    let mut i: usize = 0;
    while i < v.len()
        invariant
            i <= v@.len(),
            forall|a: int, b: int|
                0 <= a < i && 0 <= b < i && #[trigger] v@[a].0@ == #[trigger] v@[b].0@ ==> a == b,
        decreases v@.len() - i,
    {
        let mut j: usize = 0;
        while j < i
            invariant
                i < v@.len(),
                j <= i,
                forall|b: int| 0 <= b < j ==> #[trigger] v@[b].0@ != v@[i as int].0@,
            decreases i - j,
        {
            if v[j].0 == v[i].0 {
                assert(v@[j as int].0@ == v@[i as int].0@);
                return false;
            }
            j = j + 1;
        }
        i = i + 1;
    }
    true
}

/// Whether every widget of `fb` has at least one feedback line.
fn check_feedbacks_nonempty(fb: &Vec<(String, Vec<String>)>) -> (r: bool)
    ensures
        r == forall|i: int| 0 <= i < fb@.len() ==> (#[trigger] fb@[i]).1@.len() > 0,
{
    let mut i: usize = 0;
    while i < fb.len()
        invariant
            i <= fb@.len(),
            forall|k: int| 0 <= k < i ==> (#[trigger] fb@[k]).1@.len() > 0,
        decreases fb@.len() - i,
    {
        if fb[i].1.len() == 0 {
            return false;
        }
        i = i + 1;
    }
    true
}

/// Whether every widget of `rt` has at least one rating entry, with counts
/// 1, 2, 3, ...
fn check_ratings_positions(rt: &Vec<(String, Vec<(u64, u64)>)>) -> (r: bool)
    ensures
        r == forall|i: int|
            0 <= i < rt@.len() ==> (#[trigger] rt@[i]).1@.len() > 0 && counts_are_positions(
                rt@[i].1@,
            ),
{
    let mut i: usize = 0;
    while i < rt.len()
        invariant
            i <= rt@.len(),
            forall|k: int|
                0 <= k < i ==> (#[trigger] rt@[k]).1@.len() > 0 && counts_are_positions(
                    rt@[k].1@,
                ),
        decreases rt@.len() - i,
    {
        let entries = &rt[i].1;
        if entries.len() == 0 {
            return false;
        }
        let mut j: usize = 0;
        while j < entries.len()
            invariant
                i < rt@.len(),
                entries@ == rt@[i as int].1@,
                entries@.len() > 0,
                forall|k: int|
                    0 <= k < i ==> (#[trigger] rt@[k]).1@.len() > 0 && counts_are_positions(
                        rt@[k].1@,
                    ),
                j <= entries@.len(),
                forall|m: int| 0 <= m < j ==> #[trigger] entries@[m].1 == m + 1,
            decreases entries@.len() - j,
        {
            if entries[j].1 as u128 != j as u128 + 1 {
                assert(!counts_are_positions(rt@[i as int].1@));
                return false;
            }
            j = j + 1;
        }
        i = i + 1;
    }
    true
}

impl Default for Contract {
    /// The store before any submission.
    fn default() -> (r: Contract)
        ensures
            r.wf(),
            r@ == StoreModel::empty(),
    {
        let r = Contract {
            widget_feedbacks: Vec::new(),
            widget_ratings: Vec::new(),
            voted_accounts: Vec::new(),
        };
        assert(r@.feedbacks =~= Map::empty());
        assert(r@.ratings =~= Map::empty());
        assert(r@.voted =~= Set::empty());
        r
    }
}

impl Contract {
    /// The invariant of the store's representation.
    pub closed spec fn wf(&self) -> bool {
        parts_valid(self.widget_feedbacks@, self.widget_ratings@, self.voted_accounts@)
    }

    /// A store made of plain collections: `widget_feedbacks` holds each
    /// widget's feedback lines, `widget_ratings` each widget's rating entries
    /// and `voted_accounts` the accounts whose rating has been counted. `None`
    /// if a widget is listed twice, has no entry, or its rating counts do not
    /// run 1, 2, 3, ...
    pub fn from_parts(
        widget_feedbacks: Vec<(String, Vec<String>)>,
        widget_ratings: Vec<(String, Vec<(u64, u64)>)>,
        voted_accounts: Vec<String>,
    ) -> (r: Option<Contract>)
        ensures
            r is Some <==> parts_valid(widget_feedbacks@, widget_ratings@, voted_accounts@),
            r matches Some(c) ==> c.wf() && c@ == view_of(
                widget_feedbacks@,
                widget_ratings@,
                voted_accounts@,
            ),
    {
        let ghost fb = widget_feedbacks@;
        let ghost rt = widget_ratings@;
        let ghost v = view_of(fb, rt, voted_accounts@);
        if !check_keys_unique(&widget_feedbacks) || !check_keys_unique(&widget_ratings) {
            return None;
        }
        let fb_ok = check_feedbacks_nonempty(&widget_feedbacks);
        let rt_ok = check_ratings_positions(&widget_ratings);
        proof {
            if fb_ok {
                assert forall|w: Seq<char>| #[trigger]
                    v.feedbacks.dom().contains(w) implies v.feedbacks[w].len() > 0 by {
                    let i = key_index(fb, w);
                    assert(fb[i].1@.len() > 0);
                }
            } else {
                let i = choose|i: int| 0 <= i < fb.len() && !((#[trigger] fb[i]).1@.len() > 0);
                lemma_key_index(fb, i);
                assert(v.feedbacks.dom().contains(fb[i].0@));
                assert(!(v.feedbacks[fb[i].0@].len() > 0));
                assert(!v.well_formed());
            }
            if rt_ok {
                assert forall|w: Seq<char>| #[trigger] v.ratings.dom().contains(w) implies v.ratings[w].len()
                    > 0 && counts_are_positions(v.ratings[w]) by {
                    let i = key_index(rt, w);
                    assert(rt[i].1@.len() > 0 && counts_are_positions(rt[i].1@));
                }
            } else {
                let i = choose|i: int|
                    0 <= i < rt.len() && !((#[trigger] rt[i]).1@.len() > 0 && counts_are_positions(
                        rt[i].1@,
                    ));
                lemma_key_index(rt, i);
                assert(v.ratings.dom().contains(rt[i].0@));
                assert(!v.well_formed()) by {
                    assert(!(v.ratings[rt[i].0@].len() > 0 && counts_are_positions(
                        v.ratings[rt[i].0@],
                    )));
                }
                assert(!(v.ratings[rt[i].0@].len() > 0 && counts_are_positions(
                    v.ratings[rt[i].0@],
                )));
            }
        }
        if fb_ok && rt_ok {
            Some(Contract { widget_feedbacks, widget_ratings, voted_accounts })
        } else {
            None
        }
    }

    /// The plain collections that make up the store, as `from_parts` takes
    /// them.
    pub fn into_parts(self) -> (r: (
        Vec<(String, Vec<String>)>,
        Vec<(String, Vec<(u64, u64)>)>,
        Vec<String>,
    ))
        requires
            self.wf(),
        ensures
            parts_valid(r.0@, r.1@, r.2@),
            view_of(r.0@, r.1@, r.2@) == self@,
    {
        (self.widget_feedbacks, self.widget_ratings, self.voted_accounts)
    }

    /// The model of a well-formed store is well formed.
    pub proof fn lemma_view_well_formed(&self)
        requires
            self.wf(),
        ensures
            self@.well_formed(),
    {
    }

    /// Records one submission: the line `"<account> said <feedback> "` is
    /// appended to the widget's feedback, and if the account has never had a
    /// rating counted, `(star, n + 1)` is appended to the widget's `n` rating
    /// entries and the account is marked as counted. The link is not kept.
    pub fn add_feedback(
        &mut self,
        feedback: String,
        widget_id: String,
        _widget_link: String,
        account_id_givefeedback: String,
        star: u64,
    )
        requires
            old(self).wf(),
            !old(self)@.voted.contains(account_id_givefeedback@) ==> old(self)@.ratings_for(
                widget_id@,
            ).len() < u64::MAX,
        ensures
            final(self).wf(),
            final(self)@ == old(self)@.after_feedback(
                feedback@,
                widget_id@,
                account_id_givefeedback@,
                star,
            ),
    {
        let ghost pre = self@;
        let mut entry = account_id_givefeedback.clone();
        entry.append(" said ");
        entry.append(feedback.as_str());
        entry.append(" ");
        assert(entry@ == feedback_entry(account_id_givefeedback@, feedback@));

        let ghost fb0 = self.widget_feedbacks@;
        match find_key(&self.widget_feedbacks, &widget_id) {
            Some(i) => {
                proof {
                    lemma_key_index(fb0, i as int);
                }
                self.widget_feedbacks[i].1.push(entry);
                proof {
                    let fb1 = self.widget_feedbacks@;
                    assert(fb1 == fb0.update(i as int, (fb0[i as int].0, fb1[i as int].1)));
                    lemma_update_value(fb0, i as int, fb1[i as int].1);
                    lemma_key_index(fb1, i as int);
                    assert(string_views(fb1[i as int].1@) =~= string_views(
                        fb0[i as int].1@,
                    ).push(entry@));
                }
            },
            None => {
                let fresh = vec![entry];
                proof {
                    assert(string_views(fresh@) =~= seq![entry@]);
                }
                self.widget_feedbacks.push((widget_id.clone(), fresh));
                proof {
                    lemma_push_new_key(fb0, (widget_id, fresh));
                }
            },
        }
        assert(self@.feedbacks =~= pre.feedbacks.insert(
            widget_id@,
            pre.feedbacks_for(widget_id@).push(entry@),
        ));

        if !contains_string(&self.voted_accounts, &account_id_givefeedback) {
            let ghost rt0 = self.widget_ratings@;
            match find_key(&self.widget_ratings, &widget_id) {
                Some(i) => {
                    proof {
                        lemma_key_index(rt0, i as int);
                    }
                    let count_star = self.widget_ratings[i].1.len() as u64 + 1;
                    self.widget_ratings[i].1.push((star, count_star));
                    proof {
                        let rt1 = self.widget_ratings@;
                        assert(rt1 == rt0.update(i as int, (rt0[i as int].0, rt1[i as int].1)));
                        lemma_update_value(rt0, i as int, rt1[i as int].1);
                        lemma_key_index(rt1, i as int);
                        assert(rt1[i as int].1@ =~= rt0[i as int].1@.push((star, count_star)));
                        assert(pre.ratings_for(widget_id@) == rt0[i as int].1@);
                    }
                },
                None => {
                    let fresh = vec![(star, 1u64)];
                    self.widget_ratings.push((widget_id.clone(), fresh));
                    proof {
                        lemma_push_new_key(rt0, (widget_id, fresh));
                        assert(fresh@ =~= Seq::<(u64, u64)>::empty().push((star, 1u64)));
                    }
                },
            }
            let ghost va0 = self.voted_accounts@;
            self.voted_accounts.push(account_id_givefeedback.clone());
            proof {
                let va1 = self.voted_accounts@;
                assert forall|a: Seq<char>| has_string(va1, a) <==> (has_string(va0, a)
                    || a == account_id_givefeedback@) by {
                    if has_string(va1, a) {
                        let j = choose|j: int| 0 <= j < va1.len() && #[trigger] va1[j]@ == a;
                        if j < va0.len() {
                            assert(va0[j]@ == a);
                        }
                    }
                    if has_string(va0, a) {
                        let j = choose|j: int| 0 <= j < va0.len() && #[trigger] va0[j]@ == a;
                        assert(va1[j]@ == a);
                    }
                    if a == account_id_givefeedback@ {
                        assert(va1[va0.len() as int]@ == a);
                    }
                }
            }
            assert(self@.ratings =~= pre.ratings.insert(
                widget_id@,
                pre.ratings_for(widget_id@).push(
                    (star, (pre.ratings_for(widget_id@).len() + 1) as u64),
                ),
            ));
            assert(self@.voted =~= pre.voted.insert(account_id_givefeedback@));
        } else {
            assert(self@.ratings =~= pre.ratings);
            assert(self@.voted =~= pre.voted);
        }
        assert(self@ == pre.after_feedback(
            feedback@,
            widget_id@,
            account_id_givefeedback@,
            star,
        ));
    }

    /// Whether the weighted star sum of `widget_id` fits in a `u128`, which
    /// `get_star` needs.
    pub fn star_sum_fits(&self, widget_id: &String) -> (r: bool)
        requires
            self.wf(),
        ensures
            r == (weighted_star_sum(self@.ratings_for(widget_id@)) <= u128::MAX),
    {
        match find_key(&self.widget_ratings, widget_id) {
            None => true,
            Some(i) => {
                let entries = &self.widget_ratings[i].1;
                proof {
                    lemma_key_index(self.widget_ratings@, i as int);
                }
                let ghost r = entries@;
                assert(r == self@.ratings_for(widget_id@));
                let mut total: u128 = 0;
                let mut j: usize = 0;
                while j < entries.len()
                    invariant
                        r == entries@,
                        r == self@.ratings_for(widget_id@),
                        j <= r.len(),
                        total == weighted_star_sum(r.take(j as int)),
                    decreases r.len() - j,
                {
                    proof {
                        lemma_sums_step(r, j as int);
                        lemma_u64_product_fits(r[j as int].0, r[j as int].1);
                    }
                    let term = (entries[j].0 as u128) * (entries[j].1 as u128);
                    match total.checked_add(term) {
                        Some(t) => total = t,
                        None => {
                            proof {
                                lemma_weighted_prefix_le(r, j + 1);
                            }
                            return false;
                        },
                    }
                    j = j + 1;
                }
                assert(r.take(r.len() as int) =~= r);
                true
            },
        }
    }

    /// The average rating of `widget_id` as the exact fraction
    /// `sum(star * count) / sum(count)` over its rating entries, paired with
    /// the widget id, or `None` if the widget was never rated.
    pub fn get_star(&self, widget_id: String) -> (r: Option<(String, StarAverage)>)
        requires
            self.wf(),
            weighted_star_sum(self@.ratings_for(widget_id@)) <= u128::MAX,
        ensures
            r is None <==> !self@.ratings.dom().contains(widget_id@),
            r matches Some((w, avg)) ==> {
                &&& w@ == widget_id@
                &&& avg.total_stars == weighted_star_sum(self@.ratings[widget_id@])
                &&& avg.total_count == count_sum(self@.ratings[widget_id@])
            },
    {
        match find_key(&self.widget_ratings, &widget_id) {
            None => None,
            Some(i) => {
                let entries = &self.widget_ratings[i].1;
                proof {
                    lemma_key_index(self.widget_ratings@, i as int);
                }
                let ghost r = entries@;
                assert(r == self@.ratings[widget_id@]);
                assert(counts_are_positions(r));
                proof {
                    if r.len() > 0 {
                        assert(r[r.len() - 1].1 == r.len());
                    }
                }
                let mut total_stars: u128 = 0;
                let mut total_count: u128 = 0;
                let mut j: usize = 0;
                while j < entries.len()
                    invariant
                        r == entries@,
                        counts_are_positions(r),
                        r.len() <= u64::MAX,
                        weighted_star_sum(r) <= u128::MAX,
                        j <= r.len(),
                        total_stars == weighted_star_sum(r.take(j as int)),
                        total_count == count_sum(r.take(j as int)),
                    decreases r.len() - j,
                {
                    proof {
                        lemma_sums_step(r, j as int);
                        lemma_u64_product_fits(r[j as int].0, r[j as int].1);
                        lemma_weighted_prefix_le(r, j + 1);
                        assert(weighted_star_sum(r.take(j as int)) >= 0) by {
                            lemma_weighted_prefix_le(r.take(j as int), 0);
                            assert(r.take(j as int).take(0) =~= Seq::<(u64, u64)>::empty());
                        }
                        let p = r.take(j + 1);
                        assert forall|k: int| 0 <= k < p.len() implies #[trigger] p[k].1 == k
                            + 1 by {
                            assert(r[k].1 == k + 1);
                        }
                        lemma_count_sum_positions(p);
                        let n = j + 1;
                        assert(0 <= n * (n + 1) <= u128::MAX) by (nonlinear_arith)
                            requires
                                0 <= n <= u64::MAX,
                        ;
                    }
                    total_stars = total_stars + (entries[j].0 as u128) * (entries[j].1 as u128);
                    total_count = total_count + entries[j].1 as u128;
                    j = j + 1;
                }
                assert(r.take(r.len() as int) =~= r);
                Some((widget_id, StarAverage { total_stars, total_count }))
            },
        }
    }

    /// The feedback lines recorded for `widget_id`, in order of submission,
    /// or `None` if nothing was ever submitted to it.
    pub fn get_feedbacks(&self, widget_id: String) -> (r: Option<Vec<String>>)
        requires
            self.wf(),
        ensures
            r is None <==> !self@.feedbacks.dom().contains(widget_id@),
            r matches Some(v) ==> string_views(v@) == self@.feedbacks[widget_id@],
    {
        match find_key(&self.widget_feedbacks, &widget_id) {
            None => None,
            Some(i) => {
                let entries = &self.widget_feedbacks[i].1;
                let mut out: Vec<String> = Vec::new();
                let mut j: usize = 0;
                while j < entries.len()
                    invariant
                        j <= entries@.len(),
                        out@.len() == j,
                        forall|k: int| 0 <= k < j ==> #[trigger] out@[k]@ == entries@[k]@,
                    decreases entries@.len() - j,
                {
                    out.push(entries[j].clone());
                    j = j + 1;
                }
                proof {
                    let fb = self.widget_feedbacks@;
                    assert(has_key(fb, widget_id@));
                    assert(i as int == key_index(fb, widget_id@));
                    assert(string_views(out@) =~= string_views(entries@));
                }
                Some(out)
            }
        }
    }
}

} // verus!
