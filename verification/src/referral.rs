//! The referral and tier engine: caller-owned tags that earn a share of the
//! protocol fee, volume-based tiers, and the accrual/claim bookkeeping.
use vstd::prelude::*;

use crate::access::AccessControl;
use crate::config::ConfigModule;
use crate::math::{mul_div, pct_of};
use crate::types::{bytes_eq, clone_bytes, Error, Payment, PaymentV, MAX_FEE_PERCENTAGE};

verus! {

/// One tier: a name, the cumulative volume that unlocks it, and the fee
/// share it grants.
#[derive(Debug)]
pub struct TierDetails {
    pub name: Vec<u8>,
    pub min_volume: u128,
    pub fee_percent: u64,
}

/// The mathematical value of a [`TierDetails`].
pub struct TierDetailsV {
    pub name: Seq<u8>,
    pub min_volume: u128,
    pub fee_percent: u64,
}

impl View for TierDetails {
    type V = TierDetailsV;

    open spec fn view(&self) -> TierDetailsV {
        TierDetailsV { name: self.name@, min_volume: self.min_volume, fee_percent: self.fee_percent }
    }
}

/// Everything recorded under one referral tag. The fee share is `None` until
/// the tag is registered; volume can accrue even before that.
#[derive(Debug)]
pub struct TagRecord {
    pub tag: Vec<u8>,
    pub fee_percent: Option<u64>,
    pub accumulated_volume: u128,
    pub collected_fees: u128,
}

/// The mathematical value of a [`TagRecord`].
pub struct TagRecordV {
    pub tag: Seq<u8>,
    pub fee_percent: Option<u64>,
    pub accumulated_volume: u128,
    pub collected_fees: u128,
}

impl View for TagRecord {
    type V = TagRecordV;

    open spec fn view(&self) -> TagRecordV {
        TagRecordV {
            tag: self.tag@,
            fee_percent: self.fee_percent,
            accumulated_volume: self.accumulated_volume,
            collected_fees: self.collected_fees,
        }
    }
}

/// The one-to-one binding of a registering address to its tag.
#[derive(Debug)]
pub struct UserTag {
    pub user: u64,
    pub tag: Vec<u8>,
}

/// The mathematical value of a [`UserTag`].
pub struct UserTagV {
    pub user: u64,
    pub tag: Seq<u8>,
}

impl View for UserTag {
    type V = UserTagV;

    open spec fn view(&self) -> UserTagV {
        UserTagV { user: self.user, tag: self.tag@ }
    }
}

/// The values of a sequence of tag records.
pub open spec fn tag_views(s: Seq<TagRecord>) -> Seq<TagRecordV> {
    s.map_values(|r: TagRecord| r@)
}

/// The values of a sequence of user bindings.
pub open spec fn user_views(s: Seq<UserTag>) -> Seq<UserTagV> {
    s.map_values(|r: UserTag| r@)
}

/// The values of a sequence of tiers.
pub open spec fn tier_views(s: Seq<TierDetails>) -> Seq<TierDetailsV> {
    s.map_values(|r: TierDetails| r@)
}

/// Index of the first record for `t`, or `-1` if there is none.
pub open spec fn tag_index(s: Seq<TagRecordV>, t: Seq<u8>) -> int
    decreases s.len(),
{
    if s.len() == 0 {
        -1
    } else if s[0].tag == t {
        0
    } else {
        let r = tag_index(s.drop_first(), t);
        if r == -1 {
            -1
        } else {
            r + 1
        }
    }
}

/// The record for `t`, if one exists.
pub open spec fn tag_record(s: Seq<TagRecordV>, t: Seq<u8>) -> Option<TagRecordV> {
    if tag_index(s, t) >= 0 {
        Some(s[tag_index(s, t)])
    } else {
        None
    }
}

/// Whether `t` has a registered record (one carrying a fee share) in a
/// record list.
pub open spec fn registered_in(s: Seq<TagRecordV>, t: Seq<u8>) -> bool {
    match tag_record(s, t) {
        Some(r) => r.fee_percent is Some,
        None => false,
    }
}

/// The summed unclaimed fees over a record list.
pub open spec fn sum_fees(s: Seq<TagRecordV>) -> int
    decreases s.len(),
{
    if s.len() == 0 {
        0
    } else {
        sum_fees(s.drop_last()) + s.last().collected_fees
    }
}

/// Unclaimed fees never sum to less than nothing.
pub proof fn lemma_sum_fees_nonneg(s: Seq<TagRecordV>)
    ensures
        sum_fees(s) >= 0,
    decreases s.len(),
{
    if s.len() > 0 {
        lemma_sum_fees_nonneg(s.drop_last());
    }
}

/// Replacing one record shifts the sum by the difference of its fees.
pub proof fn lemma_sum_fees_update(s: Seq<TagRecordV>, i: int, e: TagRecordV)
    requires
        0 <= i < s.len(),
    ensures
        sum_fees(s.update(i, e)) == sum_fees(s) - s[i].collected_fees + e.collected_fees,
    decreases s.len(),
{
    if i == s.len() - 1 {
        assert(s.update(i, e).drop_last() =~= s.drop_last());
        assert(s.update(i, e).last() == e);
    } else {
        assert(s.update(i, e).drop_last() =~= s.drop_last().update(i, e));
        assert(s.update(i, e).last() == s.last());
        lemma_sum_fees_update(s.drop_last(), i, e);
    }
}

/// Appending a record adds its fees to the sum.
pub proof fn lemma_sum_fees_push(s: Seq<TagRecordV>, e: TagRecordV)
    ensures
        sum_fees(s.push(e)) == sum_fees(s) + e.collected_fees,
{
    assert(s.push(e).drop_last() =~= s);
    assert(s.push(e).last() == e);
}

/// Removing a record subtracts its fees from the sum.
pub proof fn lemma_sum_fees_remove(s: Seq<TagRecordV>, i: int)
    requires
        0 <= i < s.len(),
    ensures
        sum_fees(s.remove(i)) == sum_fees(s) - s[i].collected_fees,
    decreases s.len(),
{
    if i == s.len() - 1 {
        assert(s.remove(i) =~= s.drop_last());
    } else {
        assert(s.remove(i).drop_last() =~= s.drop_last().remove(i));
        assert(s.remove(i).last() == s.last());
        lemma_sum_fees_remove(s.drop_last(), i);
    }
}

/// `tag_index` finds the first record for `t`, and `-1` means there is none.
pub proof fn lemma_tag_index(s: Seq<TagRecordV>, t: Seq<u8>)
    ensures
        -1 <= tag_index(s, t) < s.len(),
        tag_index(s, t) >= 0 ==> s[tag_index(s, t)].tag == t,
        forall|j: int| 0 <= j < tag_index(s, t) ==> s[j].tag != t,
        tag_index(s, t) == -1 ==> forall|j: int| 0 <= j < s.len() ==> s[j].tag != t,
    decreases s.len(),
{
    if s.len() > 0 {
        let rest = s.drop_first();
        lemma_tag_index(rest, t);
        assert(forall|j: int| 0 <= j < rest.len() ==> rest[j] == s[j + 1]);
        if s[0].tag != t {
            assert forall|j: int| 1 <= j < s.len() && (j < tag_index(s, t) || tag_index(s, t)
                == -1) implies s[j].tag != t by {
                assert(s[j] == rest[j - 1]);
            }
        }
    }
}

/// Two record lists with pointwise-equal tags are searched identically.
pub proof fn lemma_tag_index_same_tags(a: Seq<TagRecordV>, b: Seq<TagRecordV>, t: Seq<u8>)
    requires
        a.len() == b.len(),
        forall|i: int| 0 <= i < a.len() ==> a[i].tag == b[i].tag,
    ensures
        tag_index(a, t) == tag_index(b, t),
    decreases a.len(),
{
    if a.len() > 0 {
        assert forall|i: int| 0 <= i < a.drop_first().len() implies a.drop_first()[i].tag
            == b.drop_first()[i].tag by {
            assert(a.drop_first()[i] == a[i + 1]);
            assert(b.drop_first()[i] == b[i + 1]);
        }
        lemma_tag_index_same_tags(a.drop_first(), b.drop_first(), t);
    }
}

/// Searching after a push: an existing record still wins; otherwise only the
/// pushed tag is found, at the end.
pub proof fn lemma_tag_index_push(s: Seq<TagRecordV>, e: TagRecordV)
    ensures
        forall|t: Seq<u8>|
            #[trigger] tag_index(s.push(e), t) == (if tag_index(s, t) >= 0 {
                tag_index(s, t)
            } else if t == e.tag {
                s.len() as int
            } else {
                -1int
            }),
    decreases s.len(),
{
    let p = s.push(e);
    if s.len() == 0 {
        assert forall|t: Seq<u8>|
            #[trigger] tag_index(p, t) == (if tag_index(s, t) >= 0 {
                tag_index(s, t)
            } else if t == e.tag {
                s.len() as int
            } else {
                -1int
            }) by {
            assert(p[0] == e);
            assert(p.drop_first() =~= Seq::<TagRecordV>::empty());
            assert(tag_index(p.drop_first(), t) == -1);
            assert(tag_index(s, t) == -1);
        }
    } else {
        lemma_tag_index_push(s.drop_first(), e);
        assert forall|t: Seq<u8>|
            #[trigger] tag_index(p, t) == (if tag_index(s, t) >= 0 {
                tag_index(s, t)
            } else if t == e.tag {
                s.len() as int
            } else {
                -1int
            }) by {
            assert(p.drop_first() =~= s.drop_first().push(e));
            assert(p[0] == s[0]);
            assert(tag_index(s.drop_first().push(e), t) == (if tag_index(s.drop_first(), t) >= 0 {
                tag_index(s.drop_first(), t)
            } else if t == e.tag {
                s.drop_first().len() as int
            } else {
                -1int
            }));
        }
    }
}

/// No tag appears twice.
pub open spec fn unique_tags(s: Seq<TagRecordV>) -> bool {
    forall|i: int, j: int| 0 <= i < j < s.len() ==> s[i].tag != s[j].tag
}

/// Removing a record leaves every other tag's record as it was.
pub proof fn lemma_tag_record_remove(s: Seq<TagRecordV>, i: int, t: Seq<u8>)
    requires
        unique_tags(s),
        0 <= i < s.len(),
        t != s[i].tag,
    ensures
        tag_record(s.remove(i), t) == tag_record(s, t),
{
    let r = s.remove(i);
    lemma_tag_index(s, t);
    lemma_tag_index(r, t);
    let i1 = tag_index(s, t);
    let i2 = tag_index(r, t);
    if i1 >= 0 {
        let j = if i1 < i {
            i1
        } else {
            i1 - 1
        };
        assert(r[j] == s[i1]);
        assert(i2 >= 0);
        let k = if i2 < i {
            i2
        } else {
            i2 + 1
        };
        assert(r[i2] == s[k]);
        assert(k == i1);
    } else {
        if i2 >= 0 {
            let k = if i2 < i {
                i2
            } else {
                i2 + 1
            };
            assert(r[i2] == s[k]);
            assert(false);
        }
    }
}

/// Removing a record keeps tags unique.
pub proof fn lemma_unique_tags_remove(s: Seq<TagRecordV>, i: int)
    requires
        unique_tags(s),
        0 <= i < s.len(),
    ensures
        unique_tags(s.remove(i)),
{
    assert forall|a: int, b: int| 0 <= a < b < s.remove(i).len() implies s.remove(i)[a].tag
        != s.remove(i)[b].tag by {
        let a0 = if a < i {
            a
        } else {
            a + 1
        };
        let b0 = if b < i {
            b
        } else {
            b + 1
        };
        assert(s.remove(i)[a] == s[a0]);
        assert(s.remove(i)[b] == s[b0]);
    }
}

/// Index of the binding of `user`, or `-1` if there is none.
pub open spec fn user_index(s: Seq<UserTagV>, user: u64) -> int
    decreases s.len(),
{
    if s.len() == 0 {
        -1
    } else if s[0].user == user {
        0
    } else {
        let r = user_index(s.drop_first(), user);
        if r == -1 {
            -1
        } else {
            r + 1
        }
    }
}

/// The tag bound to `user`, if any.
pub open spec fn user_tag_of(s: Seq<UserTagV>, user: u64) -> Option<Seq<u8>> {
    if user_index(s, user) >= 0 {
        Some(s[user_index(s, user)].tag)
    } else {
        None
    }
}

/// `user_index` finds the first binding of `user`, and `-1` means none.
pub proof fn lemma_user_index(s: Seq<UserTagV>, user: u64)
    ensures
        -1 <= user_index(s, user) < s.len(),
        user_index(s, user) >= 0 ==> s[user_index(s, user)].user == user,
        forall|j: int| 0 <= j < user_index(s, user) ==> s[j].user != user,
        user_index(s, user) == -1 ==> forall|j: int| 0 <= j < s.len() ==> s[j].user != user,
    decreases s.len(),
{
    if s.len() > 0 {
        let rest = s.drop_first();
        lemma_user_index(rest, user);
        assert(forall|j: int| 0 <= j < rest.len() ==> rest[j] == s[j + 1]);
        if s[0].user != user {
            assert forall|j: int| 1 <= j < s.len() && (j < user_index(s, user) || user_index(
                s,
                user,
            ) == -1) implies s[j].user != user by {
                assert(s[j] == rest[j - 1]);
            }
        }
    }
}

/// No user appears twice.
pub open spec fn unique_users(s: Seq<UserTagV>) -> bool {
    forall|i: int, j: int| 0 <= i < j < s.len() ==> s[i].user != s[j].user
}

/// Removing a binding leaves every other user's binding as it was.
pub proof fn lemma_user_tag_remove(s: Seq<UserTagV>, i: int, user: u64)
    requires
        unique_users(s),
        0 <= i < s.len(),
        user != s[i].user,
    ensures
        user_tag_of(s.remove(i), user) == user_tag_of(s, user),
{
    let r = s.remove(i);
    lemma_user_index(s, user);
    lemma_user_index(r, user);
    let i1 = user_index(s, user);
    let i2 = user_index(r, user);
    if i1 >= 0 {
        let j = if i1 < i {
            i1
        } else {
            i1 - 1
        };
        assert(r[j] == s[i1]);
        assert(i2 >= 0);
        let k = if i2 < i {
            i2
        } else {
            i2 + 1
        };
        assert(r[i2] == s[k]);
        assert(k == i1);
    } else {
        if i2 >= 0 {
            let k = if i2 < i {
                i2
            } else {
                i2 + 1
            };
            assert(r[i2] == s[k]);
            assert(false);
        }
    }
}

/// Searching after a push of a new user: existing bindings keep their place;
/// the pushed user is found at the end.
pub proof fn lemma_user_index_push(s: Seq<UserTagV>, e: UserTagV)
    ensures
        forall|u: u64|
            #[trigger] user_index(s.push(e), u) == (if user_index(s, u) >= 0 {
                user_index(s, u)
            } else if u == e.user {
                s.len() as int
            } else {
                -1int
            }),
    decreases s.len(),
{
    let p = s.push(e);
    if s.len() == 0 {
        assert forall|u: u64|
            #[trigger] user_index(p, u) == (if user_index(s, u) >= 0 {
                user_index(s, u)
            } else if u == e.user {
                s.len() as int
            } else {
                -1int
            }) by {
            assert(p[0] == e);
            assert(p.drop_first() =~= Seq::<UserTagV>::empty());
            assert(user_index(p.drop_first(), u) == -1);
            assert(user_index(s, u) == -1);
        }
    } else {
        lemma_user_index_push(s.drop_first(), e);
        assert forall|u: u64|
            #[trigger] user_index(p, u) == (if user_index(s, u) >= 0 {
                user_index(s, u)
            } else if u == e.user {
                s.len() as int
            } else {
                -1int
            }) by {
            assert(p.drop_first() =~= s.drop_first().push(e));
            assert(p[0] == s[0]);
            assert(user_index(s.drop_first().push(e), u) == (if user_index(s.drop_first(), u) >= 0 {
                user_index(s.drop_first(), u)
            } else if u == e.user {
                s.drop_first().len() as int
            } else {
                -1int
            }));
        }
    }
}

/// Index of the first tier named `name`, or `-1` if there is none.
pub open spec fn tier_index(s: Seq<TierDetailsV>, name: Seq<u8>) -> int
    decreases s.len(),
{
    if s.len() == 0 {
        -1
    } else if s[0].name == name {
        0
    } else {
        let r = tier_index(s.drop_first(), name);
        if r == -1 {
            -1
        } else {
            r + 1
        }
    }
}

/// `tier_index` finds the first tier named `name`, and `-1` means none.
pub proof fn lemma_tier_index(s: Seq<TierDetailsV>, name: Seq<u8>)
    ensures
        -1 <= tier_index(s, name) < s.len(),
        tier_index(s, name) >= 0 ==> s[tier_index(s, name)].name == name,
        forall|j: int| 0 <= j < tier_index(s, name) ==> s[j].name != name,
        tier_index(s, name) == -1 ==> forall|j: int| 0 <= j < s.len() ==> s[j].name != name,
    decreases s.len(),
{
    if s.len() > 0 {
        let rest = s.drop_first();
        lemma_tier_index(rest, name);
        assert(forall|j: int| 0 <= j < rest.len() ==> rest[j] == s[j + 1]);
        if s[0].name != name {
            assert forall|j: int| 1 <= j < s.len() && (j < tier_index(s, name) || tier_index(
                s,
                name,
            ) == -1) implies s[j].name != name by {
                assert(s[j] == rest[j - 1]);
            }
        }
    }
}

/// No tier name appears twice.
pub open spec fn unique_tier_names(s: Seq<TierDetailsV>) -> bool {
    forall|i: int, j: int| 0 <= i < j < s.len() ==> s[i].name != s[j].name
}

/// How many tiers have minimum volume zero.
pub open spec fn zero_tier_count(s: Seq<TierDetailsV>) -> int
    decreases s.len(),
{
    if s.len() == 0 {
        0
    } else {
        zero_tier_count(s.drop_last()) + if s.last().min_volume == 0 {
            1int
        } else {
            0int
        }
    }
}

/// The count of zero tiers is never negative.
pub proof fn lemma_zero_count_nonneg(s: Seq<TierDetailsV>)
    ensures
        zero_tier_count(s) >= 0,
    decreases s.len(),
{
    if s.len() > 0 {
        lemma_zero_count_nonneg(s.drop_last());
    }
}

/// A zero tier makes the count at least one.
pub proof fn lemma_zero_count_one(s: Seq<TierDetailsV>, i: int)
    requires
        0 <= i < s.len(),
        s[i].min_volume == 0,
    ensures
        zero_tier_count(s) >= 1,
    decreases s.len(),
{
    lemma_zero_count_nonneg(s.drop_last());
    if i < s.len() - 1 {
        lemma_zero_count_one(s.drop_last(), i);
    }
}

/// Two zero tiers make the count at least two.
pub proof fn lemma_zero_count_two(s: Seq<TierDetailsV>, i: int, j: int)
    requires
        0 <= i < j < s.len(),
        s[i].min_volume == 0,
        s[j].min_volume == 0,
    ensures
        zero_tier_count(s) >= 2,
    decreases s.len(),
{
    if j < s.len() - 1 {
        lemma_zero_count_two(s.drop_last(), i, j);
    } else {
        lemma_zero_count_one(s.drop_last(), i);
    }
}

/// The fee share of the tier with minimum volume zero (meaningful when
/// exactly one such tier exists).
pub open spec fn base_tier_fee(s: Seq<TierDetailsV>) -> u64 {
    let i = choose|i: int| 0 <= i < s.len() && s[i].min_volume == 0;
    s[i].fee_percent
}

/// With exactly one zero tier, `base_tier_fee` is that tier's fee share.
pub proof fn lemma_base_tier_fee(s: Seq<TierDetailsV>, b: int)
    requires
        0 <= b < s.len(),
        s[b].min_volume == 0,
        zero_tier_count(s) == 1,
    ensures
        base_tier_fee(s) == s[b].fee_percent,
{
    let i = choose|i: int| 0 <= i < s.len() && s[i].min_volume == 0;
    assert(0 <= i < s.len() && s[i].min_volume == 0);
    if i != b {
        if i < b {
            lemma_zero_count_two(s, i, b);
        } else {
            lemma_zero_count_two(s, b, i);
        }
    }
}

/// The highest fee share among the tiers whose volume threshold `volume`
/// meets, starting from `fee0`; paired with the name of the first tier that
/// attains it (or `name0` when none improves on `fee0`).
pub open spec fn best_tier(
    s: Seq<TierDetailsV>,
    volume: u128,
    fee0: u64,
    name0: Seq<u8>,
) -> (u64, Seq<u8>)
    decreases s.len(),
{
    if s.len() == 0 {
        (fee0, name0)
    } else {
        let p = best_tier(s.drop_last(), volume, fee0, name0);
        let t = s.last();
        if volume >= t.min_volume && t.fee_percent > p.0 {
            (t.fee_percent, t.name)
        } else {
            p
        }
    }
}

/// The tier search never lowers the starting fee, stays within the tiers'
/// own fees, and leaves the fee unchanged exactly when no eligible tier
/// exceeds it.
pub proof fn lemma_best_tier(s: Seq<TierDetailsV>, volume: u128, fee0: u64, name0: Seq<u8>)
    ensures
        best_tier(s, volume, fee0, name0).0 >= fee0,
        (best_tier(s, volume, fee0, name0).0 == fee0 <==> forall|i: int|
            0 <= i < s.len() && volume >= #[trigger] s[i].min_volume ==> s[i].fee_percent <= fee0),
    decreases s.len(),
{
    if s.len() > 0 {
        lemma_best_tier(s.drop_last(), volume, fee0, name0);
        assert(forall|i: int| 0 <= i < s.len() - 1 ==> s.drop_last()[i] == s[i]);
    }
}

/// A cap respected by the starting fee and by every tier is respected by the
/// tier search's result.
pub proof fn lemma_best_tier_cap(
    s: Seq<TierDetailsV>,
    volume: u128,
    fee0: u64,
    name0: Seq<u8>,
    cap: u64,
)
    requires
        fee0 < cap,
        forall|i: int| 0 <= i < s.len() ==> #[trigger] s[i].fee_percent < cap,
    ensures
        best_tier(s, volume, fee0, name0).0 < cap,
    decreases s.len(),
{
    if s.len() > 0 {
        assert(forall|i: int| 0 <= i < s.len() - 1 ==> s.drop_last()[i] == s[i]);
        lemma_best_tier_cap(s.drop_last(), volume, fee0, name0, cap);
    }
}

/// Tag records, the address-to-tag bindings, the tier table, and a ghost
/// tally of everything ever carved out of protocol fees for referral tags.
pub struct ReferralModule {
    pub tags: Vec<TagRecord>,
    pub user_tags: Vec<UserTag>,
    pub tiers: Vec<TierDetails>,
    pub fees_carved: Ghost<int>,
}

impl ReferralModule {
    /// The tag records' values.
    pub open spec fn tagv(&self) -> Seq<TagRecordV> {
        tag_views(self.tags@)
    }

    /// The user bindings' values.
    pub open spec fn userv(&self) -> Seq<UserTagV> {
        user_views(self.user_tags@)
    }

    /// The tier table's values.
    pub open spec fn tierv(&self) -> Seq<TierDetailsV> {
        tier_views(self.tiers@)
    }

    /// A tag is registered once it carries a fee share.
    pub open spec fn tag_registered(&self, t: Seq<u8>) -> bool {
        registered_in(self.tagv(), t)
    }

    /// The fee share of a tag (zero while unregistered).
    pub open spec fn tag_percent(&self, t: Seq<u8>) -> u64 {
        match tag_record(self.tagv(), t) {
            Some(r) => match r.fee_percent {
                Some(p) => p,
                None => 0u64,
            },
            None => 0u64,
        }
    }

    /// The cumulative volume attributed to a tag.
    pub open spec fn tag_volume(&self, t: Seq<u8>) -> u128 {
        match tag_record(self.tagv(), t) {
            Some(r) => r.accumulated_volume,
            None => 0u128,
        }
    }

    /// The unclaimed fees accrued to a tag.
    pub open spec fn tag_fees(&self, t: Seq<u8>) -> u128 {
        match tag_record(self.tagv(), t) {
            Some(r) => r.collected_fees,
            None => 0u128,
        }
    }

    /// The tag bound to an address, if any.
    pub open spec fn user_tag(&self, user: u64) -> Option<Seq<u8>> {
        user_tag_of(self.userv(), user)
    }

    /// Structural soundness: unique keys, every fee share below its cap,
    /// every bound tag actually registered, each tag bound at most once, and
    /// no more owed to tags than was ever carved from protocol fees for them.
    pub open spec fn wf(&self) -> bool {
        &&& sum_fees(self.tagv()) <= self.fees_carved@
        &&& unique_tags(self.tagv())
        &&& unique_users(self.userv())
        &&& unique_tier_names(self.tierv())
        &&& forall|i: int|
            0 <= i < self.tierv().len() ==> #[trigger] self.tierv()[i].fee_percent
                < MAX_FEE_PERCENTAGE
        &&& forall|i: int|
            0 <= i < self.tagv().len() ==> (#[trigger] self.tagv()[i].fee_percent matches Some(p)
                ==> p < MAX_FEE_PERCENTAGE)
        &&& forall|i: int|
            0 <= i < self.userv().len() ==> self.tag_registered(#[trigger] self.userv()[i].tag)
        &&& forall|i: int, j: int|
            0 <= i < j < self.userv().len() ==> self.userv()[i].tag != self.userv()[j].tag
    }

    /// An empty engine: no tags, no bindings, no tiers.
    pub fn new() -> (r: ReferralModule)
        ensures
            r.wf(),
            r.tagv() == Seq::<TagRecordV>::empty(),
            r.userv() == Seq::<UserTagV>::empty(),
            r.tierv() == Seq::<TierDetailsV>::empty(),
    {
        let r = ReferralModule {
            tags: Vec::new(),
            user_tags: Vec::new(),
            tiers: Vec::new(),
            fees_carved: Ghost(0),
        };
        proof {
            assert(r.tagv() =~= Seq::<TagRecordV>::empty());
            assert(r.userv() =~= Seq::<UserTagV>::empty());
            assert(r.tierv() =~= Seq::<TierDetailsV>::empty());
        }
        r
    }

    /// Index of the record for `tag`, if one exists.
    fn find_tag(&self, tag: &Vec<u8>) -> (r: Option<usize>)
        ensures
            match r {
                Some(i) => i == tag_index(self.tagv(), tag@) && i < self.tags@.len(),
                None => tag_index(self.tagv(), tag@) == -1,
            },
    {
        let mut i: usize = 0;
        while i < self.tags.len()
            invariant
                i <= self.tags@.len(),
                forall|j: int| 0 <= j < i ==> tag_views(self.tags@)[j].tag != tag@,
            decreases self.tags@.len() - i,
        {
            if bytes_eq(&self.tags[i].tag, tag) {
                proof {
                    lemma_tag_index(self.tagv(), tag@);
                    assert(self.tagv()[i as int] == self.tags@[i as int]@);
                }
                return Some(i);
            }
            i += 1;
        }
        proof {
            lemma_tag_index(self.tagv(), tag@);
        }
        None
    }

    /// Index of the binding of `user`, if one exists.
    fn find_user(&self, user: u64) -> (r: Option<usize>)
        ensures
            match r {
                Some(i) => i == user_index(self.userv(), user) && i < self.user_tags@.len(),
                None => user_index(self.userv(), user) == -1,
            },
    {
        let mut i: usize = 0;
        while i < self.user_tags.len()
            invariant
                i <= self.user_tags@.len(),
                forall|j: int| 0 <= j < i ==> user_views(self.user_tags@)[j].user != user,
            decreases self.user_tags@.len() - i,
        {
            if self.user_tags[i].user == user {
                proof {
                    lemma_user_index(self.userv(), user);
                    assert(self.userv()[i as int] == self.user_tags@[i as int]@);
                }
                return Some(i);
            }
            i += 1;
        }
        proof {
            lemma_user_index(self.userv(), user);
        }
        None
    }

    /// Index of the tier named `name`, if one exists.
    fn find_tier(&self, name: &Vec<u8>) -> (r: Option<usize>)
        ensures
            match r {
                Some(i) => i == tier_index(self.tierv(), name@) && i < self.tiers@.len(),
                None => tier_index(self.tierv(), name@) == -1,
            },
    {
        let mut i: usize = 0;
        while i < self.tiers.len()
            invariant
                i <= self.tiers@.len(),
                forall|j: int| 0 <= j < i ==> tier_views(self.tiers@)[j].name != name@,
            decreases self.tiers@.len() - i,
        {
            if bytes_eq(&self.tiers[i].name, name) {
                proof {
                    lemma_tier_index(self.tierv(), name@);
                    assert(self.tierv()[i as int] == self.tiers@[i as int]@);
                }
                return Some(i);
            }
            i += 1;
        }
        proof {
            lemma_tier_index(self.tierv(), name@);
        }
        None
    }

    /// The fee share of a tag, zero while unregistered (the view endpoint).
    pub fn referral_tag_percent(&self, tag: &Vec<u8>) -> (r: u64)
        ensures
            r == self.tag_percent(tag@),
    {
        match self.find_tag(tag) {
            Some(i) => match self.tags[i].fee_percent {
                Some(p) => p,
                None => 0,
            },
            None => 0,
        }
    }

    /// The unclaimed fees of a tag (the view endpoint).
    pub fn collected_tag_fees(&self, tag: &Vec<u8>) -> (r: u128)
        ensures
            r == self.tag_fees(tag@),
    {
        match self.find_tag(tag) {
            Some(i) => self.tags[i].collected_fees,
            None => 0,
        }
    }

    /// The cumulative volume of a tag (the view endpoint).
    pub fn accumulated_volume(&self, tag: &Vec<u8>) -> (r: u128)
        ensures
            r == self.tag_volume(tag@),
    {
        match self.find_tag(tag) {
            Some(i) => self.tags[i].accumulated_volume,
            None => 0,
        }
    }

    /// The tag bound to an address, if any (the view endpoint).
    pub fn user_tag_mapping(&self, address: u64) -> (r: Option<Vec<u8>>)
        ensures
            match r {
                Some(t) => self.user_tag(address) == Some(t@),
                None => self.user_tag(address) is None,
            },
    {
        match self.find_user(address) {
            Some(i) => Some(clone_bytes(&self.user_tags[i].tag)),
            None => None,
        }
    }

    /// The unclaimed fees of the tag bound to `address`, zero when it owns
    /// no tag.
    pub fn get_collected_fee_amount(&self, address: u64) -> (r: u128)
        ensures
            r == match self.user_tag(address) {
                Some(t) => self.tag_fees(t),
                None => 0u128,
            },
    {
        match self.find_user(address) {
            Some(i) => {
                let tag = clone_bytes(&self.user_tags[i].tag);
                self.collected_tag_fees(&tag)
            },
            None => 0,
        }
    }

    /// Adds a tier. The fee share must be below `MAX_FEE_PERCENTAGE` and the
    /// name must be new.
    pub fn add_tier_details(
        &mut self,
        access: &AccessControl,
        caller: u64,
        name: Vec<u8>,
        min_volume: u128,
        fee_percent: u64,
    ) -> (r: Result<(), Error>)
        requires
            old(self).wf(),
        ensures
            final(self).wf(),
            !access.has_owner(caller) ==> r == Err::<(), Error>(Error::Unauthorized) && *final(self)
                == *old(self),
            access.has_owner(caller) && fee_percent >= MAX_FEE_PERCENTAGE ==> r == Err::<
                (),
                Error,
            >(Error::InvalidFeePercentage) && *final(self) == *old(self),
            access.has_owner(caller) && fee_percent < MAX_FEE_PERCENTAGE && tier_index(
                old(self).tierv(),
                name@,
            ) >= 0 ==> r == Err::<(), Error>(Error::TierAlreadyExists) && *final(self) == *old(
                self,
            ),
            access.has_owner(caller) && fee_percent < MAX_FEE_PERCENTAGE && tier_index(
                old(self).tierv(),
                name@,
            ) == -1 ==> r is Ok && final(self).tierv() == old(self).tierv().push(
                TierDetailsV { name: name@, min_volume, fee_percent },
            ) && final(self).tagv() == old(self).tagv() && final(self).userv() == old(self).userv(),
    {
        if let Err(e) = access.require_caller_has_owner_permissions(caller) {
            return Err(e);
        }
        if fee_percent >= MAX_FEE_PERCENTAGE {
            return Err(Error::InvalidFeePercentage);
        }
        if self.find_tier(&name).is_some() {
            return Err(Error::TierAlreadyExists);
        }
        proof {
            lemma_tier_index(self.tierv(), name@);
        }
        let ghost prev = self.tierv();
        self.tiers.push(TierDetails { name, min_volume, fee_percent });
        proof {
            assert(self.tierv() =~= prev.push(TierDetailsV { name: name@, min_volume, fee_percent }));
            assert forall|i: int, j: int| 0 <= i < j < self.tierv().len() implies self.tierv()[i].name
                != self.tierv()[j].name by {
                if j < prev.len() {
                    assert(self.tierv()[i] == prev[i] && self.tierv()[j] == prev[j]);
                } else {
                    assert(self.tierv()[i] == prev[i]);
                }
            }
        }
        Ok(())
    }

    /// Removes the tier with the given name.
    pub fn remove_tier_details(&mut self, access: &AccessControl, caller: u64, name: &Vec<u8>) -> (r:
        Result<(), Error>)
        requires
            old(self).wf(),
        ensures
            final(self).wf(),
            !access.has_owner(caller) ==> r == Err::<(), Error>(Error::Unauthorized) && *final(self)
                == *old(self),
            access.has_owner(caller) && tier_index(old(self).tierv(), name@) == -1 ==> r == Err::<
                (),
                Error,
            >(Error::TierNotFound) && *final(self) == *old(self),
            access.has_owner(caller) && tier_index(old(self).tierv(), name@) >= 0 ==> r is Ok
                && final(self).tierv() == old(self).tierv().remove(
                tier_index(old(self).tierv(), name@),
            ) && final(self).tagv() == old(self).tagv() && final(self).userv() == old(self).userv(),
    {
        if let Err(e) = access.require_caller_has_owner_permissions(caller) {
            return Err(e);
        }
        match self.find_tier(name) {
            None => Err(Error::TierNotFound),
            Some(i) => {
                let ghost prev = self.tierv();
                self.tiers.remove(i);
                proof {
                    assert(self.tierv() =~= prev.remove(i as int));
                    assert forall|a: int, b: int|
                        0 <= a < b < self.tierv().len() implies self.tierv()[a].name
                        != self.tierv()[b].name by {
                        let a0 = if a < i {
                            a
                        } else {
                            a + 1
                        };
                        let b0 = if b < i {
                            b
                        } else {
                            b + 1
                        };
                        assert(self.tierv()[a] == prev[a0]);
                        assert(self.tierv()[b] == prev[b0]);
                    }
                }
                Ok(())
            },
        }
    }

    /// Overrides a registered tag's fee share, independent of tiers.
    pub fn set_referral_fee_percentage(
        &mut self,
        access: &AccessControl,
        caller: u64,
        tag: &Vec<u8>,
        new_percentage: u64,
    ) -> (r: Result<(), Error>)
        requires
            old(self).wf(),
        ensures
            final(self).wf(),
            !access.has_owner_or_admin(caller) ==> r == Err::<(), Error>(Error::Unauthorized)
                && *final(self) == *old(self),
            access.has_owner_or_admin(caller) && new_percentage >= MAX_FEE_PERCENTAGE ==> r
                == Err::<(), Error>(Error::InvalidNewPercentage) && *final(self) == *old(self),
            access.has_owner_or_admin(caller) && new_percentage < MAX_FEE_PERCENTAGE && !old(
                self,
            ).tag_registered(tag@) ==> r == Err::<(), Error>(Error::TagNotFound) && *final(self)
                == *old(self),
            access.has_owner_or_admin(caller) && new_percentage < MAX_FEE_PERCENTAGE && old(
                self,
            ).tag_registered(tag@) ==> {
                &&& r is Ok
                &&& final(self).tag_percent(tag@) == new_percentage
                &&& final(self).tag_registered(tag@)
                &&& final(self).tag_volume(tag@) == old(self).tag_volume(tag@)
                &&& final(self).tag_fees(tag@) == old(self).tag_fees(tag@)
                &&& forall|t: Seq<u8>|
                    t != tag@ ==> tag_record(final(self).tagv(), t) == tag_record(
                        old(self).tagv(),
                        t,
                    )
                &&& final(self).userv() == old(self).userv()
                &&& final(self).tierv() == old(self).tierv()
            },
    {
        if let Err(e) = access.require_caller_has_owner_or_admin_permissions(caller) {
            return Err(e);
        }
        if new_percentage >= MAX_FEE_PERCENTAGE {
            return Err(Error::InvalidNewPercentage);
        }
        match self.find_tag(tag) {
            None => Err(Error::TagNotFound),
            Some(i) => {
                if self.tags[i].fee_percent.is_none() {
                    return Err(Error::TagNotFound);
                }
                let ghost prev = self.tagv();
                proof {
                    lemma_tag_index(prev, tag@);
                }
                let volume = self.tags[i].accumulated_volume;
                let fees = self.tags[i].collected_fees;
                self.tags[i] = TagRecord {
                    tag: clone_bytes(tag),
                    fee_percent: Some(new_percentage),
                    accumulated_volume: volume,
                    collected_fees: fees,
                };
                proof {
                    self.lemma_tag_update_frame(prev, i as int, tag@);
                    assert(self.tagv() =~= prev.update(i as int, self.tagv()[i as int]));
                    lemma_sum_fees_update(prev, i as int, self.tagv()[i as int]);
                }
                Ok(())
            },
        }
    }

    /// After updating the record at `i` (same tag), every other tag's record
    /// is unchanged, and the one at `i` is found where it was.
    proof fn lemma_tag_update_frame(&self, prev: Seq<TagRecordV>, i: int, t: Seq<u8>)
        requires
            0 <= i < prev.len(),
            self.tagv().len() == prev.len(),
            forall|j: int| 0 <= j < prev.len() && j != i ==> self.tagv()[j] == prev[j],
            self.tagv()[i].tag == prev[i].tag,
            prev[i].tag == t,
        ensures
            tag_index(self.tagv(), t) == tag_index(prev, t),
            forall|u: Seq<u8>| u != t ==> tag_record(self.tagv(), u) == tag_record(prev, u),
            unique_tags(prev) ==> unique_tags(self.tagv()),
    {
        lemma_tag_index_same_tags(prev, self.tagv(), t);
        assert forall|u: Seq<u8>| u != t implies tag_record(self.tagv(), u) == tag_record(
            prev,
            u,
        ) by {
            lemma_tag_index_same_tags(prev, self.tagv(), u);
            lemma_tag_index(prev, u);
            lemma_tag_index(self.tagv(), u);
        }
        assert(forall|j: int| 0 <= j < prev.len() ==> self.tagv()[j].tag == prev[j].tag);
        if unique_tags(prev) {
            assert forall|a: int, b: int| 0 <= a < b < self.tagv().len() implies self.tagv()[a].tag
                != self.tagv()[b].tag by {
                assert(prev[a].tag != prev[b].tag);
            }
        }
    }

    /// Attributes swap volume to a tag, creating an unregistered record when
    /// none exists yet.
    pub fn add_volume(&mut self, tag: &Vec<u8>, amount: u128)
        requires
            old(self).wf(),
            old(self).tag_volume(tag@) + amount <= u128::MAX,
        ensures
            final(self).wf(),
            final(self).tag_volume(tag@) == old(self).tag_volume(tag@) + amount,
            final(self).tag_percent(tag@) == old(self).tag_percent(tag@),
            final(self).tag_registered(tag@) == old(self).tag_registered(tag@),
            final(self).tag_fees(tag@) == old(self).tag_fees(tag@),
            forall|t: Seq<u8>|
                t != tag@ ==> tag_record(final(self).tagv(), t) == tag_record(old(self).tagv(), t),
            final(self).userv() == old(self).userv(),
            final(self).tierv() == old(self).tierv(),
    {
        match self.find_tag(tag) {
            Some(i) => {
                let ghost prev = self.tagv();
                proof {
                    lemma_tag_index(prev, tag@);
                }
                let percent = self.tags[i].fee_percent;
                let volume = self.tags[i].accumulated_volume;
                let fees = self.tags[i].collected_fees;
                self.tags[i] = TagRecord {
                    tag: clone_bytes(tag),
                    fee_percent: percent,
                    accumulated_volume: volume + amount,
                    collected_fees: fees,
                };
                proof {
                    self.lemma_tag_update_frame(prev, i as int, tag@);
                    assert(self.tagv() =~= prev.update(i as int, self.tagv()[i as int]));
                    lemma_sum_fees_update(prev, i as int, self.tagv()[i as int]);
                }
            },
            None => {
                let ghost prev = self.tagv();
                let record = TagRecord {
                    tag: clone_bytes(tag),
                    fee_percent: None,
                    accumulated_volume: amount,
                    collected_fees: 0,
                };
                let ghost recordv = record@;
                self.tags.push(record);
                proof {
                    assert(self.tagv() =~= prev.push(recordv));
                    lemma_tag_index_push(prev, recordv);
                    lemma_sum_fees_push(prev, recordv);
                    assert forall|t: Seq<u8>| t != tag@ implies tag_record(self.tagv(), t)
                        == tag_record(prev, t) by {
                        lemma_tag_index(prev, t);
                        lemma_tag_index(self.tagv(), t);
                    }
                    lemma_tag_index(prev, tag@);
                    assert forall|i: int, j: int|
                        0 <= i < j < self.tagv().len() implies self.tagv()[i].tag
                        != self.tagv()[j].tag by {
                        if j < prev.len() {
                            assert(self.tagv()[i] == prev[i] && self.tagv()[j] == prev[j]);
                        } else {
                            assert(self.tagv()[i] == prev[i] && self.tagv()[j] == recordv);
                        }
                    }
                }
            },
        }
    }

    /// Carves the tag's share out of a protocol fee: credits
    /// `fee_amount * share / MAX_PERCENTAGE` to the tag and returns the fee
    /// less that cut. A tag without a share (unregistered included) leaves
    /// everything unchanged.
    pub fn subtract_referral_fee_and_update_collected_fees(
        &mut self,
        fee_amount: u128,
        tag: &Vec<u8>,
    ) -> (r: u128)
        requires
            old(self).wf(),
            old(self).tag_fees(tag@) + fee_amount <= u128::MAX,
        ensures
            final(self).wf(),
            r == fee_amount - pct_of(fee_amount as int, old(self).tag_percent(tag@) as int),
            old(self).tag_percent(tag@) == 0 ==> *final(self) == *old(self),
            old(self).tag_percent(tag@) != 0 ==> {
                &&& final(self).tag_fees(tag@) == old(self).tag_fees(tag@) + pct_of(
                    fee_amount as int,
                    old(self).tag_percent(tag@) as int,
                )
                &&& final(self).tag_percent(tag@) == old(self).tag_percent(tag@)
                &&& final(self).tag_registered(tag@) == old(self).tag_registered(tag@)
                &&& final(self).tag_volume(tag@) == old(self).tag_volume(tag@)
                &&& forall|t: Seq<u8>|
                    t != tag@ ==> tag_record(final(self).tagv(), t) == tag_record(
                        old(self).tagv(),
                        t,
                    )
                &&& final(self).userv() == old(self).userv()
                &&& final(self).tierv() == old(self).tierv()
            },
    {
        let tag_percentage = self.referral_tag_percent(tag);
        if tag_percentage == 0 {
            proof {
                crate::math::lemma_pct_of_le(fee_amount as int, 0int);
                assert(pct_of(fee_amount as int, 0int) == 0) by {
                    assert(fee_amount as int * 0int == 0int) by (nonlinear_arith);
                }
            }
            return fee_amount;
        }
        // a positive share means the record exists
        let i = match self.find_tag(tag) {
            Some(i) => i,
            None => {
                proof {
                    assert(false);
                }
                0
            },
        };
        let referral_amount = mul_div(fee_amount, tag_percentage);
        let ghost prev = self.tagv();
        proof {
            lemma_tag_index(prev, tag@);
        }
        let percent = self.tags[i].fee_percent;
        let volume = self.tags[i].accumulated_volume;
        let fees = self.tags[i].collected_fees;
        self.tags[i] = TagRecord {
            tag: clone_bytes(tag),
            fee_percent: percent,
            accumulated_volume: volume,
            collected_fees: fees + referral_amount,
        };
        self.fees_carved = Ghost(self.fees_carved@ + referral_amount as int);
        proof {
            self.lemma_tag_update_frame(prev, i as int, tag@);
            assert(self.tagv() =~= prev.update(i as int, self.tagv()[i as int]));
            lemma_sum_fees_update(prev, i as int, self.tagv()[i as int]);
            assert(forall|j: int| 0 <= j < prev.len() ==> prev[j] == old(self).tagv()[j]);
            assert forall|j: int|
                0 <= j < self.tagv().len() implies (#[trigger] self.tagv()[j].fee_percent matches
            Some(p) ==> p < MAX_FEE_PERCENTAGE) by {
                assert(self.tagv()[j].fee_percent == prev[j].fee_percent);
                assert(prev[j] == old(self).tagv()[j]);
            }
            assert forall|k: int| 0 <= k < self.userv().len() implies self.tag_registered(
                #[trigger] self.userv()[k].tag,
            ) by {
                let ut = self.userv()[k].tag;
                assert(old(self).tag_registered(ut));
                if ut != tag@ {
                    assert(tag_record(self.tagv(), ut) == tag_record(prev, ut));
                }
            }
        }
        fee_amount - referral_amount
    }

    /// Registers a new tag for the caller, granting the base tier's fee
    /// share. Fails if the tag or the caller is already bound, if no tiers
    /// exist, or if there is not exactly one tier with minimum volume zero.
    pub fn register_referral_tag(&mut self, access: &AccessControl, caller: u64, tag: &Vec<u8>) -> (r:
        Result<(), Error>)
        requires
            old(self).wf(),
        ensures
            final(self).wf(),
            r is Err <==> register_error(*old(self), access.is_active(), caller, tag@) is Some,
            !access.is_active() ==> r == Err::<(), Error>(Error::NotActive) && *final(self) == *old(
                self,
            ),
            access.is_active() && old(self).tag_registered(tag@) ==> r == Err::<(), Error>(
                Error::TagAlreadyRegistered,
            ) && *final(self) == *old(self),
            access.is_active() && !old(self).tag_registered(tag@) && old(self).user_tag(caller)
                is Some ==> r == Err::<(), Error>(Error::UserAlreadyOwnsTag) && *final(self) == *old(
                self,
            ),
            access.is_active() && !old(self).tag_registered(tag@) && old(self).user_tag(caller)
                is None && old(self).tierv().len() == 0 ==> r == Err::<(), Error>(Error::TiersNotSet)
                && *final(self) == *old(self),
            access.is_active() && !old(self).tag_registered(tag@) && old(self).user_tag(caller)
                is None && old(self).tierv().len() > 0 && zero_tier_count(old(self).tierv()) != 1
                ==> r == Err::<(), Error>(Error::NoBaseTier) && *final(self) == *old(self),
            access.is_active() && !old(self).tag_registered(tag@) && old(self).user_tag(caller)
                is None && old(self).tierv().len() > 0 && zero_tier_count(old(self).tierv()) == 1
                ==> {
                &&& r is Ok
                &&& final(self).tag_registered(tag@)
                &&& final(self).tag_percent(tag@) == base_tier_fee(old(self).tierv())
                &&& final(self).tag_volume(tag@) == old(self).tag_volume(tag@)
                &&& final(self).tag_fees(tag@) == old(self).tag_fees(tag@)
                &&& final(self).user_tag(caller) == Some(tag@)
                &&& forall|t: Seq<u8>|
                    t != tag@ ==> tag_record(final(self).tagv(), t) == tag_record(
                        old(self).tagv(),
                        t,
                    )
                &&& forall|u: u64| u != caller ==> final(self).user_tag(u) == old(self).user_tag(u)
                &&& final(self).tierv() == old(self).tierv()
            },
    {
        if let Err(e) = access.require_state_active() {
            return Err(e);
        }
        let existing = self.find_tag(tag);
        if let Some(i) = existing {
            if self.tags[i].fee_percent.is_some() {
                return Err(Error::TagAlreadyRegistered);
            }
        }
        if self.find_user(caller).is_some() {
            return Err(Error::UserAlreadyOwnsTag);
        }
        if self.tiers.len() == 0 {
            proof {
                assert(self.tierv().len() == 0);
            }
            return Err(Error::TiersNotSet);
        }
        let ghost tiersv = self.tierv();
        let mut zeros: usize = 0;
        let mut base_fee_opt: Option<u64> = None;
        let mut i: usize = 0;
        proof {
            assert(tiersv.take(0) =~= Seq::<TierDetailsV>::empty());
        }
        while i < self.tiers.len()
            invariant
                tiersv == self.tierv(),
                i <= tiersv.len(),
                zeros <= i,
                zeros == zero_tier_count(tiersv.take(i as int)),
                match base_fee_opt {
                    Some(f) => exists|b: int|
                        0 <= b < i && #[trigger] tiersv[b].min_volume == 0 && f
                            == tiersv[b].fee_percent,
                    None => forall|j: int| 0 <= j < i ==> #[trigger] tiersv[j].min_volume != 0,
                },
            decreases tiersv.len() - i,
        {
            proof {
                assert(tiersv.take(i + 1).drop_last() =~= tiersv.take(i as int));
                assert(tiersv.take(i + 1).last() == tiersv[i as int]);
                assert(tiersv[i as int] == self.tiers@[i as int]@);
                lemma_zero_count_nonneg(tiersv.take(i as int));
            }
            if self.tiers[i].min_volume == 0 {
                proof {
                    assert(tiersv[i as int].min_volume == 0);
                    assert(tiersv[i as int].fee_percent == self.tiers@[i as int]@.fee_percent);
                }
                zeros += 1;
                if base_fee_opt.is_none() {
                    base_fee_opt = Some(self.tiers[i].fee_percent);
                }
            }
            i += 1;
        }
        proof {
            assert(tiersv.take(tiersv.len() as int) =~= tiersv);
        }
        if zeros != 1 {
            return Err(Error::NoBaseTier);
        }
        let base_fee = match base_fee_opt {
            Some(f) => f,
            None => {
                proof {
                    let b = choose|b: int|
                        0 <= b < tiersv.len() && #[trigger] tiersv[b].min_volume == 0;
                    lemma_zero_count_zero(tiersv);
                }
                0
            },
        };
        proof {
            let b = choose|b: int|
                0 <= b < tiersv.len() && #[trigger] tiersv[b].min_volume == 0 && base_fee
                    == tiersv[b].fee_percent;
            lemma_base_tier_fee(tiersv, b);
            assert(tiersv[b] == old(self).tierv()[b]);
            assert(old(self).tierv()[b].fee_percent < MAX_FEE_PERCENTAGE);
            assert(base_fee < MAX_FEE_PERCENTAGE);
        }
        let ghost prev_users = self.userv();
        let new_binding = UserTag { user: caller, tag: clone_bytes(tag) };
        let ghost bindingv = new_binding@;
        self.user_tags.push(new_binding);
        proof {
            assert(self.userv() =~= prev_users.push(bindingv));
            lemma_user_index_push(prev_users, bindingv);
            lemma_user_index(prev_users, caller);
            assert forall|a: int, b: int| 0 <= a < b < self.userv().len() implies self.userv()[a].user
                != self.userv()[b].user by {
                if b < prev_users.len() {
                    assert(self.userv()[a] == prev_users[a] && self.userv()[b] == prev_users[b]);
                } else {
                    assert(self.userv()[a] == prev_users[a] && self.userv()[b] == bindingv);
                }
            }
            assert(self.user_tag(caller) == Some(tag@));
            assert forall|u: u64| u != caller implies self.user_tag(u) == user_tag_of(
                prev_users,
                u,
            ) by {
                lemma_user_index(prev_users, u);
                lemma_user_index(self.userv(), u);
            }
        }
        match existing {
            Some(i) => {
                let ghost prev = self.tagv();
                proof {
                    lemma_tag_index(prev, tag@);
                }
                let volume = self.tags[i].accumulated_volume;
                let fees = self.tags[i].collected_fees;
                self.tags[i] = TagRecord {
                    tag: clone_bytes(tag),
                    fee_percent: Some(base_fee),
                    accumulated_volume: volume,
                    collected_fees: fees,
                };
                proof {
                    self.lemma_tag_update_frame(prev, i as int, tag@);
                    assert(self.tagv() =~= prev.update(i as int, self.tagv()[i as int]));
                    lemma_sum_fees_update(prev, i as int, self.tagv()[i as int]);
                    assert(base_fee < MAX_FEE_PERCENTAGE);
                    assert(forall|j: int| 0 <= j < prev.len() ==> prev[j] == old(self).tagv()[j]);
                    assert forall|j: int|
                        0 <= j < self.tagv().len() implies (#[trigger] self.tagv()[j].fee_percent
                    matches Some(p) ==> p < MAX_FEE_PERCENTAGE) by {
                        if j != i as int {
                            assert(self.tagv()[j] == prev[j]);
                        }
                    }
                    assert(forall|k: int|
                        0 <= k < prev_users.len() ==> prev_users[k] == old(self).userv()[k]);
                    assert forall|k: int| 0 <= k < prev_users.len() implies registered_in(
                        prev,
                        #[trigger] prev_users[k].tag,
                    ) by {
                        assert(old(self).tag_registered(old(self).userv()[k].tag));
                    }
                    self.lemma_register_wf(prev, prev_users, tag@, caller, bindingv);
                }
            },
            None => {
                let ghost prev = self.tagv();
                let record = TagRecord {
                    tag: clone_bytes(tag),
                    fee_percent: Some(base_fee),
                    accumulated_volume: 0,
                    collected_fees: 0,
                };
                let ghost recordv = record@;
                self.tags.push(record);
                proof {
                    assert(self.tagv() =~= prev.push(recordv));
                    lemma_tag_index_push(prev, recordv);
                    lemma_sum_fees_push(prev, recordv);
                    lemma_tag_index(prev, tag@);
                    assert forall|t: Seq<u8>| t != tag@ implies tag_record(self.tagv(), t)
                        == tag_record(prev, t) by {
                        lemma_tag_index(prev, t);
                        lemma_tag_index(self.tagv(), t);
                    }
                    assert forall|a: int, b: int|
                        0 <= a < b < self.tagv().len() implies self.tagv()[a].tag
                        != self.tagv()[b].tag by {
                        if b < prev.len() {
                            assert(self.tagv()[a] == prev[a] && self.tagv()[b] == prev[b]);
                        } else {
                            assert(self.tagv()[a] == prev[a] && self.tagv()[b] == recordv);
                        }
                    }
                    assert(base_fee < MAX_FEE_PERCENTAGE);
                    assert(forall|j: int| 0 <= j < prev.len() ==> prev[j] == old(self).tagv()[j]);
                    assert forall|j: int|
                        0 <= j < self.tagv().len() implies (#[trigger] self.tagv()[j].fee_percent
                    matches Some(p) ==> p < MAX_FEE_PERCENTAGE) by {
                        if j < prev.len() {
                            assert(self.tagv()[j] == prev[j]);
                        } else {
                            assert(self.tagv()[j] == recordv);
                        }
                    }
                    assert(forall|k: int|
                        0 <= k < prev_users.len() ==> prev_users[k] == old(self).userv()[k]);
                    assert forall|k: int| 0 <= k < prev_users.len() implies registered_in(
                        prev,
                        #[trigger] prev_users[k].tag,
                    ) by {
                        assert(old(self).tag_registered(old(self).userv()[k].tag));
                    }
                    self.lemma_register_wf(prev, prev_users, tag@, caller, bindingv);
                }
            },
        }
        Ok(())
    }

    /// Recomputes the caller's tier from its accumulated volume and raises
    /// the tag's fee share to the best eligible tier's, returning that tier's
    /// name; fails when no eligible tier strictly improves on the current
    /// share. The share never decreases.
    pub fn update_user_tier(&mut self, access: &AccessControl, caller: u64) -> (r: Result<
        Vec<u8>,
        Error,
    >)
        requires
            old(self).wf(),
        ensures
            final(self).wf(),
            !access.is_active() ==> r == Err::<Vec<u8>, Error>(Error::NotActive) && *final(self)
                == *old(self),
            access.is_active() && old(self).user_tag(caller) is None ==> r == Err::<Vec<u8>, Error>(
                Error::NotATagOwner,
            ) && *final(self) == *old(self),
            access.is_active() ==> (old(self).user_tag(caller) matches Some(t) ==> {
                let cur = old(self).tag_percent(t);
                let best = best_tier(old(self).tierv(), old(self).tag_volume(t), cur, Seq::empty());
                &&& best.0 == cur ==> r == Err::<Vec<u8>, Error>(Error::NoTierUpgradeFound)
                    && *final(self) == *old(self)
                &&& best.0 != cur ==> {
                    &&& r matches Ok(name) && name@ == best.1
                    &&& final(self).tag_percent(t) == best.0
                    &&& final(self).tag_percent(t) > old(self).tag_percent(t)
                    &&& final(self).tag_registered(t)
                    &&& final(self).tag_volume(t) == old(self).tag_volume(t)
                    &&& final(self).tag_fees(t) == old(self).tag_fees(t)
                    &&& forall|t2: Seq<u8>|
                        t2 != t ==> tag_record(final(self).tagv(), t2) == tag_record(
                            old(self).tagv(),
                            t2,
                        )
                    &&& final(self).userv() == old(self).userv()
                    &&& final(self).tierv() == old(self).tierv()
                }
            }),
    {
        if let Err(e) = access.require_state_active() {
            return Err(e);
        }
        let ui = match self.find_user(caller) {
            Some(ui) => ui,
            None => {
                return Err(Error::NotATagOwner);
            },
        };
        let user_tag = clone_bytes(&self.user_tags[ui].tag);
        proof {
            lemma_user_index(self.userv(), caller);
            assert(self.userv()[ui as int] == self.user_tags@[ui as int]@);
        }
        let user_volume = self.accumulated_volume(&user_tag);
        let current = self.referral_tag_percent(&user_tag);
        let ghost tiersv = self.tierv();
        let mut fee_percent: u64 = current;
        let mut tier_name: Vec<u8> = Vec::new();
        let mut i: usize = 0;
        proof {
            assert(tiersv.take(0) =~= Seq::<TierDetailsV>::empty());
            assert(tier_name@ =~= Seq::<u8>::empty());
        }
        while i < self.tiers.len()
            invariant
                tiersv == self.tierv(),
                i <= tiersv.len(),
                (fee_percent, tier_name@) == best_tier(
                    tiersv.take(i as int),
                    user_volume,
                    current,
                    Seq::<u8>::empty(),
                ),
            decreases tiersv.len() - i,
        {
            proof {
                assert(tiersv.take(i + 1).drop_last() =~= tiersv.take(i as int));
                assert(tiersv.take(i + 1).last() == tiersv[i as int]);
                assert(tiersv[i as int] == self.tiers@[i as int]@);
            }
            if user_volume >= self.tiers[i].min_volume && self.tiers[i].fee_percent > fee_percent {
                fee_percent = self.tiers[i].fee_percent;
                tier_name = clone_bytes(&self.tiers[i].name);
            }
            i += 1;
        }
        proof {
            assert(tiersv.take(tiersv.len() as int) =~= tiersv);
        }
        if fee_percent == current {
            return Err(Error::NoTierUpgradeFound);
        }
        // the caller's tag is registered, so its record exists
        let ti = match self.find_tag(&user_tag) {
            Some(ti) => ti,
            None => {
                proof {
                    assert(old(self).tag_registered(user_tag@));
                    assert(false);
                }
                0
            },
        };
        let ghost prev = self.tagv();
        proof {
            lemma_tag_index(prev, user_tag@);
            lemma_best_tier(tiersv, user_volume, current, Seq::<u8>::empty());
            lemma_best_tier_cap(tiersv, user_volume, current, Seq::<u8>::empty(), MAX_FEE_PERCENTAGE)
            ;
        }
        let volume = self.tags[ti].accumulated_volume;
        let fees = self.tags[ti].collected_fees;
        self.tags[ti] = TagRecord {
            tag: clone_bytes(&user_tag),
            fee_percent: Some(fee_percent),
            accumulated_volume: volume,
            collected_fees: fees,
        };
        proof {
            self.lemma_tag_update_frame(prev, ti as int, user_tag@);
            assert(self.tagv() =~= prev.update(ti as int, self.tagv()[ti as int]));
            lemma_sum_fees_update(prev, ti as int, self.tagv()[ti as int]);
            assert(forall|j: int| 0 <= j < prev.len() ==> prev[j] == old(self).tagv()[j]);
            assert forall|j: int|
                0 <= j < self.tagv().len() implies (#[trigger] self.tagv()[j].fee_percent matches
            Some(p) ==> p < MAX_FEE_PERCENTAGE) by {
                if j != ti as int {
                    assert(self.tagv()[j] == prev[j]);
                }
            }
            assert forall|k: int| 0 <= k < self.userv().len() implies self.tag_registered(
                #[trigger] self.userv()[k].tag,
            ) by {
                let ut = self.userv()[k].tag;
                assert(old(self).tag_registered(ut));
                if ut != user_tag@ {
                    assert(tag_record(self.tagv(), ut) == tag_record(prev, ut));
                }
            }
        }
        Ok(tier_name)
    }

    /// Pays the caller's accumulated referral fees out of the contract's
    /// wrapped-token holding and resets them to zero.
    pub fn claim_referral_fees(
        &mut self,
        access: &AccessControl,
        caller: u64,
        config: &mut ConfigModule,
    ) -> (r: Result<Payment, Error>)
        requires
            old(self).wf(),
            old(config).wf(),
        ensures
            final(self).wf(),
            final(config).wf(),
            !access.is_active() ==> r == Err::<Payment, Error>(Error::NotActive) && *final(self)
                == *old(self) && *final(config) == *old(config),
            access.is_active() && old(self).user_tag(caller) is None ==> r == Err::<Payment, Error>(
                Error::NotATagOwner,
            ) && *final(self) == *old(self) && *final(config) == *old(config),
            access.is_active() ==> (old(self).user_tag(caller) matches Some(t) ==> (old(
                self,
            ).tag_fees(t) == 0 ==> r == Err::<Payment, Error>(Error::NoFeesToClaim) && *final(self)
                == *old(self) && *final(config) == *old(config))),
            access.is_active() ==> (old(self).user_tag(caller) matches Some(t) ==> (old(
                self,
            ).tag_fees(t) > 0 && old(self).tag_fees(t) > old(config).bal(old(config).wrapped_token@)
                ==> r == Err::<Payment, Error>(Error::InsufficientBalance) && *final(self) == *old(
                self,
            ) && *final(config) == *old(config))),
            access.is_active() ==> (old(self).user_tag(caller) matches Some(t) ==> (old(
                self,
            ).tag_fees(t) > 0 && old(self).tag_fees(t) <= old(config).bal(
                old(config).wrapped_token@,
            ) ==> {
                let fees = old(self).tag_fees(t);
                &&& r matches Ok(p) && p@ == (PaymentV {
                    token_identifier: old(config).wrapped_token@,
                    token_nonce: 0u64,
                    amount: fees,
                })
                &&& final(self).tag_fees(t) == 0
                &&& final(self).tag_percent(t) == old(self).tag_percent(t)
                &&& final(self).tag_registered(t)
                &&& final(self).tag_volume(t) == old(self).tag_volume(t)
                &&& forall|t2: Seq<u8>|
                    t2 != t ==> tag_record(final(self).tagv(), t2) == tag_record(
                        old(self).tagv(),
                        t2,
                    )
                &&& final(self).userv() == old(self).userv()
                &&& final(self).tierv() == old(self).tierv()
                &&& final(config).bal(old(config).wrapped_token@) == old(config).bal(
                    old(config).wrapped_token@,
                ) - fees
                &&& forall|t2: Seq<u8>|
                    t2 != old(config).wrapped_token@ ==> final(config).bal(t2) == old(config).bal(t2)
                &&& *final(config) == (ConfigModule {
                    balances: final(config).balances,
                    ..*old(config)
                })
            })),
    {
        if let Err(e) = access.require_state_active() {
            return Err(e);
        }
        let ui = match self.find_user(caller) {
            Some(ui) => ui,
            None => {
                return Err(Error::NotATagOwner);
            },
        };
        let user_tag = clone_bytes(&self.user_tags[ui].tag);
        proof {
            lemma_user_index(self.userv(), caller);
            assert(self.userv()[ui as int] == self.user_tags@[ui as int]@);
        }
        let amount = self.collected_tag_fees(&user_tag);
        if amount == 0 {
            return Err(Error::NoFeesToClaim);
        }
        let wrapped = clone_bytes(&config.wrapped_token);
        if amount > config.balance_of(&wrapped) {
            return Err(Error::InsufficientBalance);
        }
        config.debit(&wrapped, amount);
        // fees are positive, so the record exists
        let ti = match self.find_tag(&user_tag) {
            Some(ti) => ti,
            None => {
                proof {
                    assert(false);
                }
                0
            },
        };
        let ghost prev = self.tagv();
        proof {
            lemma_tag_index(prev, user_tag@);
        }
        let percent = self.tags[ti].fee_percent;
        let volume = self.tags[ti].accumulated_volume;
        self.tags[ti] = TagRecord {
            tag: clone_bytes(&user_tag),
            fee_percent: percent,
            accumulated_volume: volume,
            collected_fees: 0,
        };
        proof {
            self.lemma_tag_update_frame(prev, ti as int, user_tag@);
            assert(self.tagv() =~= prev.update(ti as int, self.tagv()[ti as int]));
            lemma_sum_fees_update(prev, ti as int, self.tagv()[ti as int]);
            assert(forall|j: int| 0 <= j < prev.len() ==> prev[j] == old(self).tagv()[j]);
            assert forall|j: int|
                0 <= j < self.tagv().len() implies (#[trigger] self.tagv()[j].fee_percent matches
            Some(p) ==> p < MAX_FEE_PERCENTAGE) by {
                if j != ti as int {
                    assert(self.tagv()[j] == prev[j]);
                }
            }
            assert forall|k: int| 0 <= k < self.userv().len() implies self.tag_registered(
                #[trigger] self.userv()[k].tag,
            ) by {
                let ut = self.userv()[k].tag;
                assert(old(self).tag_registered(ut));
                if ut != user_tag@ {
                    assert(tag_record(self.tagv(), ut) == tag_record(prev, ut));
                }
            }
        }
        Ok(Payment::new(wrapped, 0, amount))
    }

    /// Forcibly removes the tag bound to `user_address`, paying any unclaimed
    /// fees out to that address first, then clearing all its state, volume
    /// included.
    pub fn remove_referral_tag(
        &mut self,
        access: &AccessControl,
        caller: u64,
        user_address: u64,
        config: &mut ConfigModule,
    ) -> (r: Result<Option<Payment>, Error>)
        requires
            old(self).wf(),
            old(config).wf(),
        ensures
            final(self).wf(),
            final(config).wf(),
            !access.has_owner_or_admin(caller) ==> r == Err::<Option<Payment>, Error>(
                Error::Unauthorized,
            ) && *final(self) == *old(self) && *final(config) == *old(config),
            access.has_owner_or_admin(caller) && old(self).user_tag(user_address) is None ==> r
                == Err::<Option<Payment>, Error>(Error::NotATagOwner) && *final(self) == *old(self)
                && *final(config) == *old(config),
            access.has_owner_or_admin(caller) ==> (old(self).user_tag(user_address) matches Some(t)
                ==> (old(self).tag_fees(t) > old(config).bal(old(config).wrapped_token@) ==> r
                == Err::<Option<Payment>, Error>(Error::InsufficientBalance) && *final(self) == *old(
                self,
            ) && *final(config) == *old(config))),
            access.has_owner_or_admin(caller) ==> (old(self).user_tag(user_address) matches Some(t)
                ==> (old(self).tag_fees(t) <= old(config).bal(old(config).wrapped_token@) ==> {
                let fees = old(self).tag_fees(t);
                &&& r matches Ok(po)
                &&& fees > 0 ==> (po matches Some(p) && p@ == (PaymentV {
                    token_identifier: old(config).wrapped_token@,
                    token_nonce: 0u64,
                    amount: fees,
                }))
                &&& fees == 0 ==> po is None
                &&& tag_record(final(self).tagv(), t) is None
                &&& final(self).user_tag(user_address) is None
                &&& forall|t2: Seq<u8>|
                    t2 != t ==> tag_record(final(self).tagv(), t2) == tag_record(
                        old(self).tagv(),
                        t2,
                    )
                &&& forall|u: u64|
                    u != user_address ==> final(self).user_tag(u) == old(self).user_tag(u)
                &&& final(self).tierv() == old(self).tierv()
                &&& final(config).bal(old(config).wrapped_token@) == old(config).bal(
                    old(config).wrapped_token@,
                ) - fees
                &&& forall|t2: Seq<u8>|
                    t2 != old(config).wrapped_token@ ==> final(config).bal(t2) == old(config).bal(t2)
                &&& *final(config) == (ConfigModule {
                    balances: final(config).balances,
                    ..*old(config)
                })
            })),
    {
        if let Err(e) = access.require_caller_has_owner_or_admin_permissions(caller) {
            return Err(e);
        }
        let ui = match self.find_user(user_address) {
            Some(ui) => ui,
            None => {
                return Err(Error::NotATagOwner);
            },
        };
        let user_tag = clone_bytes(&self.user_tags[ui].tag);
        proof {
            lemma_user_index(self.userv(), user_address);
            assert(self.userv()[ui as int] == self.user_tags@[ui as int]@);
        }
        let collected_amount = self.collected_tag_fees(&user_tag);
        let wrapped = clone_bytes(&config.wrapped_token);
        if collected_amount > config.balance_of(&wrapped) {
            return Err(Error::InsufficientBalance);
        }
        let payout = if collected_amount > 0 {
            config.debit(&wrapped, collected_amount);
            Some(Payment::new(wrapped, 0, collected_amount))
        } else {
            None
        };
        // the bound tag is registered, so its record exists
        let ti = match self.find_tag(&user_tag) {
            Some(ti) => ti,
            None => {
                proof {
                    assert(old(self).tag_registered(user_tag@));
                    assert(false);
                }
                0
            },
        };
        let ghost prev = self.tagv();
        let ghost prev_users = self.userv();
        proof {
            lemma_tag_index(prev, user_tag@);
            lemma_user_index(prev_users, user_address);
        }
        self.tags.remove(ti);
        self.user_tags.remove(ui);
        proof {
            assert(self.tagv() =~= prev.remove(ti as int));
            lemma_sum_fees_remove(prev, ti as int);
            assert(self.userv() =~= prev_users.remove(ui as int));
            assert(forall|j: int| 0 <= j < prev.len() ==> prev[j] == old(self).tagv()[j]);
            assert(forall|k: int| 0 <= k < prev_users.len() ==> prev_users[k] == old(
                self,
            ).userv()[k]);
            lemma_unique_tags_remove(prev, ti as int);
            assert forall|a: int, b: int| 0 <= a < b < self.userv().len() implies self.userv()[a].user
                != self.userv()[b].user by {
                let a0 = if a < ui as int {
                    a
                } else {
                    a + 1
                };
                let b0 = if b < ui as int {
                    b
                } else {
                    b + 1
                };
                assert(self.userv()[a] == prev_users[a0]);
                assert(self.userv()[b] == prev_users[b0]);
            }
            assert forall|a: int, b: int| 0 <= a < b < self.userv().len() implies self.userv()[a].tag
                != self.userv()[b].tag by {
                let a0 = if a < ui as int {
                    a
                } else {
                    a + 1
                };
                let b0 = if b < ui as int {
                    b
                } else {
                    b + 1
                };
                assert(self.userv()[a] == prev_users[a0]);
                assert(self.userv()[b] == prev_users[b0]);
            }
            assert forall|t2: Seq<u8>| t2 != user_tag@ implies tag_record(self.tagv(), t2)
                == tag_record(prev, t2) by {
                lemma_tag_record_remove(prev, ti as int, t2);
            }
            // the removed tag's record is gone
            lemma_tag_index(self.tagv(), user_tag@);
            if tag_index(self.tagv(), user_tag@) >= 0 {
                let i2 = tag_index(self.tagv(), user_tag@);
                let k = if i2 < ti as int {
                    i2
                } else {
                    i2 + 1
                };
                assert(self.tagv()[i2] == prev[k]);
                assert(false);
            }
            // the removed user's binding is gone
            lemma_user_index(self.userv(), user_address);
            if user_index(self.userv(), user_address) >= 0 {
                let i2 = user_index(self.userv(), user_address);
                let k = if i2 < ui as int {
                    i2
                } else {
                    i2 + 1
                };
                assert(self.userv()[i2] == prev_users[k]);
                assert(false);
            }
            assert forall|u: u64| u != user_address implies self.user_tag(u) == user_tag_of(
                prev_users,
                u,
            ) by {
                lemma_user_tag_remove(prev_users, ui as int, u);
            }
            assert forall|k: int| 0 <= k < self.userv().len() implies self.tag_registered(
                #[trigger] self.userv()[k].tag,
            ) by {
                let k0 = if k < ui as int {
                    k
                } else {
                    k + 1
                };
                assert(self.userv()[k] == prev_users[k0]);
                let ut = prev_users[k0].tag;
                assert(old(self).tag_registered(ut));
                assert(ut != user_tag@);
                assert(tag_record(self.tagv(), ut) == tag_record(prev, ut));
            }
        }
        Ok(payout)
    }

    /// The well-formedness bookkeeping common to both registration paths:
    /// after binding `caller` to `tag` and making `tag`'s record registered
    /// with a capped fee share, the module is well-formed again.
    proof fn lemma_register_wf(
        &self,
        prev: Seq<TagRecordV>,
        prev_users: Seq<UserTagV>,
        tag: Seq<u8>,
        caller: u64,
        bindingv: UserTagV,
    )
        requires
            bindingv == (UserTagV { user: caller, tag }),
            sum_fees(self.tagv()) <= self.fees_carved@,
            self.userv() == prev_users.push(bindingv),
            unique_tags(self.tagv()),
            unique_users(self.userv()),
            unique_tier_names(self.tierv()),
            forall|i: int|
                0 <= i < self.tierv().len() ==> #[trigger] self.tierv()[i].fee_percent
                    < MAX_FEE_PERCENTAGE,
            forall|k: int|
                0 <= k < prev_users.len() ==> registered_in(prev, #[trigger] prev_users[k].tag),
            forall|a: int, b: int|
                0 <= a < b < prev_users.len() ==> prev_users[a].tag != prev_users[b].tag,
            !registered_in(prev, tag),
            registered_in(self.tagv(), tag),
            forall|t: Seq<u8>| t != tag ==> tag_record(self.tagv(), t) == tag_record(prev, t),
            forall|j: int|
                0 <= j < self.tagv().len() ==> (#[trigger] self.tagv()[j].fee_percent matches Some(p)
                    ==> p < MAX_FEE_PERCENTAGE),
        ensures
            self.wf(),
    {
        assert forall|k: int| 0 <= k < self.userv().len() implies self.tag_registered(
            #[trigger] self.userv()[k].tag,
        ) by {
            if k < prev_users.len() {
                assert(self.userv()[k] == prev_users[k]);
                let ut = prev_users[k].tag;
                assert(registered_in(prev, ut));
                assert(ut != tag);
                assert(tag_record(self.tagv(), ut) == tag_record(prev, ut));
            } else {
                assert(self.userv()[k] == bindingv);
            }
        }
        assert forall|a: int, b: int| 0 <= a < b < self.userv().len() implies self.userv()[a].tag
            != self.userv()[b].tag by {
            if b < prev_users.len() {
                assert(self.userv()[a] == prev_users[a]);
                assert(self.userv()[b] == prev_users[b]);
            } else {
                assert(self.userv()[b] == bindingv);
                assert(self.userv()[a] == prev_users[a]);
                assert(registered_in(prev, prev_users[a].tag));
            }
        }
    }
}

/// The condition under which `register_referral_tag` fails, and how, on a
/// given engine state.
pub open spec fn register_error(
    m: ReferralModule,
    active: bool,
    caller: u64,
    tag: Seq<u8>,
) -> Option<Error> {
    if !active {
        Some(Error::NotActive)
    } else if m.tag_registered(tag) {
        Some(Error::TagAlreadyRegistered)
    } else if m.user_tag(caller) is Some {
        Some(Error::UserAlreadyOwnsTag)
    } else if m.tierv().len() == 0 {
        Some(Error::TiersNotSet)
    } else if zero_tier_count(m.tierv()) != 1 {
        Some(Error::NoBaseTier)
    } else {
        None
    }
}

/// Registering a tag twice always fails: once a state carries a registered
/// tag and a bound caller — exactly what a successful
/// `register_referral_tag` ensures — any further registration of that tag,
/// or by that caller, meets a failure condition of `register_error`.
pub proof fn lemma_register_twice_fails(
    m: ReferralModule,
    active: bool,
    caller: u64,
    tag: Seq<u8>,
    caller2: u64,
    tag2: Seq<u8>,
)
    requires
        m.tag_registered(tag),
        m.user_tag(caller) is Some,
    ensures
        tag2 == tag || caller2 == caller ==> register_error(m, active, caller2, tag2) is Some,
{
}

/// Once a tag's owner is unbound — exactly what `remove_referral_tag`
/// ensures — the owner's collected fee reads as zero.
pub proof fn lemma_removed_tag_reads_zero(m: ReferralModule, user: u64)
    requires
        m.user_tag(user) is None,
    ensures
        (match m.user_tag(user) {
            Some(t) => m.tag_fees(t),
            None => 0u128,
        }) == 0,
{
}

/// A tier list without a zero tier counts zero.
pub proof fn lemma_zero_count_zero(s: Seq<TierDetailsV>)
    requires
        forall|j: int| 0 <= j < s.len() ==> #[trigger] s[j].min_volume != 0,
    ensures
        zero_tier_count(s) == 0,
    decreases s.len(),
{
    if s.len() > 0 {
        assert(forall|j: int| 0 <= j < s.len() - 1 ==> s.drop_last()[j] == s[j]);
        lemma_zero_count_zero(s.drop_last());
    }
}

} // verus!
