use vstd::prelude::*;
use crate::store::{
    applied, has_user, is_listing, upsert_error, upserted, vaults_of, without_user, ChangeView,
};
use crate::vault_types::{KeyView, VaultData, VaultDataView, VaultId};

verus! {

/// An upsert made twice leaves the store as the upsert made once does.
pub proof fn lemma_upsert_idempotent(
    vaults: Map<KeyView, VaultDataView>,
    key: KeyView,
    data: VaultDataView,
)
    ensures
        upserted(upserted(vaults, key, data), key, data) == upserted(vaults, key, data),
{
    assert(upserted(upserted(vaults, key, data), key, data) =~= upserted(vaults, key, data));
}

/// Upserts under different keys give the same store in either order.
pub proof fn lemma_upserts_commute(
    vaults: Map<KeyView, VaultDataView>,
    k1: KeyView,
    d1: VaultDataView,
    k2: KeyView,
    d2: VaultDataView,
)
    requires
        k1 != k2,
    ensures
        upserted(upserted(vaults, k1, d1), k2, d2) == upserted(upserted(vaults, k2, d2), k1, d1),
{
    assert(upserted(upserted(vaults, k1, d1), k2, d2) =~= upserted(
        upserted(vaults, k2, d2),
        k1,
        d1,
    ));
}

/// An accepted upsert puts the vault among those of its owner, under its
/// id.
pub proof fn lemma_upsert_is_listed(
    vaults: Map<KeyView, VaultDataView>,
    key: KeyView,
    data: VaultDataView,
)
    requires
        upsert_error(key, data) is None,
    ensures
        vaults_of(upserted(vaults, key, data), key.0) == vaults_of(vaults, key.0).insert(
            key.1,
            data,
        ),
{
    let lhs = vaults_of(upserted(vaults, key, data), key.0);
    let rhs = vaults_of(vaults, key.0).insert(key.1, data);
    assert forall|v: Seq<char>| lhs.dom().contains(v) == rhs.dom().contains(v) by {
        assert(((key.0, v) == key) == (v == key.1));
    }
    assert(lhs =~= rhs);
}

/// An upsert for one owner changes nothing among the vaults of another.
pub proof fn lemma_upsert_keeps_other_users(
    vaults: Map<KeyView, VaultDataView>,
    key: KeyView,
    data: VaultDataView,
    user: Seq<char>,
)
    requires
        key.0 != user,
    ensures
        vaults_of(upserted(vaults, key, data), user) == vaults_of(vaults, user),
{
    assert(vaults_of(upserted(vaults, key, data), user) =~= vaults_of(vaults, user));
}

/// After the vaults of an owner are cleared, the owner has none left and
/// does not exist in the store.
pub proof fn lemma_clear_leaves_none(vaults: Map<KeyView, VaultDataView>, user: Seq<char>)
    ensures
        vaults_of(without_user(vaults, user), user) == (Map::<Seq<char>, VaultDataView>::empty()),
        !has_user(without_user(vaults, user), user),
{
    assert(vaults_of(without_user(vaults, user), user) =~= Map::<Seq<char>, VaultDataView>::empty());
}

/// Clearing the vaults of one owner changes nothing among those of
/// another.
pub proof fn lemma_clear_keeps_other_users(
    vaults: Map<KeyView, VaultDataView>,
    user: Seq<char>,
    other: Seq<char>,
)
    requires
        other != user,
    ensures
        vaults_of(without_user(vaults, user), other) == vaults_of(vaults, other),
{
    assert(vaults_of(without_user(vaults, user), other) =~= vaults_of(vaults, other));
}

/// The listing of an owner without vaults is empty.
pub proof fn lemma_listing_of_nothing(list: Seq<(VaultId, VaultData)>)
    requires
        is_listing(Map::<Seq<char>, VaultDataView>::empty(), list),
    ensures
        list.len() == 0,
{
    if list.len() > 0 {
        assert(Map::<Seq<char>, VaultDataView>::empty().dom().contains(list[0].0@));
    }
}

/// A listing names each vault once: two positions of it never hold the
/// same vault id.
pub proof fn lemma_listing_has_no_repeats(
    vaults: Map<Seq<char>, VaultDataView>,
    list: Seq<(VaultId, VaultData)>,
    i: int,
    j: int,
)
    requires
        is_listing(vaults, list),
        0 <= i < j < list.len(),
    ensures
        list[i].0@ != list[j].0@,
{
    crate::byte_order::lemma_bytes_lt_irreflexive(vstd::utf8::encode_utf8(list[i].0@));
}

/// Two listings of the same vaults agree on the ids of their first `n`
/// positions.
proof fn lemma_listings_agree_up_to(
    vaults: Map<Seq<char>, VaultDataView>,
    l1: Seq<(VaultId, VaultData)>,
    l2: Seq<(VaultId, VaultData)>,
    n: int,
)
    requires
        is_listing(vaults, l1),
        is_listing(vaults, l2),
        0 <= n <= l1.len(),
        n <= l2.len(),
    ensures
        forall|i: int| 0 <= i < n ==> (#[trigger] l1[i]).0@ == l2[i].0@,
    decreases n,
{
    if n > 0 {
        let m = n - 1;
        lemma_listings_agree_up_to(vaults, l1, l2, m);
        let a = l1[m].0@;
        let b = l2[m].0@;
        assert(vaults.dom().contains(a));
        assert(vaults.dom().contains(b));
        let j = choose|j: int| 0 <= j < l2.len() && (#[trigger] l2[j]).0@ == a;
        let k = choose|k: int| 0 <= k < l1.len() && (#[trigger] l1[k]).0@ == b;
        if j < m {
            assert(l1[j].0@ == l2[j].0@);
            lemma_listing_has_no_repeats(vaults, l1, j, m);
        } else if k < m {
            assert(l1[k].0@ == l2[k].0@);
            lemma_listing_has_no_repeats(vaults, l2, k, m);
        } else if j > m && k > m {
            crate::byte_order::lemma_bytes_lt_asymmetric(
                vstd::utf8::encode_utf8(a),
                vstd::utf8::encode_utf8(b),
            );
        }
    }
}

/// The vaults of an owner have one listing only: two listings of the same
/// vaults have the same length and hold, at each position, the same vault
/// id with the same vault.
pub proof fn lemma_listing_is_unique(
    vaults: Map<Seq<char>, VaultDataView>,
    l1: Seq<(VaultId, VaultData)>,
    l2: Seq<(VaultId, VaultData)>,
)
    requires
        is_listing(vaults, l1),
        is_listing(vaults, l2),
    ensures
        l1.len() == l2.len(),
        forall|i: int|
            0 <= i < l1.len() ==> (#[trigger] l1[i]).0@ == l2[i].0@ && l1[i].1@ == l2[i].1@,
{
    if l1.len() < l2.len() {
        let n = l1.len() as int;
        lemma_listings_agree_up_to(vaults, l1, l2, n);
        assert(vaults.dom().contains(l2[n].0@));
        let k = choose|k: int| 0 <= k < l1.len() && (#[trigger] l1[k]).0@ == l2[n].0@;
        assert(l1[k].0@ == l2[k].0@);
        lemma_listing_has_no_repeats(vaults, l2, k, n);
    } else if l2.len() < l1.len() {
        let n = l2.len() as int;
        lemma_listings_agree_up_to(vaults, l1, l2, n);
        assert(vaults.dom().contains(l1[n].0@));
        let k = choose|k: int| 0 <= k < l2.len() && (#[trigger] l2[k]).0@ == l1[n].0@;
        assert(l1[k].0@ == l2[k].0@);
        lemma_listing_has_no_repeats(vaults, l1, k, n);
    } else {
        lemma_listings_agree_up_to(vaults, l1, l2, l1.len() as int);
        assert forall|i: int| 0 <= i < l1.len() implies (#[trigger] l1[i]).0@ == l2[i].0@
            && l1[i].1@ == l2[i].1@ by {
            assert(vaults[l2[i].0@] == l2[i].1@);
        }
    }
}

/// A batch with one more entry is the batch, then the upsert of that
/// entry.
pub proof fn lemma_batch_step(
    vaults: Map<KeyView, VaultDataView>,
    changes: Seq<ChangeView>,
    last: ChangeView,
)
    ensures
        applied(vaults, changes.push(last)) == upserted(
            applied(vaults, changes),
            (last.0, last.1),
            last.2,
        ),
{
    assert(changes.push(last).drop_last() =~= changes);
}

/// The last accepted entry of a batch decides what its key holds.
pub proof fn lemma_last_write_wins(
    vaults: Map<KeyView, VaultDataView>,
    changes: Seq<ChangeView>,
    last: ChangeView,
)
    requires
        upsert_error((last.0, last.1), last.2) is None,
    ensures
        applied(vaults, changes.push(last)).dom().contains((last.0, last.1)),
        applied(vaults, changes.push(last))[(last.0, last.1)] == last.2,
{
    lemma_batch_step(vaults, changes, last);
}

/// A batch that writes one key twice leaves the store as the second write
/// alone does.
pub proof fn lemma_batch_of_two_writes(
    vaults: Map<KeyView, VaultDataView>,
    key: KeyView,
    d1: VaultDataView,
    d2: VaultDataView,
)
    requires
        upsert_error(key, d1) is None,
        upsert_error(key, d2) is None,
    ensures
        applied(vaults, seq![(key.0, key.1, d1), (key.0, key.1, d2)]) == upserted(
            vaults,
            key,
            d2,
        ),
{
    let one = seq![(key.0, key.1, d1)];
    let two = seq![(key.0, key.1, d1), (key.0, key.1, d2)];
    assert(two =~= one.push((key.0, key.1, d2)));
    assert(one =~= Seq::<ChangeView>::empty().push((key.0, key.1, d1)));
    lemma_batch_step(vaults, one, (key.0, key.1, d2));
    lemma_batch_step(vaults, Seq::<ChangeView>::empty(), (key.0, key.1, d1));
    assert(applied(vaults, Seq::<ChangeView>::empty()) == vaults);
    assert((key.0, key.1) == key);
    assert(upserted(upserted(vaults, key, d1), key, d2) =~= upserted(vaults, key, d2));
}

} // verus!
