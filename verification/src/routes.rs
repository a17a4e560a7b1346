use vstd::prelude::*;

use crate::data_storage::{
    Group,
    Storage,
    clone_item,
    contains_head,
    head_at,
    range_items,
    range_removed,
    lemma_stored_groups_valid,
    lemma_range_of_valid_items,
    lemma_valid_scan_defined,
    lemma_contains_head_meaning,
    items_valid,
};
use crate::globals::{Failure, Fault};

verus! {

/// The refusal of a request that lacks the secret key.
pub open spec fn unauthorized() -> Failure {
    Failure { status: 401, fault: Fault::Unauthorized }
}

/// No stored group is empty.
pub open spec fn no_empty_group(m: Map<Seq<char>, Seq<Seq<String>>>) -> bool {
    forall|k: Seq<char>| #[trigger] m.contains_key(k) ==> m[k].len() > 0
}

/// A store has no empty group exactly when every name it holds leads to
/// a group with at least one item.
pub proof fn lemma_no_empty_group_meaning(m: Map<Seq<char>, Seq<Seq<String>>>)
    ensures
        no_empty_group(m) <==> forall|k: Seq<char>| m.contains_key(k) ==> #[trigger] m[k].len() > 0,
{
}

/// The answer to `GET /`: 200, or 401 without the secret key.
pub fn get_status(authorized: bool) -> (status: u16)
    ensures
        status == if authorized {
            200u16
        } else {
            401u16
        },
{
    if authorized {
        200
    } else {
        401
    }
}

/// The answer to `GET /all`: the names of all groups, each once.
pub fn get_names(storage: &Storage, authorized: bool) -> (r: Result<Vec<String>, Failure>)
    requires
        storage.wf(),
    ensures
        !authorized ==> r == Err::<Vec<String>, Failure>(unauthorized()),
        authorized && storage@.len() == 0 ==> r == Err::<Vec<String>, Failure>(
            Failure { status: 404, fault: Fault::ZeroGroups },
        ),
        authorized && storage@.len() > 0 ==> r is Ok,
        r matches Ok(list) ==> {
            &&& list@.len() == storage@.len()
            &&& forall|i: int| 0 <= i < list@.len() ==> storage@.contains_key(#[trigger] list@[i]@)
            &&& forall|k: Seq<char>|
                #[trigger] storage@.contains_key(k) ==> exists|i: int|
                    0 <= i < list@.len() && #[trigger] list@[i]@ == k
            &&& forall|i: int, j: int|
                0 <= i < j < list@.len() ==> #[trigger] list@[i]@ != #[trigger] list@[j]@
        },
{
    if !authorized {
        return Err(Failure { status: 401, fault: Fault::Unauthorized });
    }
    if storage.is_empty() {
        return Err(Failure { status: 404, fault: Fault::ZeroGroups });
    }
    Ok(storage.names())
}

/// A whole group as `GET /r/{name}` answers it: 206 with no item where
/// the group is empty, else 200 with all its items.
pub struct Listing {
    pub status: u16,
    pub items: Vec<Vec<String>>,
}

fn copy_items(group: &Group) -> (items: Vec<Vec<String>>)
    ensures
        items@.map_values(|v: Vec<String>| v@) == group@,
{
    let mut list: Vec<Vec<String>> = Vec::new();
    let mut i: usize = 0;
    while i < group.data.len()
        invariant
            0 <= i <= group.data.len(),
            list@.len() == i,
            forall|j: int| 0 <= j < i ==> #[trigger] list@[j]@ == group.data@[j]@,
        decreases group.data.len() - i,
    {
        list.push(clone_item(&group.data[i]));
        i = i + 1;
    }
    assert(list@.map_values(|v: Vec<String>| v@) =~= group@);
    list
}

/// The answer to `GET /r/{name}`.
pub fn get_group(storage: &Storage, authorized: bool, name: &String) -> (r: Result<Listing, Failure>)
    requires
        storage.wf(),
    ensures
        !authorized ==> r == Err::<Listing, Failure>(unauthorized()),
        authorized && storage@.len() == 0 ==> r == Err::<Listing, Failure>(
            Failure { status: 403, fault: Fault::ZeroGroups },
        ),
        authorized && storage@.len() > 0 && !storage@.contains_key(name@) ==> r == Err::<
            Listing,
            Failure,
        >(Failure { status: 404, fault: Fault::GroupNotFound }),
        authorized && storage@.contains_key(name@) ==> r is Ok,
        r matches Ok(listing) ==> {
            &&& listing.items@.map_values(|v: Vec<String>| v@) == storage@[name@]
            &&& listing.status == if storage@[name@].len() == 0 {
                206u16
            } else {
                200u16
            }
        },
{
    if !authorized {
        return Err(Failure { status: 401, fault: Fault::Unauthorized });
    }
    if storage.is_empty() {
        return Err(Failure { status: 403, fault: Fault::ZeroGroups });
    }
    let the_group = match storage.group(name) {
        Some(g) => g,
        None => {
            return Err(Failure { status: 404, fault: Fault::GroupNotFound });
        },
    };
    if the_group.is_empty() {
        let items: Vec<Vec<String>> = Vec::new();
        assert(items@.map_values(|v: Vec<String>| v@) =~= the_group@);
        Ok(Listing { status: 206, items })
    } else {
        Ok(Listing { status: 200, items: copy_items(the_group) })
    }
}

/// The answer to `GET /r/{name}/size`: the status (206 where the count
/// reads zero, else 200) and the number of items, as a `u32`.
pub fn get_group_size(storage: &Storage, authorized: bool, name: &String) -> (r: Result<
    (u16, u32),
    Failure,
>)
    requires
        storage.wf(),
    ensures
        !authorized ==> r == Err::<(u16, u32), Failure>(unauthorized()),
        authorized && storage@.len() == 0 ==> r == Err::<(u16, u32), Failure>(
            Failure { status: 403, fault: Fault::ZeroGroups },
        ),
        authorized && storage@.len() > 0 && !storage@.contains_key(name@) ==> r == Err::<
            (u16, u32),
            Failure,
        >(Failure { status: 404, fault: Fault::GroupNotFound }),
        authorized && storage@.contains_key(name@) ==> r == Ok::<(u16, u32), Failure>(
            (
                if storage@[name@].len() as u32 == 0 {
                    206u16
                } else {
                    200u16
                },
                storage@[name@].len() as u32,
            ),
        ),
{
    if !authorized {
        return Err(Failure { status: 401, fault: Fault::Unauthorized });
    }
    if storage.is_empty() {
        return Err(Failure { status: 403, fault: Fault::ZeroGroups });
    }
    let the_group = match storage.group(name) {
        Some(g) => g,
        None => {
            return Err(Failure { status: 404, fault: Fault::GroupNotFound });
        },
    };
    let the_size = the_group.get_size() as u32;
    let status_code: u16 = if the_size == 0 {
        206
    } else {
        200
    };
    Ok((status_code, the_size))
}

/// The answer to `GET /r/{name}/s/{index}`: a copy of one item.
pub fn get_index(storage: &Storage, authorized: bool, name: &String, index: usize) -> (r: Result<
    Vec<String>,
    Failure,
>)
    requires
        storage.wf(),
    ensures
        !authorized ==> r == Err::<Vec<String>, Failure>(unauthorized()),
        authorized && storage@.len() == 0 ==> r == Err::<Vec<String>, Failure>(
            Failure { status: 403, fault: Fault::ZeroGroups },
        ),
        authorized && storage@.len() > 0 && !storage@.contains_key(name@) ==> r == Err::<
            Vec<String>,
            Failure,
        >(Failure { status: 403, fault: Fault::GroupNotFound }),
        authorized && storage@.contains_key(name@) && storage@[name@].len() == 0 ==> r == Err::<
            Vec<String>,
            Failure,
        >(Failure { status: 403, fault: Fault::GroupEmpty }),
        authorized && storage@.contains_key(name@) && 0 < storage@[name@].len() <= index ==> r
            == Err::<Vec<String>, Failure>(Failure { status: 404, fault: Fault::ItemNotFound }),
        authorized && storage@.contains_key(name@) && index < storage@[name@].len() ==> r is Ok,
        r matches Ok(item) ==> item@ == storage@[name@][index as int],
{
    if !authorized {
        return Err(Failure { status: 401, fault: Fault::Unauthorized });
    }
    if storage.is_empty() {
        return Err(Failure { status: 403, fault: Fault::ZeroGroups });
    }
    let the_group = match storage.group(name) {
        Some(g) => g,
        None => {
            return Err(Failure { status: 403, fault: Fault::GroupNotFound });
        },
    };
    if the_group.is_empty() {
        return Err(Failure { status: 403, fault: Fault::GroupEmpty });
    }
    proof {
        lemma_stored_groups_valid(storage, name@);
    }
    let the_item = the_group.get(index);
    if the_item.len() == 0 {
        Err(Failure { status: 404, fault: Fault::ItemNotFound })
    } else {
        Ok(the_item)
    }
}

/// The answer to `GET /r/{name}/s/{index}/{qtty}`: copies of the items
/// from `index` on (`qtty` of them, or all the rest where `qtty` is zero).
pub fn get_range(storage: &mut Storage, authorized: bool, name: &String, index: usize, qtty: usize) -> (r:
    Result<Vec<Vec<String>>, Failure>)
    requires
        old(storage).wf(),
    ensures
        final(storage).wf(),
        final(storage)@ == old(storage)@,
        !authorized ==> r == Err::<Vec<Vec<String>>, Failure>(unauthorized()),
        authorized && old(storage)@.len() == 0 ==> r == Err::<Vec<Vec<String>>, Failure>(
            Failure { status: 403, fault: Fault::ZeroGroups },
        ),
        authorized && old(storage)@.len() > 0 && !old(storage)@.contains_key(name@) ==> r == Err::<
            Vec<Vec<String>>,
            Failure,
        >(Failure { status: 403, fault: Fault::GroupNotFound }),
        authorized && old(storage)@.contains_key(name@) && old(storage)@[name@].len() == 0 ==> r
            == Err::<Vec<Vec<String>>, Failure>(Failure { status: 403, fault: Fault::GroupEmpty }),
        authorized && old(storage)@.contains_key(name@) && 0 < old(storage)@[name@].len() <= index
            ==> r == Err::<Vec<Vec<String>>, Failure>(Failure { status: 400, fault: Fault::Slice }),
        authorized && old(storage)@.contains_key(name@) && index < old(storage)@[name@].len() ==> r is Ok,
        r matches Ok(slice) ==> slice@.map_values(|v: Vec<String>| v@) == range_items(
            old(storage)@[name@],
            index as int,
            qtty as int,
        ),
{
    if !authorized {
        return Err(Failure { status: 401, fault: Fault::Unauthorized });
    }
    if storage.is_empty() {
        return Err(Failure { status: 403, fault: Fault::ZeroGroups });
    }
    if !storage.contains_group(name) {
        return Err(Failure { status: 403, fault: Fault::GroupNotFound });
    }
    if group_is_empty(storage, name) {
        return Err(Failure { status: 403, fault: Fault::GroupEmpty });
    }
    proof {
        lemma_stored_groups_valid(storage, name@);
        if index < storage@[name@].len() {
            lemma_range_of_valid_items(storage@[name@], index as int, qtty as int);
        }
    }
    let the_slice = storage.take_range(name, index, qtty, false);
    if the_slice.len() == 0 {
        Err(Failure { status: 400, fault: Fault::Slice })
    } else {
        Ok(the_slice)
    }
}

fn group_is_empty(storage: &Storage, name: &String) -> (b: bool)
    requires
        storage.wf(),
        storage@.contains_key(name@),
    ensures
        b == (storage@[name@].len() == 0),
{
    storage.group(name).unwrap().is_empty()
}

/// The answer to `POST /add-one`: appends `item` to the group `name`,
/// creating the group where there is none; tells whether it was created.
pub fn post_group_addone(storage: &mut Storage, authorized: bool, name: String, item: Vec<String>) -> (r:
    Result<bool, Failure>)
    requires
        old(storage).wf(),
    ensures
        final(storage).wf(),
        no_empty_group(old(storage)@) ==> no_empty_group(final(storage)@),
        !authorized ==> r == Err::<bool, Failure>(unauthorized()),
        authorized && item@.len() == 0 ==> r == Err::<bool, Failure>(
            Failure { status: 403, fault: Fault::ItemNotValid },
        ),
        authorized && item@.len() > 0 && old(storage)@.contains_key(name@) && contains_head(
            old(storage)@[name@],
            item@[0]@,
        ) ==> r == Err::<bool, Failure>(Failure { status: 403, fault: Fault::ItemNotValid }),
        authorized && item@.len() > 0 && old(storage)@.contains_key(name@) && !contains_head(
            old(storage)@[name@],
            item@[0]@,
        ) ==> r == Ok::<bool, Failure>(false) && final(storage)@ == old(storage)@.insert(
            name@,
            old(storage)@[name@].push(item@),
        ),
        authorized && item@.len() > 0 && !old(storage)@.contains_key(name@) ==> r == Ok::<
            bool,
            Failure,
        >(true) && final(storage)@ == old(storage)@.insert(name@, seq![item@]),
        r is Err ==> final(storage)@ == old(storage)@,
{
    if !authorized {
        return Err(Failure { status: 401, fault: Fault::Unauthorized });
    }
    if item.len() == 0 {
        return Err(Failure { status: 403, fault: Fault::ItemNotValid });
    }
    if storage.contains_group(&name) {
        if storage.add_item(&name, item) {
            Ok(false)
        } else {
            assert(storage@ =~= old(storage)@);
            Err(Failure { status: 403, fault: Fault::ItemNotValid })
        }
    } else {
        let ghost v = item@;
        let mut ng: Vec<Vec<String>> = Vec::new();
        ng.push(item);
        let g = Group { data: ng };
        assert(g@ =~= seq![v]);
        storage.insert_group(name, g);
        Ok(true)
    }
}

/// Whether `v` would be appended to a group holding `items`.
pub open spec fn accepts(items: Seq<Seq<String>>, v: Seq<String>) -> bool {
    v.len() > 0 && !contains_head(items, v[0]@)
}

/// A group holding `items` after it was offered `v`.
pub open spec fn offer(items: Seq<Seq<String>>, v: Seq<String>) -> Seq<Seq<String>> {
    if accepts(items, v) {
        items.push(v)
    } else {
        items
    }
}

/// A group holding `items` after it was offered each item of `list`, in order.
pub open spec fn offer_all(items: Seq<Seq<String>>, list: Seq<Seq<String>>) -> Seq<Seq<String>>
    decreases list.len(),
{
    if list.len() == 0 {
        items
    } else {
        offer(offer_all(items, list.drop_last()), list.last())
    }
}

/// For each item of `list`, whether it was appended when offered in order.
pub open spec fn offer_flags(items: Seq<Seq<String>>, list: Seq<Seq<String>>) -> Seq<bool>
    decreases list.len(),
{
    if list.len() == 0 {
        Seq::empty()
    } else {
        offer_flags(items, list.drop_last()).push(
            accepts(offer_all(items, list.drop_last()), list.last()),
        )
    }
}

/// What offering a list of items to a group means, item after item: with
/// nothing offered the group is as it was; offering one more item `v`
/// appends `v` whole where it is non-empty and no item of the group so far
/// begins with the same text as `v`, and otherwise changes nothing; the
/// flags record each such decision in order, and their count of `true` is
/// one more for each appended item.
pub proof fn lemma_offer_meaning(items: Seq<Seq<String>>, list: Seq<Seq<String>>, v: Seq<String>)
    ensures
        offer_all(items, Seq::empty()) == items,
        offer_flags(items, Seq::empty()).len() == 0,
        ({
            let before = offer_all(items, list);
            let taken = v.len() > 0 && !(exists|j: int|
                0 <= j < before.len() && before[j].len() > 0 && #[trigger] before[j][0]@ == v[0]@);
            &&& offer_all(items, list.push(v)) == if taken {
                before.push(v)
            } else {
                before
            }
            &&& offer_flags(items, list.push(v)) == offer_flags(items, list).push(taken)
            &&& count_true(offer_flags(items, list.push(v))) == count_true(offer_flags(items, list))
                + if taken {
                1nat
            } else {
                0nat
            }
        }),
{
    let before = offer_all(items, list);
    assert(list.push(v).drop_last() =~= list);
    lemma_contains_head_meaning(before, if v.len() > 0 { v[0]@ } else { Seq::empty() });
    assert(offer_flags(items, list.push(v)).drop_last() =~= offer_flags(items, list));
}

proof fn lemma_flags_len(items: Seq<Seq<String>>, list: Seq<Seq<String>>)
    ensures
        offer_flags(items, list).len() == list.len(),
    decreases list.len(),
{
    if list.len() > 0 {
        lemma_flags_len(items, list.drop_last());
    }
}

/// The number of `true` in `flags`.
pub open spec fn count_true(flags: Seq<bool>) -> nat
    decreases flags.len(),
{
    if flags.len() == 0 {
        0
    } else {
        count_true(flags.drop_last()) + if flags.last() {
            1nat
        } else {
            0nat
        }
    }
}

proof fn lemma_offer_all_prefix(items: Seq<Seq<String>>, list: Seq<Seq<String>>)
    ensures
        items.len() <= offer_all(items, list).len(),
        offer_all(items, list).subrange(0, items.len() as int) == items,
        count_true(offer_flags(items, list)) == offer_all(items, list).len() - items.len(),
    decreases list.len(),
{
    if list.len() > 0 {
        lemma_offer_all_prefix(items, list.drop_last());
        let before = offer_all(items, list.drop_last());
        assert(offer_flags(items, list).drop_last() =~= offer_flags(items, list.drop_last()));
        if accepts(before, list.last()) {
            assert(before.push(list.last()).subrange(0, items.len() as int) =~= before.subrange(
                0,
                items.len() as int,
            ));
        }
    }
}

proof fn lemma_head_kept(items: Seq<Seq<String>>, more: Seq<Seq<String>>, head: Seq<char>)
    requires
        contains_head(items, head),
        items.len() <= more.len(),
        more.subrange(0, items.len() as int) == items,
    ensures
        contains_head(more, head),
{
    let j = choose|j: int| 0 <= j < items.len() && #[trigger] head_at(items, j, head);
    assert(more.subrange(0, items.len() as int)[j] == more[j]);
    assert(head_at(more, j, head));
}

proof fn lemma_offer_all_refuses_again(items: Seq<Seq<String>>, list: Seq<Seq<String>>)
    ensures
        forall|j: int| 0 <= j < list.len() ==> !#[trigger] accepts(offer_all(items, list), list[j]),
    decreases list.len(),
{
    if list.len() > 0 {
        let d = list.drop_last();
        let before = offer_all(items, d);
        let after = offer_all(items, list);
        lemma_offer_all_refuses_again(items, d);
        assert forall|j: int| 0 <= j < list.len() implies !#[trigger] accepts(after, list[j]) by {
            if j < list.len() - 1 {
                assert(list[j] == d[j]);
                assert(!accepts(before, d[j]));
                if list[j].len() > 0 {
                    if accepts(before, list.last()) {
                        assert(before.push(list.last()).subrange(0, before.len() as int) =~= before);
                    } else {
                        assert(after == before);
                        assert(before.subrange(0, before.len() as int) =~= before);
                    }
                    lemma_head_kept(before, after, list[j][0]@);
                }
            } else {
                if accepts(before, list.last()) {
                    assert(head_at(after, before.len() as int, list.last()[0]@));
                }
            }
        }
    }
}

proof fn lemma_offer_all_refused(items: Seq<Seq<String>>, list: Seq<Seq<String>>)
    requires
        forall|j: int| 0 <= j < list.len() ==> !#[trigger] accepts(items, list[j]),
    ensures
        offer_all(items, list) == items,
        count_true(offer_flags(items, list)) == 0,
    decreases list.len(),
{
    if list.len() > 0 {
        let d = list.drop_last();
        assert forall|j: int| 0 <= j < d.len() implies !#[trigger] accepts(items, d[j]) by {
            assert(d[j] == list[j]);
        }
        lemma_offer_all_refused(items, d);
        assert(!accepts(items, list[list.len() - 1]));
        assert(offer_flags(items, list).drop_last() =~= offer_flags(items, d));
    }
}

/// What `POST /add-mul` reports agrees with what it does: the number of
/// items it reports as appended is the number by which the group grew, the
/// items that were there stay first, and offering the same list again
/// appends nothing.
pub proof fn lemma_offer_report_and_repeat(items: Seq<Seq<String>>, list: Seq<Seq<String>>)
    ensures
        count_true(offer_flags(items, list)) == offer_all(items, list).len() - items.len(),
        offer_all(items, list).subrange(0, items.len() as int) == items,
        offer_all(offer_all(items, list), list) == offer_all(items, list),
        count_true(offer_flags(offer_all(items, list), list)) == 0,
{
    lemma_offer_all_prefix(items, list);
    lemma_offer_all_refuses_again(items, list);
    lemma_offer_all_refused(offer_all(items, list), list);
}

/// What `POST /add-mul` reports where at least one item was appended.
pub struct MulReport {
    /// 200 where every item was appended, else 206.
    pub status: u16,
    /// Whether the group was created by this request.
    pub newgroup: bool,
    /// For each offered item, whether it was appended.
    pub accepted: Vec<bool>,
    /// The per-item flags, where the request asked for them (they are
    /// reported with a 206 only).
    pub details: Option<Vec<bool>>,
    /// How many items were appended.
    pub items_succ: usize,
    /// How many items were turned down.
    pub items_fail: usize,
}

/// The answer to `POST /add-mul`: offers each item of `list` to the group
/// `name`, in order; a group of that name is created where there is none
/// and at least one item was appended. Where `details` holds, a partial
/// success reports the per-item flags.
pub fn post_group_addmul(
    storage: &mut Storage,
    authorized: bool,
    name: String,
    list: Vec<Vec<String>>,
    details: bool,
) -> (r: Result<MulReport, Failure>)
    requires
        old(storage).wf(),
    ensures
        final(storage).wf(),
        no_empty_group(old(storage)@) ==> no_empty_group(final(storage)@),
        !authorized ==> r == Err::<MulReport, Failure>(unauthorized()) && final(storage)@ == old(storage)@,
        authorized && list@.len() == 0 ==> r == Err::<MulReport, Failure>(
            Failure { status: 403, fault: Fault::EmptyList },
        ) && final(storage)@ == old(storage)@,
        authorized && list@.len() > 0 ==> {
            let existed = old(storage)@.contains_key(name@);
            let base = if existed {
                old(storage)@[name@]
            } else {
                Seq::empty()
            };
            let offered = list@.map_values(|v: Vec<String>| v@);
            let flags = offer_flags(base, offered);
            &&& final(storage)@ == if existed || count_true(flags) > 0 {
                old(storage)@.insert(name@, offer_all(base, offered))
            } else {
                old(storage)@
            }
            &&& count_true(flags) == 0 ==> r == Err::<MulReport, Failure>(
                Failure { status: 400, fault: Fault::AllInvalid },
            )
            &&& count_true(flags) > 0 ==> (r matches Ok(report) && report.accepted@ == flags
                && report.newgroup == !existed && report.items_succ == count_true(flags)
                && report.items_fail == list@.len() - count_true(flags) && report.status == (
            if count_true(flags) == list@.len() {
                200u16
            } else {
                206u16
            }) && (report.details is Some <==> details && report.status == 206) && (
            report.details matches Some(d) ==> d@ == flags))
        },
{
    if !authorized {
        return Err(Failure { status: 401, fault: Fault::Unauthorized });
    }
    if list.len() == 0 {
        return Err(Failure { status: 403, fault: Fault::EmptyList });
    }
    let existed = storage.contains_group(&name);
    let ghost base = if existed {
        storage@[name@]
    } else {
        Seq::empty()
    };
    let ghost rest = if existed {
        storage@.remove(name@)
    } else {
        storage@
    };
    let mut the_group = if existed {
        storage.take_group(&name)
    } else {
        Group::new()
    };
    let newgroup = !existed;
    let ghost offered = list@.map_values(|v: Vec<String>| v@);
    let mut res_arr: Vec<bool> = Vec::new();
    let mut added: usize = 0;
    let mut i: usize = 0;
    proof {
        assert(offered.take(0) =~= Seq::<Seq<String>>::empty());
        assert(the_group@ =~= base);
        assert(storage@ =~= rest);
    }
    while i < list.len()
        invariant
            storage.wf(),
            storage@ == rest,
            items_valid(the_group@),
            0 <= i <= list.len(),
            offered == list@.map_values(|v: Vec<String>| v@),
            the_group@ == offer_all(base, offered.take(i as int)),
            res_arr@ == offer_flags(base, offered.take(i as int)),
            added == count_true(res_arr@),
            added <= i,
        decreases list.len() - i,
    {
        let item = clone_item(&list[i]);
        proof {
            assert(offered.take(i + 1).drop_last() =~= offered.take(i as int));
            assert(offered.take(i + 1).last() == item@);
            if item@.len() > 0 {
                lemma_valid_scan_defined(the_group@, item@[0]@);
            }
        }
        let ok = the_group.add(item);
        if ok {
            added = added + 1;
        }
        res_arr.push(ok);
        proof {
            assert(res_arr@.drop_last() =~= offer_flags(base, offered.take(i as int)));
        }
        i = i + 1;
    }
    proof {
        assert(offered.take(list.len() as int) =~= offered);
        assert(res_arr@.len() == list@.len()) by {
            lemma_flags_len(base, offered);
        }
        lemma_offer_all_prefix(base, offered);
    }
    if existed || added > 0 {
        storage.insert_group(name, the_group);
        proof {
            if existed {
                assert(storage@ =~= old(storage)@.insert(name@, offer_all(base, offered)));
            }
        }
    }
    if added > 0 {
        let ok: bool = added == res_arr.len();
        let status: u16 = if ok {
            200
        } else {
            206
        };
        let shown: Option<Vec<bool>> = if details && status == 206 {
            Some(res_arr.clone())
        } else {
            None
        };
        Ok(
            MulReport {
                status,
                newgroup,
                accepted: res_arr,
                details: shown,
                items_succ: added,
                items_fail: list.len() - added,
            },
        )
    } else {
        Err(Failure { status: 400, fault: Fault::AllInvalid })
    }
}

/// The answer to `DELETE /all`: drops every group.
pub fn delete_all(storage: &mut Storage, authorized: bool) -> (r: Result<(), Failure>)
    requires
        old(storage).wf(),
    ensures
        final(storage).wf(),
        no_empty_group(old(storage)@) ==> no_empty_group(final(storage)@),
        !authorized ==> r == Err::<(), Failure>(unauthorized()) && final(storage)@ == old(storage)@,
        authorized && old(storage)@.len() == 0 ==> r == Err::<(), Failure>(
            Failure { status: 404, fault: Fault::ZeroGroups },
        ) && final(storage)@ == old(storage)@,
        authorized && old(storage)@.len() > 0 ==> r == Ok::<(), Failure>(()) && final(storage)@
            == Map::<Seq<char>, Seq<Seq<String>>>::empty(),
{
    if !authorized {
        return Err(Failure { status: 401, fault: Fault::Unauthorized });
    }
    if storage.is_empty() {
        Err(Failure { status: 404, fault: Fault::ZeroGroups })
    } else {
        storage.clear();
        Ok(())
    }
}

/// The answer to `DELETE /d/{name}`: drops one group with its items.
pub fn delete_group(storage: &mut Storage, authorized: bool, name: &String) -> (r: Result<(), Failure>)
    requires
        old(storage).wf(),
    ensures
        final(storage).wf(),
        no_empty_group(old(storage)@) ==> no_empty_group(final(storage)@),
        !authorized ==> r == Err::<(), Failure>(unauthorized()),
        authorized && old(storage)@.len() == 0 ==> r == Err::<(), Failure>(
            Failure { status: 403, fault: Fault::ZeroGroups },
        ),
        authorized && old(storage)@.len() > 0 && !old(storage)@.contains_key(name@) ==> r == Err::<
            (),
            Failure,
        >(Failure { status: 404, fault: Fault::GroupNotFound }),
        authorized && old(storage)@.contains_key(name@) ==> r == Ok::<(), Failure>(()) && final(storage)@ == old(storage)@.remove(name@),
        r is Err ==> final(storage)@ == old(storage)@,
{
    if !authorized {
        return Err(Failure { status: 401, fault: Fault::Unauthorized });
    }
    if storage.is_empty() {
        return Err(Failure { status: 403, fault: Fault::ZeroGroups });
    }
    if !storage.contains_group(name) {
        return Err(Failure { status: 404, fault: Fault::GroupNotFound });
    }
    storage.remove_group(name);
    Ok(())
}

/// The answer to `DELETE /d/{name}/{index}`: removes and returns one item;
/// a group left empty goes with it.
pub fn delete_index(storage: &mut Storage, authorized: bool, name: &String, index: usize) -> (r:
    Result<Vec<String>, Failure>)
    requires
        old(storage).wf(),
    ensures
        final(storage).wf(),
        no_empty_group(old(storage)@) ==> no_empty_group(final(storage)@),
        !authorized ==> r == Err::<Vec<String>, Failure>(unauthorized()),
        authorized && old(storage)@.len() == 0 ==> r == Err::<Vec<String>, Failure>(
            Failure { status: 403, fault: Fault::ZeroGroups },
        ),
        authorized && old(storage)@.len() > 0 && !old(storage)@.contains_key(name@) ==> r == Err::<
            Vec<String>,
            Failure,
        >(Failure { status: 404, fault: Fault::Unexplained }),
        authorized && old(storage)@.contains_key(name@) && old(storage)@[name@].len() == 0 ==> r
            == Err::<Vec<String>, Failure>(Failure { status: 403, fault: Fault::GroupEmpty }),
        authorized && old(storage)@.contains_key(name@) && 0 < old(storage)@[name@].len() <= index
            ==> r == Err::<Vec<String>, Failure>(
            Failure { status: 404, fault: Fault::ItemNotFound },
        ),
        authorized && old(storage)@.contains_key(name@) && index < old(storage)@[name@].len() ==> {
            let rest = old(storage)@[name@].remove(index as int);
            &&& r matches Ok(item) && item@ == old(storage)@[name@][index as int]
            &&& final(storage)@ == if rest.len() == 0 {
                old(storage)@.remove(name@)
            } else {
                old(storage)@.insert(name@, rest)
            }
        },
        r is Err ==> final(storage)@ == old(storage)@,
{
    if !authorized {
        return Err(Failure { status: 401, fault: Fault::Unauthorized });
    }
    if storage.is_empty() {
        return Err(Failure { status: 403, fault: Fault::ZeroGroups });
    }
    if !storage.contains_group(name) {
        return Err(Failure { status: 404, fault: Fault::Unexplained });
    }
    if group_is_empty(storage, name) {
        return Err(Failure { status: 403, fault: Fault::GroupEmpty });
    }
    proof {
        lemma_stored_groups_valid(storage, name@);
    }
    let ghost before = storage@;
    let item = storage.kick_item(name, index);
    if group_is_empty(storage, name) {
        storage.remove_group(name);
        proof {
            assert(storage@ =~= before.remove(name@));
        }
    }
    if item.len() == 0 {
        proof {
            assert(storage@ =~= before);
        }
        Err(Failure { status: 404, fault: Fault::ItemNotFound })
    } else {
        Ok(item)
    }
}

/// The answer to `DELETE /d/{name}/{index}/{qtty}`: removes and returns
/// the items from `index` on (`qtty` of them, or all the rest where `qtty`
/// is zero); a group left empty goes with them.
pub fn delete_range(storage: &mut Storage, authorized: bool, name: &String, index: usize, qtty: usize) -> (r:
    Result<Vec<Vec<String>>, Failure>)
    requires
        old(storage).wf(),
    ensures
        final(storage).wf(),
        no_empty_group(old(storage)@) ==> no_empty_group(final(storage)@),
        !authorized ==> r == Err::<Vec<Vec<String>>, Failure>(unauthorized()),
        authorized && old(storage)@.len() == 0 ==> r == Err::<Vec<Vec<String>>, Failure>(
            Failure { status: 403, fault: Fault::ZeroGroups },
        ),
        authorized && old(storage)@.len() > 0 && !old(storage)@.contains_key(name@) ==> r == Err::<
            Vec<Vec<String>>,
            Failure,
        >(Failure { status: 403, fault: Fault::GroupNotFound }),
        authorized && old(storage)@.contains_key(name@) && old(storage)@[name@].len() == 0 ==> r
            == Err::<Vec<Vec<String>>, Failure>(Failure { status: 403, fault: Fault::GroupEmpty }),
        authorized && old(storage)@.contains_key(name@) && 0 < old(storage)@[name@].len() <= index
            ==> r == Err::<Vec<Vec<String>>, Failure>(Failure { status: 400, fault: Fault::Slice }),
        authorized && old(storage)@.contains_key(name@) && index < old(storage)@[name@].len() ==> {
            let g = old(storage)@[name@];
            let rest = range_removed(g, index as int, qtty as int);
            &&& r matches Ok(slice) && slice@.map_values(|v: Vec<String>| v@) == range_items(
                g,
                index as int,
                qtty as int,
            )
            &&& final(storage)@ == if rest.len() == 0 {
                old(storage)@.remove(name@)
            } else {
                old(storage)@.insert(name@, rest)
            }
        },
        r is Err ==> final(storage)@ == old(storage)@,
{
    if !authorized {
        return Err(Failure { status: 401, fault: Fault::Unauthorized });
    }
    if storage.is_empty() {
        return Err(Failure { status: 403, fault: Fault::ZeroGroups });
    }
    if !storage.contains_group(name) {
        return Err(Failure { status: 403, fault: Fault::GroupNotFound });
    }
    if group_is_empty(storage, name) {
        return Err(Failure { status: 403, fault: Fault::GroupEmpty });
    }
    proof {
        lemma_stored_groups_valid(storage, name@);
        if index < storage@[name@].len() {
            lemma_range_of_valid_items(storage@[name@], index as int, qtty as int);
        }
    }
    let ghost before = storage@;
    let the_slice = storage.take_range(name, index, qtty, true);
    assert(the_slice@.map_values(|v: Vec<String>| v@).len() == the_slice@.len());
    if group_is_empty(storage, name) {
        storage.remove_group(name);
        proof {
            assert(storage@ =~= before.remove(name@));
        }
    }
    if the_slice.len() == 0 {
        proof {
            assert(storage@ =~= before);
        }
        Err(Failure { status: 400, fault: Fault::Slice })
    } else {
        Ok(the_slice)
    }
}

} // verus!
