use vstd::prelude::*;

verus! {

/// A group: an ordered list of items, each item a list of strings whose
/// first element is the item's head.
pub struct Group {
    pub data: Vec<Vec<String>>,
}

impl View for Group {
    type V = Seq<Seq<String>>;

    open spec fn view(&self) -> Seq<Seq<String>> {
        self.data@.map_values(|item: Vec<String>| item@)
    }
}

/// Item `j` is non-empty and its head reads `head`.
pub open spec fn head_at(items: Seq<Seq<String>>, j: int, head: Seq<char>) -> bool {
    items[j].len() > 0 && items[j][0]@ == head
}

/// Some item of `items` has the head `head`.
pub open spec fn contains_head(items: Seq<Seq<String>>, head: Seq<char>) -> bool {
    exists|j: int| 0 <= j < items.len() && #[trigger] head_at(items, j, head)
}

/// A scan of the items for `head`, front to back, meets no empty item before
/// it meets an item with that head (an empty item has no head to compare).
pub open spec fn head_scan_defined(items: Seq<Seq<String>>, head: Seq<char>) -> bool {
    forall|j: int|
        0 <= j < items.len() && #[trigger] items[j].len() == 0 ==> exists|k: int|
            0 <= k < j && #[trigger] head_at(items, k, head)
}

/// What the rules of a group ask of its items: none is empty, and no two
/// share a head.
pub open spec fn items_valid(items: Seq<Seq<String>>) -> bool {
    &&& forall|j: int| 0 <= j < items.len() ==> #[trigger] items[j].len() > 0
    &&& forall|j: int, k: int|
        0 <= j < k < items.len() ==> #[trigger] items[j][0]@ != #[trigger] items[k][0]@
}

/// The item at `index`, or an empty item where there is none.
pub open spec fn item_at(items: Seq<Seq<String>>, index: int) -> Seq<String> {
    if 0 <= index < items.len() {
        items[index]
    } else {
        Seq::empty()
    }
}

/// The position after the last item that a range read may reach: `qtty`
/// items from `index` on, all the rest of them where `qtty` is zero, and
/// never past the end.
pub open spec fn range_stop(len: int, index: int, qtty: int) -> int {
    let q = if qtty == 0 {
        len
    } else {
        qtty
    };
    if index + q < len {
        index + q
    } else {
        len
    }
}

/// The first position in `[j, stop)` that holds an empty item, or `stop`.
pub open spec fn scan_end(items: Seq<Seq<String>>, j: int, stop: int) -> int
    decreases stop - j,
{
    if j < stop {
        if items[j].len() == 0 {
            j
        } else {
            scan_end(items, j + 1, stop)
        }
    } else {
        j
    }
}

/// Where a range read that starts at `index` ends: at its stop, or earlier
/// at an empty item.
pub open spec fn range_end(items: Seq<Seq<String>>, index: int, qtty: int) -> int {
    scan_end(items, index, range_stop(items.len() as int, index, qtty))
}

/// The items that a range read returns.
pub open spec fn range_items(items: Seq<Seq<String>>, index: int, qtty: int) -> Seq<Seq<String>> {
    if 0 <= index < items.len() {
        items.subrange(index, range_end(items, index, qtty))
    } else {
        Seq::empty()
    }
}

/// The items left after a range read that takes what it returns: the
/// returned items leave, and so does the empty item that ended the read
/// early, if one did.
pub open spec fn range_removed(items: Seq<Seq<String>>, index: int, qtty: int) -> Seq<Seq<String>> {
    if 0 <= index < items.len() {
        let e = range_end(items, index, qtty);
        let cut = if e < range_stop(items.len() as int, index, qtty) {
            e + 1
        } else {
            e
        };
        items.subrange(0, index) + items.subrange(cut, items.len() as int)
    } else {
        items
    }
}

proof fn lemma_scan_end_bounds(items: Seq<Seq<String>>, j: int, stop: int)
    requires
        j <= stop,
    ensures
        j <= scan_end(items, j, stop) <= stop,
        forall|k: int| j <= k < scan_end(items, j, stop) ==> #[trigger] items[k].len() > 0,
        scan_end(items, j, stop) < stop ==> items[scan_end(items, j, stop)].len() == 0,
    decreases stop - j,
{
    if j < stop && items[j].len() != 0 {
        lemma_scan_end_bounds(items, j + 1, stop);
    }
}

/// On a group that keeps the rules (no empty item), a range read that
/// starts at an item returns at least that item: exactly the items from
/// `index` up to its stop (`qtty` of them, or all the rest where `qtty` is
/// zero, never past the end); and a read that takes them leaves exactly the
/// other items, in their order.
pub proof fn lemma_range_of_valid_items(items: Seq<Seq<String>>, index: int, qtty: int)
    requires
        items_valid(items),
        0 <= index < items.len(),
        0 <= qtty,
    ensures
        range_items(items, index, qtty) == items.subrange(
            index,
            range_stop(items.len() as int, index, qtty),
        ),
        range_items(items, index, qtty).len() > 0,
        range_removed(items, index, qtty) == items.subrange(0, index) + items.subrange(
            range_stop(items.len() as int, index, qtty),
            items.len() as int,
        ),
{
    let stop = range_stop(items.len() as int, index, qtty);
    lemma_scan_end_bounds(items, index, stop);
    assert(stop > index);
}

/// What a range read means, over any items: starting at `index`, it reads
/// the items in order and stops at the first empty item, after `qtty` items
/// (or, where `qtty` is zero, at the end), or at the end, whichever comes
/// first; the empty item is not returned. A read that takes its items
/// removes the returned items and the empty item it stopped at, if any. A
/// read that starts past the end returns nothing and takes nothing.
pub proof fn lemma_range_meaning(items: Seq<Seq<String>>, index: int, qtty: int)
    requires
        0 <= index,
        0 <= qtty,
    ensures
        ({
            let len = items.len() as int;
            let limit = if qtty == 0 || index + qtty > len {
                len
            } else {
                index + qtty
            };
            let r = range_items(items, index, qtty);
            let n = r.len() as int;
            if index < len {
                &&& r == items.subrange(index, index + n)
                &&& index + n <= limit
                &&& forall|j: int| index <= j < index + n ==> #[trigger] items[j].len() > 0
                &&& index + n == limit || items[index + n].len() == 0
                &&& range_removed(items, index, qtty) == items.subrange(0, index) + items.subrange(
                    if index + n < limit {
                        index + n + 1
                    } else {
                        index + n
                    },
                    len,
                )
            } else {
                &&& r.len() == 0
                &&& range_removed(items, index, qtty) == items
            }
        }),
{
    let len = items.len() as int;
    if index < len {
        let stop = range_stop(len, index, qtty);
        lemma_scan_end_bounds(items, index, stop);
    }
}

/// On a group without empty items, a range read that starts at an item
/// returns exactly `qtty` items, or all the rest where `qtty` is zero or
/// larger than what is left; a read that takes them leaves the others, in
/// their order.
pub proof fn lemma_range_count(items: Seq<Seq<String>>, index: int, qtty: int)
    requires
        items_valid(items),
        0 <= index < items.len(),
        0 <= qtty,
    ensures
        range_items(items, index, qtty).len() == if qtty == 0 || qtty > items.len() - index {
            items.len() - index
        } else {
            qtty
        },
        range_items(items, index, qtty) == items.subrange(
            index,
            index + range_items(items, index, qtty).len(),
        ),
        range_removed(items, index, qtty) == items.subrange(0, index) + items.subrange(
            index + range_items(items, index, qtty).len(),
            items.len() as int,
        ),
{
    lemma_range_meaning(items, index, qtty);
    let n = range_items(items, index, qtty).len() as int;
    let len = items.len() as int;
    let limit = if qtty == 0 || index + qtty > len {
        len
    } else {
        index + qtty
    };
    if index + n < limit {
        assert(items[index + n].len() > 0);
    }
}

/// What it means for a group to hold a head: some non-empty item begins
/// with exactly that text.
pub proof fn lemma_contains_head_meaning(items: Seq<Seq<String>>, head: Seq<char>)
    ensures
        contains_head(items, head) <==> exists|j: int|
            0 <= j < items.len() && items[j].len() > 0 && #[trigger] items[j][0]@ == head,
{
    if exists|j: int| 0 <= j < items.len() && items[j].len() > 0 && #[trigger] items[j][0]@ == head {
        let j = choose|j: int| 0 <= j < items.len() && items[j].len() > 0 && #[trigger] items[j][0]@ == head;
        assert(head_at(items, j, head));
    }
}

/// What `Group::add` and `Group::get` and `Group::kick` speak of: the item
/// at a position is that item where the position holds one, else empty;
/// and a group keeps its rules exactly where no item is empty and no two
/// items begin with the same text.
pub proof fn lemma_item_and_rules_meaning(items: Seq<Seq<String>>, index: int)
    ensures
        0 <= index < items.len() ==> item_at(items, index) == items[index],
        !(0 <= index < items.len()) ==> item_at(items, index).len() == 0,
        items_valid(items) <==> (forall|j: int| 0 <= j < items.len() ==> items[j].len() > 0) && (
        forall|j: int, k: int|
            0 <= j < items.len() && 0 <= k < items.len() && j != k ==> items[j][0]@
                != items[k][0]@),
{
    if items_valid(items) {
        assert forall|j: int, k: int|
            0 <= j < items.len() && 0 <= k < items.len() && j != k implies items[j][0]@
            != items[k][0]@ by {
            if j < k {
                assert(items[j][0]@ != items[k][0]@);
            } else {
                assert(items[k][0]@ != items[j][0]@);
            }
        }
    }
}

/// When a scan for a head is defined: every empty item has, before it, a
/// non-empty item that begins with exactly that head (the scan stops
/// there). In particular it is defined where no item is empty.
pub proof fn lemma_head_scan_meaning(items: Seq<Seq<String>>, head: Seq<char>)
    ensures
        head_scan_defined(items, head) <==> forall|j: int|
            0 <= j < items.len() && #[trigger] items[j].len() == 0 ==> exists|k: int|
                0 <= k < j && items[k].len() > 0 && #[trigger] items[k][0]@ == head,
        (forall|j: int| 0 <= j < items.len() ==> #[trigger] items[j].len() > 0) ==> head_scan_defined(
            items,
            head,
        ),
{
    if head_scan_defined(items, head) {
        assert forall|j: int| 0 <= j < items.len() && #[trigger] items[j].len() == 0 implies exists|k: int|
            0 <= k < j && items[k].len() > 0 && #[trigger] items[k][0]@ == head by {
            let k = choose|k: int| 0 <= k < j && #[trigger] head_at(items, k, head);
            assert(items[k][0]@ == head);
        }
    }
    if forall|j: int|
        0 <= j < items.len() && #[trigger] items[j].len() == 0 ==> exists|k: int|
            0 <= k < j && items[k].len() > 0 && #[trigger] items[k][0]@ == head {
        assert forall|j: int| 0 <= j < items.len() && #[trigger] items[j].len() == 0 implies exists|k: int|
            0 <= k < j && #[trigger] head_at(items, k, head) by {
            let k = choose|k: int| 0 <= k < j && items[k].len() > 0 && #[trigger] items[k][0]@ == head;
            assert(head_at(items, k, head));
        }
    }
}

/// Heads stay unique: once an item is appended to a group, any item with
/// the same head is refused there.
pub proof fn lemma_head_taken_after_add(items: Seq<Seq<String>>, v: Seq<String>, w: Seq<String>)
    requires
        v.len() > 0,
        w.len() > 0,
        w[0]@ == v[0]@,
    ensures
        contains_head(items.push(v), w[0]@),
{
    assert(head_at(items.push(v), items.len() as int, w[0]@));
}

pub(crate) fn clone_item(item: &Vec<String>) -> (r: Vec<String>)
    ensures
        r@ == item@,
{
    let r = item.clone();
    assert(r@ =~= item@);
    r
}

impl Group {
    /// An empty group.
    pub fn new() -> (g: Group)
        ensures
            g@ == Seq::<Seq<String>>::empty(),
    {
        Group { data: Vec::new() }
    }

    /// The number of items in the group.
    pub fn get_size(&self) -> (n: usize)
        ensures
            n == self@.len(),
    {
        self.data.len()
    }

    /// Whether the group holds no item.
    pub fn is_empty(&self) -> (b: bool)
        ensures
            b == (self@.len() == 0),
    {
        let size = self.get_size();
        if size == 0 {
            true
        } else {
            false
        }
    }

    /// Whether `index` designates an item of the group.
    pub fn index_exists(&self, index: usize) -> (b: bool)
        ensures
            b == (index < self@.len()),
    {
        let size = self.get_size();
        if index > size || size == 0 || size == index {
            false
        } else {
            true
        }
    }

    /// A copy of the item at `index`, or an empty item where there is none.
    pub fn get(&self, index: usize) -> (item: Vec<String>)
        ensures
            item@ == item_at(self@, index as int),
    {
        if self.index_exists(index) {
            clone_item(&self.data[index])
        } else {
            Vec::new()
        }
    }
    /// Whether some item of the group has the head `head`.
    pub fn has_head(&self, head: &String) -> (b: bool)
        requires
            head_scan_defined(self@, head@),
        ensures
            b == contains_head(self@, head@),
    {
        if self.is_empty() {
            return false;
        }
        let mut i: usize = 0;
        while i < self.data.len()
            invariant
                0 <= i <= self.data.len(),
                self@.len() == self.data.len(),
                head_scan_defined(self@, head@),
                forall|k: int| 0 <= k < i ==> !#[trigger] head_at(self@, k, head@),
            decreases self.data.len() - i,
        {
            let elem = &self.data[i];
            assert(elem@.len() > 0) by {
                assert(self@[i as int] == elem@);
                if elem@.len() == 0 {
                    assert(self@[i as int].len() == 0);
                }
            }
            let elem_head = &elem[0];
            if *elem_head == *head {
                assert(head_at(self@, i as int, head@));
                return true;
            }
            i = i + 1;
        }
        false
    }

    /// Appends `value` unless it is empty or its head is already the head of
    /// an item of the group; tells whether it was appended.
    pub fn add(&mut self, value: Vec<String>) -> (added: bool)
        requires
            value@.len() > 0 ==> head_scan_defined(old(self)@, value@[0]@),
        ensures
            added == (value@.len() > 0 && !contains_head(old(self)@, value@[0]@)),
            added ==> final(self)@ == old(self)@.push(value@),
            !added ==> final(self)@ == old(self)@,
            items_valid(old(self)@) ==> items_valid(final(self)@),
    {
        if value.len() == 0 {
            return false;
        }
        let val_head = &value[0];
        if self.has_head(val_head) {
            return false;
        }
        let ghost before = self@;
        self.data.push(value);
        assert(self@ =~= before.push(value@));
        proof {
            if items_valid(before) {
                assert forall|j: int, k: int|
                    0 <= j < k < self@.len() implies #[trigger] self@[j][0]@ != #[trigger] self@[k][0]@ by {
                    if k == before.len() {
                        assert(!head_at(before, j, value@[0]@));
                    }
                }
            }
        }
        true
    }

    /// Removes and returns the item at `index`; where there is none, returns
    /// an empty item and changes nothing.
    pub fn kick(&mut self, index: usize) -> (item: Vec<String>)
        ensures
            item@ == item_at(old(self)@, index as int),
            final(self)@ == if index < old(self)@.len() {
                old(self)@.remove(index as int)
            } else {
                old(self)@
            },
            items_valid(old(self)@) ==> items_valid(final(self)@),
    {
        if self.index_exists(index) {
            let ghost before = self@;
            let item = self.data.remove(index);
            assert(self@ =~= before.remove(index as int));
            proof {
                if items_valid(before) {
                    assert forall|j: int, k: int|
                        0 <= j < k < self@.len() implies #[trigger] self@[j][0]@ != #[trigger] self@[k][0]@ by {
                        let jj = if j < index { j } else { j + 1 };
                        let kk = if k < index { k } else { k + 1 };
                        assert(self@[j] == before[jj]);
                        assert(self@[k] == before[kk]);
                    }
                }
            }
            item
        } else {
            Vec::new()
        }
    }
    /// Reads the items from `index` on: `qtty` of them, or all the rest where
    /// `qtty` is zero, stopping early at an empty item. Where `steal` holds,
    /// the items read leave the group (with the empty item that stopped the
    /// read, if one did). Where `index` designates no item, returns nothing
    /// and changes nothing.
    pub fn get_range(&mut self, index: usize, qtty: usize, steal: bool) -> (slice: Vec<Vec<String>>)
        ensures
            slice@.map_values(|v: Vec<String>| v@) == range_items(old(self)@, index as int, qtty as int),
            final(self)@ == if steal {
                range_removed(old(self)@, index as int, qtty as int)
            } else {
                old(self)@
            },
            items_valid(old(self)@) ==> items_valid(final(self)@),
    {
        if !self.index_exists(index) {
            let r: Vec<Vec<String>> = Vec::new();
            assert(r@.map_values(|v: Vec<String>| v@) =~= Seq::<Seq<String>>::empty());
            return r;
        }
        let ghost items = self@;
        let size = self.get_size();
        let qtty_real: usize = if qtty == 0 {
            size
        } else {
            qtty
        };
        let ghost stop = range_stop(size as int, index as int, qtty as int);
        let mut result: Vec<Vec<String>> = Vec::new();
        let mut pos = index;
        let mut added: usize = 0;
        proof {
            lemma_scan_end_bounds(items, index as int, stop);
            assert(result@.map_values(|v: Vec<String>| v@) =~= items.subrange(index as int, index as int));
            assert(items.subrange(0, index as int) + items.subrange(index as int, size as int) =~= items);
        }
        loop
            invariant_except_break
                index < size,
                size == items.len(),
                qtty_real == (if qtty == 0 { size } else { qtty }),
                0 < qtty_real,
                stop == range_stop(size as int, index as int, qtty as int),
                index + added <= stop,
                added < qtty_real,
                !steal ==> pos == index + added && pos < size,
                steal ==> pos == index,
                forall|j: int| index <= j < index + added ==> #[trigger] items[j].len() > 0,
                result@.map_values(|v: Vec<String>| v@) == items.subrange(index as int, index + added),
                steal ==> self@ == items.subrange(0, index as int) + items.subrange(
                    index + added,
                    size as int,
                ),
                !steal ==> self@ == items,
                steal ==> (items_valid(items) ==> items_valid(self@)),
                scan_end(items, index as int, stop) == scan_end(items, index + added, stop),
            ensures
                result@.map_values(|v: Vec<String>| v@) == range_items(items, index as int, qtty as int),
                self@ == if steal {
                    range_removed(items, index as int, qtty as int)
                } else {
                    items
                },
                items_valid(items) ==> items_valid(self@),
            decreases size - index - added,
        {
            let ghost cur = self@;
            let ghost res_before = result@.map_values(|v: Vec<String>| v@);
            let elem: Vec<String> = if steal {
                self.kick(pos)
            } else {
                self.get(pos)
            };
            if elem.len() == 0 {
                proof {
                    lemma_scan_end_bounds(items, index + added, stop);
                    if steal {
                        if index + added < size {
                            assert(cur[index as int] == items[index + added]);
                            assert(self@ =~= items.subrange(0, index as int) + items.subrange(
                                index + added + 1,
                                size as int,
                            ));
                        } else {
                            assert(items.subrange(index + added, size as int) =~= Seq::<
                                Seq<String>,
                            >::empty());
                            assert(self@ =~= items.subrange(0, index as int) + items.subrange(
                                size as int,
                                size as int,
                            ));
                        }
                    }
                }
                break;
            }
            proof {
                lemma_scan_end_bounds(items, index + added, stop);
                if steal {
                    assert(cur[index as int] == items[index + added]);
                    assert(self@ =~= items.subrange(0, index as int) + items.subrange(
                        index + added + 1,
                        size as int,
                    ));
                }
                assert(elem@ == items[index + added]);
            }
            result.push(elem);
            proof {
                assert(result@.map_values(|v: Vec<String>| v@) =~= res_before.push(
                    items[index + added],
                ));
                assert(items.subrange(index as int, index + added + 1) =~= items.subrange(
                    index as int,
                    index + added,
                ).push(items[index + added]));
            }
            if !steal {
                pos = pos + 1;
            }
            added = added + 1;
            if pos == size || added == qtty_real {
                proof {
                    lemma_scan_end_bounds(items, index + added, stop);
                }
                break;
            }
        }
        result
    }
}


/// Each name of `entries` stands there once.
pub open spec fn names_distinct(entries: Seq<(String, Group)>) -> bool {
    forall|i: int, j: int|
        0 <= i < j < entries.len() ==> #[trigger] entries[i].0@ != #[trigger] entries[j].0@
}

/// The map from group names to groups that `entries` describes.
pub open spec fn table(entries: Seq<(String, Group)>) -> Map<Seq<char>, Seq<Seq<String>>>
    decreases entries.len(),
{
    if entries.len() == 0 {
        Map::empty()
    } else {
        table(entries.drop_last()).insert(entries.last().0@, entries.last().1@)
    }
}

proof fn lemma_table_dom(entries: Seq<(String, Group)>)
    ensures
        table(entries).dom().finite(),
        forall|k: Seq<char>|
            #[trigger] table(entries).contains_key(k) <==> exists|i: int|
                0 <= i < entries.len() && #[trigger] entries[i].0@ == k,
    decreases entries.len(),
{
    if entries.len() > 0 {
        let d = entries.drop_last();
        lemma_table_dom(d);
        assert forall|k: Seq<char>| #[trigger] table(entries).contains_key(k) implies exists|i: int|
            0 <= i < entries.len() && #[trigger] entries[i].0@ == k by {
            if k != entries.last().0@ {
                let i = choose|i: int| 0 <= i < d.len() && #[trigger] d[i].0@ == k;
                assert(entries[i] == d[i]);
            }
        }
        assert forall|k: Seq<char>|
            (exists|i: int| 0 <= i < entries.len() && #[trigger] entries[i].0@ == k) implies #[trigger] table(
            entries,
        ).contains_key(k) by {
            let i = choose|i: int| 0 <= i < entries.len() && #[trigger] entries[i].0@ == k;
            if i < entries.len() - 1 {
                assert(d[i] == entries[i]);
            }
        }
    }
}

proof fn lemma_table_at(entries: Seq<(String, Group)>, i: int)
    requires
        names_distinct(entries),
        0 <= i < entries.len(),
    ensures
        table(entries).contains_key(entries[i].0@),
        table(entries)[entries[i].0@] == entries[i].1@,
    decreases entries.len(),
{
    if i < entries.len() - 1 {
        let d = entries.drop_last();
        assert(d[i] == entries[i]);
        lemma_table_at(d, i);
        assert(entries[i].0@ != entries[entries.len() - 1].0@);
    }
}

proof fn lemma_table_len(entries: Seq<(String, Group)>)
    requires
        names_distinct(entries),
    ensures
        table(entries).len() == entries.len(),
    decreases entries.len(),
{
    if entries.len() > 0 {
        let d = entries.drop_last();
        lemma_table_len(d);
        lemma_table_dom(d);
        if table(d).contains_key(entries.last().0@) {
            let i = choose|i: int| 0 <= i < d.len() && #[trigger] d[i].0@ == entries.last().0@;
            assert(entries[i] == d[i]);
            assert(false);
        }
    }
}

proof fn lemma_table_push(entries: Seq<(String, Group)>, x: (String, Group))
    ensures
        table(entries.push(x)) == table(entries).insert(x.0@, x.1@),
{
    assert(entries.push(x).drop_last() =~= entries);
}

proof fn lemma_table_remove(entries: Seq<(String, Group)>, i: int)
    requires
        names_distinct(entries),
        0 <= i < entries.len(),
    ensures
        names_distinct(entries.remove(i)),
        table(entries.remove(i)) == table(entries).remove(entries[i].0@),
{
    let r = entries.remove(i);
    assert forall|a: int, b: int| 0 <= a < b < r.len() implies #[trigger] r[a].0@ != #[trigger] r[b].0@ by {
        let aa = if a < i { a } else { a + 1 };
        let bb = if b < i { b } else { b + 1 };
        assert(r[a] == entries[aa]);
        assert(r[b] == entries[bb]);
    }
    lemma_table_dom(r);
    lemma_table_dom(entries);
    assert forall|k: Seq<char>| #[trigger] table(r).contains_key(k) <==> table(entries).remove(
        entries[i].0@,
    ).contains_key(k) by {
        if table(r).contains_key(k) {
            let j = choose|j: int| 0 <= j < r.len() && #[trigger] r[j].0@ == k;
            let jj = if j < i { j } else { j + 1 };
            assert(r[j] == entries[jj]);
        }
        if table(entries).contains_key(k) && k != entries[i].0@ {
            let j = choose|j: int| 0 <= j < entries.len() && #[trigger] entries[j].0@ == k;
            if j < i {
                assert(r[j] == entries[j]);
            } else {
                assert(r[j - 1] == entries[j]);
            }
        }
    }
    assert forall|k: Seq<char>| #[trigger] table(r).contains_key(k) implies table(r)[k] == table(
        entries,
    )[k] by {
        let j = choose|j: int| 0 <= j < r.len() && #[trigger] r[j].0@ == k;
        let jj = if j < i { j } else { j + 1 };
        assert(r[j] == entries[jj]);
        lemma_table_at(r, j);
        lemma_table_at(entries, jj);
    }
    assert(table(r) =~= table(entries).remove(entries[i].0@));
}

proof fn lemma_table_update(entries: Seq<(String, Group)>, i: int, x: (String, Group))
    requires
        names_distinct(entries),
        0 <= i < entries.len(),
        x.0@ == entries[i].0@,
    ensures
        names_distinct(entries.update(i, x)),
        table(entries.update(i, x)) == table(entries).insert(x.0@, x.1@),
{
    let u = entries.update(i, x);
    assert forall|a: int, b: int| 0 <= a < b < u.len() implies #[trigger] u[a].0@ != #[trigger] u[b].0@ by {
        assert(u[a].0@ == entries[a].0@);
        assert(u[b].0@ == entries[b].0@);
    }
    lemma_table_dom(u);
    lemma_table_dom(entries);
    assert forall|k: Seq<char>| #[trigger] table(u).contains_key(k) <==> table(entries).insert(
        x.0@,
        x.1@,
    ).contains_key(k) by {
        if table(u).contains_key(k) {
            let j = choose|j: int| 0 <= j < u.len() && #[trigger] u[j].0@ == k;
            assert(entries[j].0@ == k);
        }
        if table(entries).contains_key(k) {
            let j = choose|j: int| 0 <= j < entries.len() && #[trigger] entries[j].0@ == k;
            assert(u[j].0@ == k);
        }
        if k == x.0@ {
            assert(u[i].0@ == k);
        }
    }
    assert forall|k: Seq<char>| #[trigger] table(u).contains_key(k) implies table(u)[k] == table(
        entries,
    ).insert(x.0@, x.1@)[k] by {
        let j = choose|j: int| 0 <= j < u.len() && #[trigger] u[j].0@ == k;
        lemma_table_at(u, j);
        if j != i {
            assert(u[j] == entries[j]);
            lemma_table_at(entries, j);
        }
    }
    assert(table(u) =~= table(entries).insert(x.0@, x.1@));
}

/// The whole store: groups under unique names.
pub struct Storage {
    quecol: Vec<(String, Group)>,
}

impl Storage {
    /// The stored groups, by name.
    pub closed spec fn as_map(&self) -> Map<Seq<char>, Seq<Seq<String>>> {
        table(self.quecol@)
    }

    /// The store is well formed: each name stands once, and each group
    /// keeps the rules of a group (non-empty items, distinct heads).
    pub closed spec fn wf(&self) -> bool {
        &&& names_distinct(self.quecol@)
        &&& forall|i: int| 0 <= i < self.quecol@.len() ==> #[trigger] items_valid(self.quecol@[i].1@)
    }
}

impl View for Storage {
    type V = Map<Seq<char>, Seq<Seq<String>>>;

    open spec fn view(&self) -> Map<Seq<char>, Seq<Seq<String>>> {
        self.as_map()
    }
}

/// Every group of a well-formed store keeps the rules of a group: no
/// empty item, no two items with one head.
pub proof fn lemma_stored_groups_valid(s: &Storage, name: Seq<char>)
    requires
        s.wf(),
        s@.contains_key(name),
    ensures
        items_valid(s@[name]),
{
    lemma_table_dom(s.quecol@);
    let i = choose|i: int| 0 <= i < s.quecol@.len() && #[trigger] s.quecol@[i].0@ == name;
    lemma_table_at(s.quecol@, i);
}

impl Storage {
    /// An empty store.
    pub fn new() -> (s: Storage)
        ensures
            s.wf(),
            s@ == Map::<Seq<char>, Seq<Seq<String>>>::empty(),
    {
        Storage { quecol: Vec::new() }
    }

    /// The number of groups.
    pub fn get_size(&self) -> (n: usize)
        requires
            self.wf(),
        ensures
            n == self@.len(),
    {
        proof {
            lemma_table_len(self.quecol@);
        }
        self.quecol.len()
    }

    /// Whether there is no group.
    pub fn is_empty(&self) -> (b: bool)
        requires
            self.wf(),
        ensures
            b == (self@.len() == 0),
            b ==> forall|k: Seq<char>| !#[trigger] self@.contains_key(k),
            self@.dom().finite(),
    {
        proof {
            lemma_table_len(self.quecol@);
            lemma_table_dom(self.quecol@);
            if self.quecol@.len() > 0 {
                assert(self@.contains_key(self.quecol@[0].0@));
            }
        }
        self.quecol.len() == 0
    }

    fn find(&self, name: &String) -> (r: Option<usize>)
        requires
            self.wf(),
        ensures
            match r {
                Some(i) => i < self.quecol@.len() && self.quecol@[i as int].0@ == name@
                    && self@.contains_key(name@) && self@[name@] == self.quecol@[i as int].1@,
                None => !self@.contains_key(name@),
            },
    {
        let mut i: usize = 0;
        while i < self.quecol.len()
            invariant
                0 <= i <= self.quecol.len(),
                self.wf(),
                forall|j: int| 0 <= j < i ==> #[trigger] self.quecol@[j].0@ != name@,
            decreases self.quecol.len() - i,
        {
            if self.quecol[i].0 == *name {
                proof {
                    lemma_table_at(self.quecol@, i as int);
                }
                return Some(i);
            }
            i = i + 1;
        }
        proof {
            lemma_table_dom(self.quecol@);
        }
        None
    }

    /// Whether a group goes by `name`.
    pub fn contains_group(&self, name: &String) -> (b: bool)
        requires
            self.wf(),
        ensures
            b == self@.contains_key(name@),
    {
        self.find(name).is_some()
    }

    /// The group that goes by `name`, if any.
    pub fn group(&self, name: &String) -> (g: Option<&Group>)
        requires
            self.wf(),
        ensures
            match g {
                Some(g) => self@.contains_key(name@) && g@ == self@[name@],
                None => !self@.contains_key(name@),
            },
    {
        match self.find(name) {
            Some(i) => Some(&self.quecol[i].1),
            None => None,
        }
    }
}

/// Where no item is empty, a scan for any head is defined throughout.
pub proof fn lemma_valid_scan_defined(items: Seq<Seq<String>>, head: Seq<char>)
    requires
        items_valid(items),
    ensures
        head_scan_defined(items, head),
{
}

impl Storage {
    /// The names of all groups, each once, in no particular order.
    pub fn names(&self) -> (list: Vec<String>)
        requires
            self.wf(),
        ensures
            list@.len() == self@.len(),
            forall|i: int| 0 <= i < list@.len() ==> self@.contains_key(#[trigger] list@[i]@),
            forall|k: Seq<char>|
                #[trigger] self@.contains_key(k) ==> exists|i: int|
                    0 <= i < list@.len() && #[trigger] list@[i]@ == k,
            forall|i: int, j: int|
                0 <= i < j < list@.len() ==> #[trigger] list@[i]@ != #[trigger] list@[j]@,
    {
        let mut list: Vec<String> = Vec::new();
        let mut i: usize = 0;
        while i < self.quecol.len()
            invariant
                0 <= i <= self.quecol.len(),
                list@.len() == i,
                forall|j: int| 0 <= j < i ==> #[trigger] list@[j] == self.quecol@[j].0,
            decreases self.quecol.len() - i,
        {
            list.push(self.quecol[i].0.clone());
            i = i + 1;
        }
        proof {
            lemma_table_len(self.quecol@);
            lemma_table_dom(self.quecol@);
            assert forall|k: Seq<char>| #[trigger] self@.contains_key(k) implies exists|i: int|
                0 <= i < list@.len() && #[trigger] list@[i]@ == k by {
                let i = choose|i: int| 0 <= i < self.quecol@.len() && #[trigger] self.quecol@[i].0@ == k;
                assert(list@[i] == self.quecol@[i].0);
            }
            assert forall|i: int| 0 <= i < list@.len() implies self@.contains_key(#[trigger] list@[i]@) by {
                assert(list@[i] == self.quecol@[i].0);
            }
            assert forall|i: int, j: int| 0 <= i < j < list@.len() implies #[trigger] list@[i]@
                != #[trigger] list@[j]@ by {
                assert(list@[i] == self.quecol@[i].0);
                assert(list@[j] == self.quecol@[j].0);
            }
        }
        list
    }

    /// Stores `group` under `name`, in place of any group of that name.
    pub fn insert_group(&mut self, name: String, group: Group)
        requires
            old(self).wf(),
            items_valid(group@),
        ensures
            final(self).wf(),
            final(self)@ == old(self)@.insert(name@, group@),
    {
        match self.find(&name) {
            Some(i) => {
                let ghost before = self.quecol@;
                proof {
                    lemma_table_update(before, i as int, (name, group));
                }
                self.quecol.set(i, (name, group));
            },
            None => {
                let ghost before = self.quecol@;
                proof {
                    lemma_table_dom(before);
                    lemma_table_push(before, (name, group));
                    assert forall|a: int, b: int|
                        0 <= a < b < before.len() + 1 implies #[trigger] before.push((name, group))[a].0@
                        != #[trigger] before.push((name, group))[b].0@ by {
                        if b == before.len() {
                            assert(before.push((name, group))[a] == before[a]);
                        } else {
                            assert(before.push((name, group))[a] == before[a]);
                            assert(before.push((name, group))[b] == before[b]);
                        }
                    }
                }
                self.quecol.push((name, group));
                proof {
                    assert(self.quecol@ == before.push((name, group)));
                    assert forall|i: int| 0 <= i < self.quecol@.len() implies #[trigger] items_valid(
                        self.quecol@[i].1@,
                    ) by {
                        if i < before.len() {
                            assert(self.quecol@[i] == before[i]);
                        }
                    }
                }
            },
        }
    }

    /// Drops the group that goes by `name`, if any.
    pub fn remove_group(&mut self, name: &String)
        requires
            old(self).wf(),
        ensures
            final(self).wf(),
            final(self)@ == old(self)@.remove(name@),
    {
        match self.find(name) {
            Some(i) => {
                let ghost before = self.quecol@;
                proof {
                    lemma_table_remove(before, i as int);
                }
                self.quecol.remove(i);
                proof {
                    assert forall|j: int| 0 <= j < self.quecol@.len() implies #[trigger] items_valid(
                        self.quecol@[j].1@,
                    ) by {
                        let jj = if j < i { j } else { j + 1 };
                        assert(self.quecol@[j] == before[jj]);
                    }
                }
            },
            None => {
                assert(self@ =~= self@.remove(name@));
            },
        }
    }

    /// Drops every group.
    pub fn clear(&mut self)
        requires
            old(self).wf(),
        ensures
            final(self).wf(),
            final(self)@ == Map::<Seq<char>, Seq<Seq<String>>>::empty(),
    {
        self.quecol.clear();
    }

    /// Appends `item` to the group that goes by `name` unless it is empty or
    /// its head is already taken there (see `Group::add`).
    pub fn add_item(&mut self, name: &String, item: Vec<String>) -> (added: bool)
        requires
            old(self).wf(),
            old(self)@.contains_key(name@),
        ensures
            final(self).wf(),
            added == (item@.len() > 0 && !contains_head(old(self)@[name@], item@[0]@)),
            final(self)@ == old(self)@.insert(
                name@,
                if added {
                    old(self)@[name@].push(item@)
                } else {
                    old(self)@[name@]
                },
            ),
    {
        let i = self.find(name).unwrap();
        let ghost before = self.quecol@;
        proof {
            if item@.len() > 0 {
                lemma_valid_scan_defined(before[i as int].1@, item@[0]@);
            }
        }
        let added = self.quecol[i].1.add(item);
        proof {
            let x = self.quecol@[i as int];
            assert(self.quecol@ == before.update(i as int, x));
            lemma_table_update(before, i as int, x);
            assert forall|j: int| 0 <= j < self.quecol@.len() implies #[trigger] items_valid(
                self.quecol@[j].1@,
            ) by {
                if j != i {
                    assert(self.quecol@[j] == before[j]);
                }
            }
        }
        added
    }
}

impl Storage {
    /// Removes and returns the item at `index` of the group that goes by
    /// `name` (see `Group::kick`).
    pub fn kick_item(&mut self, name: &String, index: usize) -> (item: Vec<String>)
        requires
            old(self).wf(),
            old(self)@.contains_key(name@),
        ensures
            final(self).wf(),
            item@ == item_at(old(self)@[name@], index as int),
            final(self)@ == old(self)@.insert(
                name@,
                if index < old(self)@[name@].len() {
                    old(self)@[name@].remove(index as int)
                } else {
                    old(self)@[name@]
                },
            ),
    {
        let i = self.find(name).unwrap();
        let ghost before = self.quecol@;
        let item = self.quecol[i].1.kick(index);
        proof {
            let x = self.quecol@[i as int];
            assert(self.quecol@ == before.update(i as int, x));
            lemma_table_update(before, i as int, x);
            assert forall|j: int| 0 <= j < self.quecol@.len() implies #[trigger] items_valid(
                self.quecol@[j].1@,
            ) by {
                if j != i {
                    assert(self.quecol@[j] == before[j]);
                }
            }
        }
        item
    }

    /// A range read on the group that goes by `name` (see
    /// `Group::get_range`).
    pub fn take_range(&mut self, name: &String, index: usize, qtty: usize, steal: bool) -> (slice:
        Vec<Vec<String>>)
        requires
            old(self).wf(),
            old(self)@.contains_key(name@),
        ensures
            final(self).wf(),
            slice@.map_values(|v: Vec<String>| v@) == range_items(
                old(self)@[name@],
                index as int,
                qtty as int,
            ),
            final(self)@ == if steal {
                old(self)@.insert(name@, range_removed(old(self)@[name@], index as int, qtty as int))
            } else {
                old(self)@
            },
    {
        let i = self.find(name).unwrap();
        let ghost before = self.quecol@;
        let slice = self.quecol[i].1.get_range(index, qtty, steal);
        proof {
            let x = self.quecol@[i as int];
            assert(self.quecol@ == before.update(i as int, x));
            lemma_table_update(before, i as int, x);
            assert forall|j: int| 0 <= j < self.quecol@.len() implies #[trigger] items_valid(
                self.quecol@[j].1@,
            ) by {
                if j != i {
                    assert(self.quecol@[j] == before[j]);
                }
            }
            if !steal {
                assert(self@ =~= old(self)@);
            }
        }
        slice
    }
}

impl Storage {
    /// Takes the group that goes by `name` out of the store.
    pub fn take_group(&mut self, name: &String) -> (group: Group)
        requires
            old(self).wf(),
            old(self)@.contains_key(name@),
        ensures
            final(self).wf(),
            group@ == old(self)@[name@],
            items_valid(group@),
            final(self)@ == old(self)@.remove(name@),
    {
        let i = self.find(name).unwrap();
        let ghost before = self.quecol@;
        proof {
            lemma_table_remove(before, i as int);
        }
        let entry = self.quecol.remove(i);
        proof {
            assert(items_valid(before[i as int].1@));
            assert forall|j: int| 0 <= j < self.quecol@.len() implies #[trigger] items_valid(
                self.quecol@[j].1@,
            ) by {
                let jj = if j < i { j } else { j + 1 };
                assert(self.quecol@[j] == before[jj]);
            }
        }
        entry.1
    }
}

} // verus!
