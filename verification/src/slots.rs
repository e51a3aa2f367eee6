//! The table of the users who are connected.

use slotmap::{DefaultKey, Key, KeyData, SlotMap};
use vstd::prelude::*;

verus! {

/// A `slotmap::SlotMap` whose values are numbers.
#[verifier::external_body]
pub struct Slots {
    map: SlotMap<DefaultKey, usize>,
}

/// What a table holds: key and value of each entry, in the order in which it is gone through.
/// A key stands as the number that `KeyData::as_ffi` makes of it.
pub uninterp spec fn entries(m: Slots) -> Seq<(u64, usize)>;

/// The slots of a table that have been given up and are free, the one that was given up last at the
/// end.
pub uninterp spec fn free_slots(m: Slots) -> Seq<int>;

/// The slot that a key belongs to: its lower half.
pub open spec fn slot(key: u64) -> int {
    key as int % 0x1_0000_0000
}

/// The number can be that of a key: its upper half, the version of the slot, is odd.
pub open spec fn is_key(key: u64) -> bool {
    key / 0x1_0000_0000 % 2 == 1
}

/// Entries in the order of their slots, each slot once.
pub open spec fn in_slot_order(s: Seq<(u64, usize)>) -> bool {
    forall|i: int, j: int| 0 <= i < j < s.len() ==> slot(s[i].0) < slot(s[j].0)
}

/// An entry has this key.
pub open spec fn has_key(s: Seq<(u64, usize)>, key: u64) -> bool {
    exists|i: int| 0 <= i < s.len() && (#[trigger] s[i]).0 == key
}

/// The entries whose keys are not among `gone`.
pub open spec fn without(s: Seq<(u64, usize)>, gone: Seq<u64>) -> Seq<(u64, usize)> {
    s.filter(|e: (u64, usize)| !gone.contains(e.0))
}

/// The slots that are given up with the entries whose keys are among `gone`, in order.
pub open spec fn freed(s: Seq<(u64, usize)>, gone: Seq<u64>) -> Seq<int>
    decreases s.len(),
{
    if s.len() == 0 {
        seq![]
    } else {
        let fore = freed(s.drop_last(), gone);
        if gone.contains(s.last().0) {
            fore.push(slot(s.last().0))
        } else {
            fore
        }
    }
}

/// The slot that a new entry gets: the one that was given up last, or, where none is free, the one
/// after all others. Slots are counted from one on.
pub open spec fn next_slot(s: Seq<(u64, usize)>, free: Seq<int>) -> int {
    if free.len() == 0 {
        s.len() + 1int
    } else {
        free.last()
    }
}

/// The slots that are free when a new entry has got its slot.
pub open spec fn free_after(free: Seq<int>) -> Seq<int> {
    if free.len() == 0 {
        free
    } else {
        free.drop_last()
    }
}

/// The place among the entries that belongs to a slot: so many have a lower one.
pub open spec fn place_for(s: Seq<(u64, usize)>, k: int) -> int
    decreases s.len(),
{
    if s.len() == 0 {
        0
    } else {
        place_for(s.drop_last(), k) + if slot(s.last().0) < k {
            1int
        } else {
            0int
        }
    }
}

/// No slot lies beyond the number of those that are taken or free.
pub open spec fn laid_out(s: Seq<(u64, usize)>, free: Seq<int>) -> bool {
    &&& forall|i: int| 0 <= i < s.len() ==> 1 <= slot((#[trigger] s[i]).0) <= s.len() + free.len()
    &&& forall|i: int| 0 <= i < free.len() ==> 1 <= #[trigger] free[i] <= s.len() + free.len()
}

/// Calls `SlotMap::new`: an empty table, of which no slot has been given up.
#[verifier::external_body]
pub(crate) fn slots_new() -> (m: Slots)
    ensures
        entries(m) == Seq::<(u64, usize)>::empty(),
        free_slots(m) == Seq::<int>::empty(),
{
    Slots { map: SlotMap::new() }
}

/// Calls `SlotMap::insert`: adds an entry under a key that no entry has. The entry gets the slot that
/// was given up last, or the one after all others, and takes its place in the order of the slots.
/// The version in the key, by which keys of one slot differ, is not stated but for being odd. The
/// function panics where the table has as many entries as it can ever have.
#[verifier::external_body]
pub(crate) fn slots_insert(m: &mut Slots, value: usize) -> (key: u64)
    requires
        entries(*old(m)).len() < u32::MAX - 1,
    ensures
        is_key(key),
        !has_key(entries(*old(m)), key),
        slot(key) == next_slot(entries(*old(m)), free_slots(*old(m))),
        free_slots(*final(m)) == free_after(free_slots(*old(m))),
        exists|i: int|
            0 <= i <= entries(*old(m)).len() && entries(*final(m)) == #[trigger] entries(
                *old(m),
            ).insert(i, (key, value)),
        in_slot_order(entries(*old(m))) ==> in_slot_order(entries(*final(m))),
{
    m.map.insert(value).data().as_ffi()
}

/// Calls `SlotMap::remove`: takes out the entry with this key, where there is one, and gives its slot
/// up. A number that is no key is left out: `KeyData::from_ffi` would make a key of it all the same.
#[verifier::external_body]
pub(crate) fn slots_remove(m: &mut Slots, key: u64) -> (r: Option<usize>)
    requires
        is_key(key),
    ensures
        entries(*final(m)) == without(entries(*old(m)), seq![key]),
        free_slots(*final(m)) == free_slots(*old(m)) + freed(entries(*old(m)), seq![key]),
        r is Some == has_key(entries(*old(m)), key),
        r matches Some(v) ==> entries(*old(m)).contains((key, v)),
{
    m.map.remove(KeyData::from_ffi(key).into())
}

/// Calls `SlotMap::iter`: the entries of a table in order.
#[verifier::external_body]
pub(crate) fn slots_list(m: &Slots) -> (list: Vec<(u64, usize)>)
    ensures
        list@ == entries(*m),
{
    m.map.iter().map(|(key, value)| (key.data().as_ffi(), *value)).collect()
}

/// Calls `SlotMap::retain` to take out the entries whose keys are among `gone`. Their slots are
/// given up in order.
#[verifier::external_body]
pub(crate) fn slots_retain(m: &mut Slots, gone: &Vec<u64>)
    ensures
        entries(*final(m)) == without(entries(*old(m)), gone@),
        free_slots(*final(m)) == free_slots(*old(m)) + freed(entries(*old(m)), gone@),
{
    m.map.retain(|key, _value| stays(gone, key.data().as_ffi()))
}

/// Whether a key is not among `gone`.
pub fn stays(gone: &Vec<u64>, key: u64) -> (r: bool)
    ensures
        r == !gone@.contains(key),
{
    let mut i: usize = 0;
    while i < gone.len()
        invariant
            i <= gone@.len(),
            forall|j: int| 0 <= j < i ==> gone@[j] != key,
        decreases gone@.len() - i,
    {
        if gone[i] == key {
            return false;
        }
        i = i + 1;
    }
    true
}

/// Of the entries, those stay whose keys are not among `gone`, and no others, in the same order.
pub proof fn lemma_without(s: Seq<(u64, usize)>, gone: Seq<u64>)
    ensures
        forall|i: int| #![trigger without(s, gone)[i]]
            0 <= i < without(s, gone).len() ==> s.contains(without(s, gone)[i])
                && !gone.contains(without(s, gone)[i].0),
        forall|j: int| #![trigger s[j]]
            0 <= j < s.len() && !gone.contains(s[j].0) ==> without(s, gone).contains(s[j]),
        in_slot_order(s) ==> in_slot_order(without(s, gone)),
    decreases s.len(),
{
    let pred = |e: (u64, usize)| !gone.contains(e.0);
    let w = without(s, gone);
    reveal(Seq::filter);
    if s.len() > 0 {
        let fore = s.drop_last();
        let v = without(fore, gone);
        lemma_without(fore, gone);
        assert(w == if pred(s.last()) {
            v.push(s.last())
        } else {
            v
        });
        assert forall|i: int| #![trigger w[i]] 0 <= i < w.len() implies s.contains(w[i])
            && !gone.contains(w[i].0) by {
            if i < v.len() {
                assert(w[i] == v[i]);
                let k = fore.index_of(v[i]);
                assert(s[k] == v[i]);
            } else {
                assert(s[s.len() - 1] == w[i]);
            }
        }
        assert forall|j: int| #![trigger s[j]]
            0 <= j < s.len() && !gone.contains(s[j].0) implies w.contains(s[j]) by {
            if j < fore.len() {
                assert(fore[j] == s[j]);
                let k = v.index_of(s[j]);
                assert(w[k] == s[j]);
            } else {
                assert(w[w.len() - 1] == s[j]);
            }
        }
        if in_slot_order(s) {
            assert forall|i: int, j: int| 0 <= i < j < w.len() implies slot(w[i].0) < slot(
                w[j].0,
            ) by {
                if j == v.len() {
                    let k = fore.index_of(v[i]);
                    assert(s[k] == w[i]);
                    assert(s[s.len() - 1] == w[j]);
                } else {
                    assert(w[i] == v[i] && w[j] == v[j]);
                }
            }
        }
    }
}

/// Where no entry has a key that is among `gone`, all stay.
proof fn lemma_without_none(s: Seq<(u64, usize)>, gone: Seq<u64>)
    requires
        forall|i: int| 0 <= i < s.len() ==> !gone.contains((#[trigger] s[i]).0),
    ensures
        without(s, gone) == s,
    decreases s.len(),
{
    reveal(Seq::filter);
    if s.len() > 0 {
        assert(!gone.contains(s[s.len() - 1].0));
        lemma_without_none(s.drop_last(), gone);
        assert(s =~= s.drop_last().push(s.last()));
    }
}

/// The last entry stays unless its key is among `gone`.
pub proof fn lemma_without_push(s: Seq<(u64, usize)>, e: (u64, usize), gone: Seq<u64>)
    ensures
        without(s.push(e), gone) == if gone.contains(e.0) {
            without(s, gone)
        } else {
            without(s, gone).push(e)
        },
{
    assert(s.push(e).drop_last() =~= s);
    reveal(Seq::filter);
}

/// What stays of two rows of entries is what stays of the one and then of the other.
proof fn lemma_without_concat(a: Seq<(u64, usize)>, b: Seq<(u64, usize)>, gone: Seq<u64>)
    ensures
        without(a + b, gone) == without(a, gone) + without(b, gone),
{
    Seq::filter_distributes_over_add(a, b, |e: (u64, usize)| !gone.contains(e.0));
}

/// Taking out an entry undoes putting it in, wherever it was put.
pub proof fn lemma_remove_undoes_insert(s: Seq<(u64, usize)>, i: int, key: u64, value: usize)
    requires
        0 <= i <= s.len(),
        !has_key(s, key),
    ensures
        without(s.insert(i, (key, value)), seq![key]) == s,
{
    let gone = seq![key];
    let e = (key, value);
    let a = s.take(i);
    let b = s.skip(i);
    assert(gone[0] == key);
    assert forall|j: int| 0 <= j < a.len() implies !gone.contains((#[trigger] a[j]).0) by {
        assert(s[j] == a[j]);
    }
    assert forall|j: int| 0 <= j < b.len() implies !gone.contains((#[trigger] b[j]).0) by {
        assert(s[i + j] == b[j]);
    }
    assert(s.insert(i, e) =~= a.push(e) + b);
    lemma_without_concat(a.push(e), b, gone);
    lemma_without_push(a, e, gone);
    lemma_without_none(a, gone);
    lemma_without_none(b, gone);
    assert(a + b =~= s);
}

/// Each entry stays, or its slot is given up; and a slot that is given up was that of an entry.
pub proof fn lemma_freed(s: Seq<(u64, usize)>, gone: Seq<u64>, most: int)
    requires
        forall|i: int| 0 <= i < s.len() ==> 1 <= slot((#[trigger] s[i]).0) <= most,
    ensures
        without(s, gone).len() + freed(s, gone).len() == s.len(),
        forall|i: int| 0 <= i < freed(s, gone).len() ==> 1 <= #[trigger] freed(s, gone)[i] <= most,
    decreases s.len(),
{
    if s.len() > 0 {
        let fore = s.drop_last();
        assert forall|i: int| 0 <= i < fore.len() implies 1 <= slot((#[trigger] fore[i]).0)
            <= most by {
            assert(s[i] == fore[i]);
        }
        lemma_freed(fore, gone, most);
        lemma_without_push(fore, s.last(), gone);
        assert(fore.push(s.last()) =~= s);
        assert(s[s.len() - 1] == s.last());
    } else {
        lemma_without_none(s, gone);
    }
}

/// Taking out entries keeps the table laid out.
pub proof fn lemma_freed_keeps_layout(s: Seq<(u64, usize)>, free: Seq<int>, gone: Seq<u64>)
    requires
        laid_out(s, free),
    ensures
        laid_out(without(s, gone), free + freed(s, gone)),
{
    let w = without(s, gone);
    let now = free + freed(s, gone);
    let most = s.len() + free.len();
    lemma_freed(s, gone, most as int);
    lemma_without(s, gone);
    assert(w.len() + now.len() == most);
    assert forall|i: int| 0 <= i < w.len() implies 1 <= slot((#[trigger] w[i]).0) <= most by {
        let k = s.index_of(w[i]);
        assert(s[k] == w[i]);
    }
    assert forall|i: int| 0 <= i < now.len() implies 1 <= #[trigger] now[i] <= most by {
        if i < free.len() {
            assert(now[i] == free[i]);
        } else {
            assert(now[i] == freed(s, gone)[i - free.len()]);
        }
    }
}

/// Where the first `i` entries have lower slots and the others do not, the place is `i`.
pub proof fn lemma_place_for(s: Seq<(u64, usize)>, i: int, k: int)
    requires
        0 <= i <= s.len(),
        forall|j: int| 0 <= j < i ==> slot((#[trigger] s[j]).0) < k,
        forall|j: int| i <= j < s.len() ==> slot((#[trigger] s[j]).0) >= k,
    ensures
        place_for(s, k) == i,
    decreases s.len(),
{
    if s.len() > 0 {
        let fore = s.drop_last();
        assert(s[s.len() - 1] == s.last());
        assert forall|j: int| 0 <= j < fore.len() implies fore[j] == s[j] by {}
        lemma_place_for(
            fore,
            if i == s.len() {
                i - 1
            } else {
                i
            },
            k,
        );
    }
}

/// The place that belongs to a slot is one among the entries, or the end.
pub proof fn lemma_place_in_range(s: Seq<(u64, usize)>, k: int)
    ensures
        0 <= place_for(s, k) <= s.len(),
    decreases s.len(),
{
    if s.len() > 0 {
        lemma_place_in_range(s.drop_last(), k);
    }
}

/// The order of the slots leaves one place for a new entry.
pub proof fn lemma_insert_place(s: Seq<(u64, usize)>, i: int, e: (u64, usize))
    requires
        0 <= i <= s.len(),
        in_slot_order(s.insert(i, e)),
    ensures
        i == place_for(s, slot(e.0)),
{
    let now = s.insert(i, e);
    assert(now[i] == e);
    assert forall|j: int| 0 <= j < i implies slot((#[trigger] s[j]).0) < slot(e.0) by {
        assert(now[j] == s[j]);
    }
    assert forall|j: int| i <= j < s.len() implies slot((#[trigger] s[j]).0) >= slot(e.0) by {
        assert(now[j + 1] == s[j]);
    }
    lemma_place_for(s, i, slot(e.0));
}

/// A new entry keeps the table laid out.
pub proof fn lemma_insert_keeps_layout(
    s: Seq<(u64, usize)>,
    free: Seq<int>,
    i: int,
    e: (u64, usize),
)
    requires
        0 <= i <= s.len(),
        laid_out(s, free),
        slot(e.0) == next_slot(s, free),
    ensures
        laid_out(s.insert(i, e), free_after(free)),
{
    let now = s.insert(i, e);
    assert forall|j: int| 0 <= j < now.len() implies 1 <= slot((#[trigger] now[j]).0) <= now.len()
        + free_after(free).len() by {
        if j < i {
            assert(now[j] == s[j]);
        } else if j > i {
            assert(now[j] == s[j - 1]);
        } else if free.len() > 0 {
            assert(free[free.len() - 1] == free.last());
        }
    }
}

/// Where no slot is free, a new entry comes last.
pub proof fn lemma_no_free_slot_comes_last(s: Seq<(u64, usize)>)
    requires
        laid_out(s, Seq::<int>::empty()),
    ensures
        place_for(s, s.len() + 1int) == s.len(),
{
    lemma_place_for(s, s.len() as int, s.len() + 1int);
}

/// Of entries in the order of their slots, none but the entry itself has its key.
proof fn lemma_keys_differ(s: Seq<(u64, usize)>, i: int, j: int)
    requires
        in_slot_order(s),
        0 <= i < s.len(),
        0 <= j < s.len(),
        i != j,
    ensures
        s[i].0 != s[j].0,
        i < j ==> slot(s[i].0) < slot(s[j].0),
        j < i ==> slot(s[j].0) < slot(s[i].0),
{
}

/// Taking out one entry leaves all others in order.
pub proof fn lemma_without_one(s: Seq<(u64, usize)>, k: int)
    requires
        in_slot_order(s),
        0 <= k < s.len(),
    ensures
        without(s, seq![s[k].0]) == s.remove(k),
{
    let rest = s.remove(k);
    let e = s[k];
    assert(rest.insert(k, e) =~= s);
    assert(!has_key(rest, e.0)) by {
        if has_key(rest, e.0) {
            let j = choose|j: int| 0 <= j < rest.len() && (#[trigger] rest[j]).0 == e.0;
            if j < k {
                assert(rest[j] == s[j]);
                lemma_keys_differ(s, j, k);
            } else {
                assert(rest[j] == s[j + 1]);
                lemma_keys_differ(s, j + 1, k);
            }
        }
    }
    lemma_remove_undoes_insert(rest, k, e.0, e.1);
}

/// Taking out one entry gives up its slot and no other.
pub proof fn lemma_freed_one(s: Seq<(u64, usize)>, k: int)
    requires
        in_slot_order(s),
        0 <= k < s.len(),
    ensures
        freed(s, seq![s[k].0]) == seq![slot(s[k].0)],
{
    lemma_freed_up_to(s, k, s.len() as int);
    assert(s.take(s.len() as int) =~= s);
}

proof fn lemma_freed_up_to(s: Seq<(u64, usize)>, k: int, n: int)
    requires
        in_slot_order(s),
        0 <= k < s.len(),
        0 <= n <= s.len(),
    ensures
        freed(s.take(n), seq![s[k].0]) == if k < n {
            seq![slot(s[k].0)]
        } else {
            seq![]
        },
    decreases n,
{
    let gone = seq![s[k].0];
    if n > 0 {
        lemma_freed_up_to(s, k, n - 1);
        assert(s.take(n).drop_last() =~= s.take(n - 1));
        assert(s.take(n).last() == s[n - 1]);
        assert(gone[0] == s[k].0);
        if n - 1 != k {
            lemma_keys_differ(s, n - 1, k);
        } else {
            assert(Seq::<int>::empty().push(slot(s[k].0)) =~= seq![slot(s[k].0)]);
        }
    }
}

} // verus!
