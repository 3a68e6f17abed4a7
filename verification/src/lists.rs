//! Lists with gaps.

use vstd::prelude::*;

verus! {

/// What is there of `items`, in order.
pub open spec fn present_of<T>(items: Seq<Option<T>>) -> Seq<T>
    decreases items.len(),
{
    if items.len() == 0 {
        Seq::empty()
    } else {
        match items.last() {
            Some(item) => present_of(items.drop_last()).push(item),
            None => present_of(items.drop_last()),
        }
    }
}

/// Drops the gaps of a list.
pub fn present<T>(items: Vec<Option<T>>) -> (kept: Vec<T>)
    ensures
        kept@ == present_of(items@),
{
    let mut kept: Vec<T> = Vec::new();
    let ghost all = items@;
    assert(all.take(0) =~= Seq::empty());
    for item in it: items
        invariant
            it.seq() == all,
            kept@ == present_of(all.take(it.index())),
    {
        assert(all.take(it.index() + 1).drop_last() =~= all.take(it.index()));
        assert(all.take(it.index() + 1).last() == item);
        if let Some(there) = item {
            kept.push(there);
        }
    }
    assert(all.take(all.len() as int) =~= all);
    kept
}

/// A further item is kept at the end, and a further gap changes nothing; an empty list has nothing.
pub proof fn law_items_are_kept_in_order<T>(items: Seq<Option<T>>, item: T)
    ensures
        present_of(items.push(Some(item))) == present_of(items).push(item),
        present_of(items.push(None)) == present_of(items),
        items.len() == 0 ==> present_of(items).len() == 0,
{
    assert(items.push(Some(item)).drop_last() =~= items);
    assert(items.push(None).drop_last() =~= items);
}

/// Every item that is there is kept, and nothing is kept that was not there.
pub proof fn law_exactly_the_items_are_kept<T>(items: Seq<Option<T>>, item: T)
    ensures
        items.contains(Some(item)) <==> present_of(items).contains(item),
    decreases items.len(),
{
    if items.len() > 0 {
        let before = items.drop_last();
        let kept = present_of(before);
        law_exactly_the_items_are_kept(before, item);
        assert(items =~= before.push(items.last()));
        assert(items.contains(Some(item)) <==> before.contains(Some(item)) || items.last() == Some(
            item,
        )) by {
            if items.contains(Some(item)) {
                let i = choose|i: int| 0 <= i < items.len() && items[i] == Some(item);
                if i < before.len() {
                    assert(before[i] == Some(item));
                }
            }
            if before.contains(Some(item)) {
                let i = choose|i: int| 0 <= i < before.len() && before[i] == Some(item);
                assert(items[i] == Some(item));
            }
            assert(items[items.len() - 1] == items.last());
        }
        if items.last() is Some {
            let last = items.last()->0;
            let now = kept.push(last);
            assert(now[now.len() - 1] == last);
            if now.contains(item) {
                let i = choose|i: int| 0 <= i < now.len() && now[i] == item;
                if i < kept.len() {
                    assert(kept[i] == item);
                }
            }
            if kept.contains(item) {
                let i = choose|i: int| 0 <= i < kept.len() && kept[i] == item;
                assert(now[i] == item);
            }
        }
    }
}

} // verus!
