//! Lists of elements kept by tile id.

use crate::elements::{element_views, ElementView, ProcessedElement};
use std::collections::BTreeMap;
use vstd::prelude::*;

verus! {

/// What the map holds for an id; nothing for an id that it does not list.
pub open spec fn bucket_in(map: Map<(i32, i32), Vec<ProcessedElement>>, id: (i32, i32)) -> Seq<
    ElementView,
> {
    if map.contains_key(id) {
        element_views(map[id]@)
    } else {
        Seq::empty()
    }
}

/// The map lists only ids that hold an element.
pub open spec fn lists_no_empty_bucket(map: Map<(i32, i32), Vec<ProcessedElement>>) -> bool {
    forall|id: (i32, i32)| #[trigger] map.contains_key(id) ==> map[id]@.len() > 0
}

/// Adds an element at the end of what the map holds for `id`.
pub(crate) fn push_to_bucket(
    map: &mut BTreeMap<(i32, i32), Vec<ProcessedElement>>,
    id: (i32, i32),
    element: ProcessedElement,
)
    requires
        lists_no_empty_bucket(old(map)@),
    ensures
        lists_no_empty_bucket(final(map)@),
        bucket_in(final(map)@, id) == bucket_in(old(map)@, id).push(element@),
        forall|other: (i32, i32)|
            other != id ==> #[trigger] bucket_in(final(map)@, other) == bucket_in(
                old(map)@,
                other,
            ),
{
    broadcast use {vstd::laws_cmp::group_laws_cmp, vstd::std_specs::btree::group_btree_axioms};

    let ghost before = map@;
    let mut bucket: Vec<ProcessedElement> = match map.remove(&id) {
        Some(bucket) => bucket,
        None => Vec::new(),
    };
    let ghost held = element_views(bucket@);
    assert(held =~= bucket_in(before, id));
    let ghost added = element@;
    bucket.push(element);
    assert(element_views(bucket@) =~= held.push(added));
    map.insert(id, bucket);
}

/// What the map holds for `id`.
pub fn get_bucket<'a>(
    map: &'a BTreeMap<(i32, i32), Vec<ProcessedElement>>,
    id: (i32, i32),
) -> (r: Option<&'a Vec<ProcessedElement>>)
    ensures
        r is Some <==> map@.contains_key(id),
        r matches Some(bucket) ==> *bucket == map@[id],
{
    broadcast use {vstd::laws_cmp::group_laws_cmp, vstd::std_specs::btree::group_btree_axioms};

    map.get(&id)
}

} // verus!
