//! The four multi-value maps of the routing graph, each an `evmap` write
//! handle. A map has two faces: what has been written to it (staged), and
//! what a reader sees (published). Writing changes only the first;
//! refreshing copies the first onto the second. Reads go through the write
//! handle's own read handle.
//!
//! Each map is modelled as the multiset of its (key, value) pairs. Nothing
//! here is proved: the contracts restate what `evmap` documents.

use vstd::multiset::Multiset;
use vstd::prelude::*;

verus! {

/// Way id to the speeds and penalties of the way:
/// (forward speed, reverse speed, forward penalty, reverse penalty).
#[verifier::external_body]
pub struct WayCostStore {
    handle: evmap::WriteHandle<u64, (Option<u32>, Option<u32>, Option<u32>, Option<u32>)>,
}

/// The pairs written to the map so far.
pub uninterp spec fn way_costs_staged(store: WayCostStore) -> Multiset<
    (u64, (Option<u32>, Option<u32>, Option<u32>, Option<u32>)),
>;

/// The pairs that a reader of the map sees.
pub uninterp spec fn way_costs_published(store: WayCostStore) -> Multiset<
    (u64, (Option<u32>, Option<u32>, Option<u32>, Option<u32>)),
>;

/// `evmap::new`: a map that holds nothing and shows nothing.
#[verifier::external_body]
pub(crate) fn way_costs_new() -> (store: WayCostStore)
    ensures
        way_costs_staged(store) =~= Multiset::empty(),
        way_costs_published(store) =~= Multiset::empty(),
{
    WayCostStore { handle: evmap::new().1 }
}

/// `WriteHandle::insert`: adds one value to the bag of the key; readers see
/// no change.
#[verifier::external_body]
pub(crate) fn way_costs_insert(
    store: &mut WayCostStore,
    way: u64,
    row: (Option<u32>, Option<u32>, Option<u32>, Option<u32>),
)
    ensures
        way_costs_staged(*final(store)) == way_costs_staged(*old(store)).insert((way, row)),
        way_costs_published(*final(store)) == way_costs_published(*old(store)),
{
    store.handle.insert(way, row);
}

/// `WriteHandle::purge`: removes every bag; readers see no change.
#[verifier::external_body]
pub(crate) fn way_costs_purge(store: &mut WayCostStore)
    ensures
        way_costs_staged(*final(store)) =~= Multiset::empty(),
        way_costs_published(*final(store)) == way_costs_published(*old(store)),
{
    store.handle.purge();
}

/// `WriteHandle::refresh`: readers now see all that was written.
#[verifier::external_body]
pub(crate) fn way_costs_refresh(store: &mut WayCostStore)
    ensures
        way_costs_staged(*final(store)) == way_costs_staged(*old(store)),
        way_costs_published(*final(store)) == way_costs_staged(*old(store)),
{
    store.handle.refresh();
}

/// `ReadHandle::get_one`: one of the values that readers see under the key,
/// no matter which; `None` where they see none.
#[verifier::external_body]
pub(crate) fn way_costs_get_one(store: &WayCostStore, way: u64) -> (row: Option<
    (Option<u32>, Option<u32>, Option<u32>, Option<u32>),
>)
    ensures
        match row {
            Some(found) => way_costs_published(*store).count((way, found)) > 0,
            None => forall|any: (Option<u32>, Option<u32>, Option<u32>, Option<u32>)|
                way_costs_published(*store).count((way, any)) == 0,
        },
{
    match store.handle.get_one(&way) {
        Some(found) => Some(*found),
        None => None,
    }
}

/// Way id to the polyline of the way, each vertex as
/// (tile x, tile y, zoom, extent, x in tile, y in tile).
#[verifier::external_body]
pub struct GeometryStore {
    handle: evmap::WriteHandle<u64, Vec<(u32, u32, u32, u32, i32, i32)>>,
}

/// The pairs written to the map so far.
pub uninterp spec fn geometry_staged(store: GeometryStore) -> Multiset<
    (u64, Seq<(u32, u32, u32, u32, i32, i32)>),
>;

/// The pairs that a reader of the map sees.
pub uninterp spec fn geometry_published(store: GeometryStore) -> Multiset<
    (u64, Seq<(u32, u32, u32, u32, i32, i32)>),
>;

/// `evmap::new`: a map that holds nothing and shows nothing.
#[verifier::external_body]
pub(crate) fn geometry_new() -> (store: GeometryStore)
    ensures
        geometry_staged(store) =~= Multiset::empty(),
        geometry_published(store) =~= Multiset::empty(),
{
    GeometryStore { handle: evmap::new().1 }
}

/// `WriteHandle::insert`: adds one value to the bag of the key; readers see
/// no change.
#[verifier::external_body]
pub(crate) fn geometry_insert(
    store: &mut GeometryStore,
    way: u64,
    polyline: Vec<(u32, u32, u32, u32, i32, i32)>,
)
    ensures
        geometry_staged(*final(store)) == geometry_staged(*old(store)).insert((way, polyline@)),
        geometry_published(*final(store)) == geometry_published(*old(store)),
{
    store.handle.insert(way, polyline);
}

/// `WriteHandle::purge`: removes every bag; readers see no change.
#[verifier::external_body]
pub(crate) fn geometry_purge(store: &mut GeometryStore)
    ensures
        geometry_staged(*final(store)) =~= Multiset::empty(),
        geometry_published(*final(store)) == geometry_published(*old(store)),
{
    store.handle.purge();
}

/// `WriteHandle::refresh`: readers now see all that was written.
#[verifier::external_body]
pub(crate) fn geometry_refresh(store: &mut GeometryStore)
    ensures
        geometry_staged(*final(store)) == geometry_staged(*old(store)),
        geometry_published(*final(store)) == geometry_staged(*old(store)),
{
    store.handle.refresh();
}

/// `ReadHandle::get_one`: one of the values that readers see under the key,
/// no matter which; `None` where they see none.
#[verifier::external_body]
pub(crate) fn geometry_get_one(store: &GeometryStore, way: u64) -> (polyline: Option<
    Vec<(u32, u32, u32, u32, i32, i32)>,
>)
    ensures
        match polyline {
            Some(found) => geometry_published(*store).count((way, found@)) > 0,
            None => forall|any: Seq<(u32, u32, u32, u32, i32, i32)>|
                geometry_published(*store).count((way, any)) == 0,
        },
{
    match store.handle.get_one(&way) {
        Some(found) => Some(found.clone()),
        None => None,
    }
}

/// Way id to the stops on the way, each as (way id, distance along the way
/// in millimetres).
#[verifier::external_body]
pub struct NodeStore {
    handle: evmap::WriteHandle<u64, (u64, i32)>,
}

/// The pairs written to the map so far.
pub uninterp spec fn nodes_staged(store: NodeStore) -> Multiset<(u64, (u64, i32))>;

/// The pairs that a reader of the map sees.
pub uninterp spec fn nodes_published(store: NodeStore) -> Multiset<(u64, (u64, i32))>;

/// `evmap::new`: a map that holds nothing and shows nothing.
#[verifier::external_body]
pub(crate) fn nodes_new() -> (store: NodeStore)
    ensures
        nodes_staged(store) =~= Multiset::empty(),
        nodes_published(store) =~= Multiset::empty(),
{
    NodeStore { handle: evmap::new().1 }
}

/// `WriteHandle::insert`: adds one value to the bag of the key; readers see
/// no change.
#[verifier::external_body]
pub(crate) fn nodes_insert(store: &mut NodeStore, way: u64, node: (u64, i32))
    ensures
        nodes_staged(*final(store)) == nodes_staged(*old(store)).insert((way, node)),
        nodes_published(*final(store)) == nodes_published(*old(store)),
{
    store.handle.insert(way, node);
}

/// `WriteHandle::purge`: removes every bag; readers see no change.
#[verifier::external_body]
pub(crate) fn nodes_purge(store: &mut NodeStore)
    ensures
        nodes_staged(*final(store)) =~= Multiset::empty(),
        nodes_published(*final(store)) == nodes_published(*old(store)),
{
    store.handle.purge();
}

/// `WriteHandle::refresh`: readers now see all that was written.
#[verifier::external_body]
pub(crate) fn nodes_refresh(store: &mut NodeStore)
    ensures
        nodes_staged(*final(store)) == nodes_staged(*old(store)),
        nodes_published(*final(store)) == nodes_staged(*old(store)),
{
    store.handle.refresh();
}

/// `ReadHandle::get`: the bag that readers see under the key, in no
/// particular order; empty where they see none.
#[verifier::external_body]
pub(crate) fn nodes_get(store: &NodeStore, way: u64) -> (nodes: Vec<(u64, i32)>)
    ensures
        forall|node: (u64, i32)|
            nodes@.to_multiset().count(node) == nodes_published(*store).count((way, node)),
{
    match store.handle.get(&way) {
        Some(bag) => bag.iter().copied().collect(),
        None => Vec::new(),
    }
}

/// Stop to the transitions that leave it, each as the pair of
/// (target way, cost time, actual time, distance), the cost of taking it, and
/// (from way, distance along it, to way, distance along that), its course.
#[verifier::external_body]
pub struct TransitionStore {
    handle: evmap::WriteHandle<(u64, i32), ((u64, u64, u64, u64), (u64, i32, u64, i32))>,
}

/// The pairs written to the map so far.
pub uninterp spec fn transitions_staged(store: TransitionStore) -> Multiset<
    ((u64, i32), ((u64, u64, u64, u64), (u64, i32, u64, i32))),
>;

/// The pairs that a reader of the map sees.
pub uninterp spec fn transitions_published(store: TransitionStore) -> Multiset<
    ((u64, i32), ((u64, u64, u64, u64), (u64, i32, u64, i32))),
>;

/// `evmap::new`: a map that holds nothing and shows nothing.
#[verifier::external_body]
pub(crate) fn transitions_new() -> (store: TransitionStore)
    ensures
        transitions_staged(store) =~= Multiset::empty(),
        transitions_published(store) =~= Multiset::empty(),
{
    TransitionStore { handle: evmap::new().1 }
}

/// `WriteHandle::insert`: adds one value to the bag of the key; readers see
/// no change.
#[verifier::external_body]
pub(crate) fn transitions_insert(
    store: &mut TransitionStore,
    node: (u64, i32),
    row: ((u64, u64, u64, u64), (u64, i32, u64, i32)),
)
    ensures
        transitions_staged(*final(store)) == transitions_staged(*old(store)).insert((node, row)),
        transitions_published(*final(store)) == transitions_published(*old(store)),
{
    store.handle.insert(node, row);
}

/// `WriteHandle::purge`: removes every bag; readers see no change.
#[verifier::external_body]
pub(crate) fn transitions_purge(store: &mut TransitionStore)
    ensures
        transitions_staged(*final(store)) =~= Multiset::empty(),
        transitions_published(*final(store)) == transitions_published(*old(store)),
{
    store.handle.purge();
}

/// `WriteHandle::refresh`: readers now see all that was written.
#[verifier::external_body]
pub(crate) fn transitions_refresh(store: &mut TransitionStore)
    ensures
        transitions_staged(*final(store)) == transitions_staged(*old(store)),
        transitions_published(*final(store)) == transitions_staged(*old(store)),
{
    store.handle.refresh();
}

/// `ReadHandle::get`: the bag that readers see under the key, in no
/// particular order; empty where they see none.
#[verifier::external_body]
pub(crate) fn transitions_get(store: &TransitionStore, node: (u64, i32)) -> (rows: Vec<
    ((u64, u64, u64, u64), (u64, i32, u64, i32)),
>)
    ensures
        forall|row: ((u64, u64, u64, u64), (u64, i32, u64, i32))|
            rows@.to_multiset().count(row) == transitions_published(*store).count((node, row)),
{
    match store.handle.get(&node) {
        Some(bag) => bag.iter().copied().collect(),
        None => Vec::new(),
    }
}

} // verus!
