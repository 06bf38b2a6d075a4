use vstd::prelude::*;
use std::collections::HashMap;

verus! {

broadcast use {vstd::std_specs::hash::group_hash_axioms, vstd::seq_lib::group_seq_properties};

/// The lens calibration of each camera, by camera id. The calibration type is a
/// parameter: the registry never looks inside a calibration.
pub struct UndistortionManager<C> {
    pub calibrations: HashMap<i32, C>,
}

impl<C> UndistortionManager<C> {
    /// A registry with no camera.
    pub fn new() -> (r: Self)
        ensures
            r.calibrations@ == Map::<i32, C>::empty(),
    {
        UndistortionManager { calibrations: HashMap::new() }
    }

    /// Records `calib` as the calibration of `camera_id`, replacing any earlier one.
    pub fn set_calibration(&mut self, camera_id: i32, calib: C)
        ensures
            final(self).calibrations@ == old(self).calibrations@.insert(camera_id, calib),
    {
        self.calibrations.insert(camera_id, calib);
    }

    /// Whether a calibration is recorded for `camera_id`.
    pub fn has_camera(&self, camera_id: i32) -> (r: bool)
        ensures
            r == self.calibrations@.contains_key(camera_id),
    {
        self.calibrations.contains_key(&camera_id)
    }
}

/// The homography of each camera, by camera id. The matrix type is a parameter:
/// the registry never looks inside a matrix.
pub struct HomographyManager<M> {
    pub homographies: HashMap<i32, M>,
}

impl<M> HomographyManager<M> {
    /// A registry with no camera.
    pub fn new() -> (r: Self)
        ensures
            r.homographies@ == Map::<i32, M>::empty(),
    {
        HomographyManager { homographies: HashMap::new() }
    }

    /// Records `matrix` as the homography of `camera_id`, replacing any earlier one.
    pub fn set_homography(&mut self, camera_id: i32, matrix: M)
        ensures
            final(self).homographies@ == old(self).homographies@.insert(camera_id, matrix),
    {
        self.homographies.insert(camera_id, matrix);
    }

    /// Whether a homography is recorded for `camera_id`.
    pub fn has_camera(&self, camera_id: i32) -> (r: bool)
        ensures
            r == self.homographies@.contains_key(camera_id),
    {
        self.homographies.contains_key(&camera_id)
    }

    /// The homography recorded for `camera_id`, if any.
    pub fn get_homography(&self, camera_id: i32) -> (r: Option<&M>)
        ensures
            r is Some == self.homographies@.contains_key(camera_id),
            r matches Some(m) ==> *m == self.homographies@[camera_id],
    {
        self.homographies.get(&camera_id)
    }
}

/// Once a camera's homography is set, `has_camera` holds for it and
/// `get_homography` returns that matrix; every other camera keeps what it had.
pub proof fn lemma_homography_read_after_write<M>(
    before: HomographyManager<M>,
    after: HomographyManager<M>,
    camera_id: i32,
    matrix: M,
    other: i32,
)
    requires
        after.homographies@ == before.homographies@.insert(camera_id, matrix),
    ensures
        after.homographies@.contains_key(camera_id),
        after.homographies@[camera_id] == matrix,
        other != camera_id ==> after.homographies@.contains_key(other)
            == before.homographies@.contains_key(other),
        other != camera_id && before.homographies@.contains_key(other)
            ==> after.homographies@[other] == before.homographies@[other],
{
}

/// Once a camera's calibration is set, `has_camera` holds for it and the registry
/// holds that calibration for it; every other camera keeps what it had.
pub proof fn lemma_calibration_read_after_write<C>(
    before: UndistortionManager<C>,
    after: UndistortionManager<C>,
    camera_id: i32,
    calib: C,
    other: i32,
)
    requires
        after.calibrations@ == before.calibrations@.insert(camera_id, calib),
    ensures
        after.calibrations@.contains_key(camera_id),
        after.calibrations@[camera_id] == calib,
        other != camera_id ==> after.calibrations@.contains_key(other)
            == before.calibrations@.contains_key(other),
        other != camera_id && before.calibrations@.contains_key(other)
            ==> after.calibrations@[other] == before.calibrations@[other],
{
}

/// The detections of one batch that a single camera saw, with the pixel points
/// that are sent for conversion on their behalf, in the order they are sent.
pub struct CameraGroup {
    pub camera_id: i32,
    /// Positions, within the batch, of the detections this camera saw.
    pub indices: Vec<usize>,
    /// For each point sent for conversion, the batch position of its detection.
    pub point_to_item: Vec<usize>,
    /// For each point sent for conversion: 0 for the center, `c + 1` for corner `c`.
    pub point_type: Vec<u8>,
}

/// The batch positions whose camera is `camera`, in increasing order.
pub open spec fn indices_of(cameras: Seq<i32>, camera: i32) -> Seq<usize>
    decreases cameras.len(),
{
    if cameras.len() == 0 {
        seq![]
    } else {
        let prev = indices_of(cameras.drop_last(), camera);
        if cameras.last() == camera {
            prev.push((cameras.len() - 1) as usize)
        } else {
            prev
        }
    }
}

/// The distinct cameras of a batch, in the order in which they first appear.
pub open spec fn first_seen(cameras: Seq<i32>) -> Seq<i32>
    decreases cameras.len(),
{
    if cameras.len() == 0 {
        seq![]
    } else {
        let prev = first_seen(cameras.drop_last());
        if prev.contains(cameras.last()) {
            prev
        } else {
            prev.push(cameras.last())
        }
    }
}

/// For each point sent for a group's detections, the detection it belongs to:
/// five points per detection, in the order of the detections.
pub open spec fn layout_items(indices: Seq<usize>) -> Seq<usize> {
    Seq::new(5 * indices.len(), |p: int| indices[p / 5])
}

/// For each point sent for `n` detections, its kind: 0 (center), then 1 to 4 (corners).
pub open spec fn layout_types(n: nat) -> Seq<u8> {
    Seq::new(5 * n, |p: int| (p % 5) as u8)
}

/// `group` is the group of camera `group.camera_id` in a batch whose cameras are `cameras`.
pub open spec fn is_camera_group(cameras: Seq<i32>, group: CameraGroup) -> bool {
    &&& group.indices@ == indices_of(cameras, group.camera_id)
    &&& group.point_to_item@ == layout_items(group.indices@)
    &&& group.point_type@ == layout_types(group.indices@.len())
}

/// `groups` is the split of a batch whose cameras are `cameras`: one group per
/// distinct camera, in order of first appearance.
pub open spec fn is_grouping_of(cameras: Seq<i32>, groups: Seq<CameraGroup>) -> bool {
    &&& groups.len() == first_seen(cameras).len()
    &&& forall|g: int|
        0 <= g < groups.len() ==> (#[trigger] groups[g]).camera_id == first_seen(cameras)[g]
    &&& forall|g: int| 0 <= g < groups.len() ==> is_camera_group(cameras, #[trigger] groups[g])
}

proof fn lemma_indices_of(cameras: Seq<i32>, camera: i32)
    requires
        cameras.len() <= usize::MAX,
    ensures
        forall|k: int|
            0 <= k < indices_of(cameras, camera).len() ==> {
                let x = #[trigger] indices_of(cameras, camera)[k];
                &&& x < cameras.len()
                &&& cameras[x as int] == camera
            },
        forall|k1: int, k2: int|
            0 <= k1 < k2 < indices_of(cameras, camera).len() ==> #[trigger] indices_of(
                cameras,
                camera,
            )[k1] < #[trigger] indices_of(cameras, camera)[k2],
        forall|j: int|
            0 <= j < cameras.len() && cameras[j] == camera ==> indices_of(
                cameras,
                camera,
            ).contains(j as usize),
        indices_of(cameras, camera).len() > 0 <==> first_seen(cameras).contains(camera),
    decreases cameras.len(),
{
    if cameras.len() > 0 {
        let prev = cameras.drop_last();
        lemma_indices_of(prev, camera);
        lemma_first_seen(prev);
        let s = indices_of(cameras, camera);
        let ps = indices_of(prev, camera);
        if cameras.last() == camera {
            assert(s == ps.push((cameras.len() - 1) as usize));
        } else {
            assert(s == ps);
        }
        assert forall|k: int| 0 <= k < s.len() implies s[k] < cameras.len() && cameras[s[k] as int]
            == camera by {
            if k < ps.len() {
                assert(s[k] == ps[k]);
                assert(prev[ps[k] as int] == camera);
            }
        }
        assert forall|k1: int, k2: int| 0 <= k1 < k2 < s.len() implies s[k1] < s[k2] by {
            if k2 < ps.len() {
                assert(s[k1] == ps[k1]);
                assert(s[k2] == ps[k2]);
            } else {
                assert(s[k1] == ps[k1]);
            }
        }
        assert forall|j: int| 0 <= j < cameras.len() && cameras[j] == camera implies s.contains(
            j as usize,
        ) by {
            if j < cameras.len() - 1 {
                assert(prev[j] == camera);
                let k = choose|k: int| 0 <= k < ps.len() && ps[k] == j as usize;
                assert(s[k] == j as usize);
            } else {
                assert(s[s.len() - 1] == j as usize);
            }
        }
        if first_seen(cameras).contains(camera) {
            if !first_seen(prev).contains(camera) {
                assert(cameras.last() == camera);
                assert(s.len() > 0);
            }
        }
        if s.len() > 0 {
            if cameras.last() != camera {
                assert(first_seen(prev).contains(camera));
                let k = choose|k: int|
                    0 <= k < first_seen(prev).len() && first_seen(prev)[k] == camera;
                if !first_seen(prev).contains(cameras.last()) {
                    assert(first_seen(cameras)[k] == camera);
                }
            } else {
                if first_seen(prev).contains(camera) {
                } else {
                    assert(first_seen(cameras).last() == camera);
                }
            }
        }
    }
}

proof fn lemma_first_seen(cameras: Seq<i32>)
    ensures
        first_seen(cameras).no_duplicates(),
        forall|j: int| 0 <= j < cameras.len() ==> first_seen(cameras).contains(#[trigger] cameras[j]),
        forall|k: int|
            0 <= k < first_seen(cameras).len() ==> cameras.contains(#[trigger] first_seen(cameras)[k]),
    decreases cameras.len(),
{
    if cameras.len() > 0 {
        let prev = cameras.drop_last();
        lemma_first_seen(prev);
        let fs = first_seen(cameras);
        let fp = first_seen(prev);
        assert forall|j: int| 0 <= j < cameras.len() implies fs.contains(#[trigger] cameras[j]) by {
            if j < cameras.len() - 1 {
                assert(fp.contains(prev[j]));
                let k = choose|k: int| 0 <= k < fp.len() && fp[k] == prev[j];
                assert(fs[k] == cameras[j]);
            } else if fp.contains(cameras.last()) {
            } else {
                assert(fs[fs.len() - 1] == cameras[j]);
            }
        }
        assert forall|k: int| 0 <= k < fs.len() implies cameras.contains(#[trigger] fs[k]) by {
            if k < fp.len() {
                assert(prev.contains(fp[k]));
                let j = choose|j: int| 0 <= j < prev.len() && prev[j] == fp[k];
                assert(cameras[j] == fs[k]);
            } else {
                assert(cameras[cameras.len() - 1] == fs[k]);
            }
        }
    }
}

/// The points sent for conversion on behalf of `indices`: for each detection in
/// order, its center (kind 0) and then its corners (kinds 1 to 4).
fn build_layout(indices: &Vec<usize>) -> (layout: (Vec<usize>, Vec<u8>))
    requires
        indices@.len() * 5 <= usize::MAX,
    ensures
        layout.0@ == layout_items(indices@),
        layout.1@ == layout_types(indices@.len()),
{
    let mut point_to_item: Vec<usize> = Vec::new();
    let mut point_type: Vec<u8> = Vec::new();
    let count = indices.len();
    for k in 0..count
        invariant
            count == indices.len(),
            count * 5 <= usize::MAX,
            point_to_item@ == layout_items(indices@.take(k as int)),
            point_type@ == layout_types(k as nat),
    {
        let idx = indices[k];
        point_to_item.push(idx);
        point_type.push(0);
        let mut c: u8 = 0;
        while c < 4
            invariant
                0 <= c <= 4,
                k < count,
                idx == indices@[k as int],
                point_to_item@ == layout_items(indices@.take(k as int)) + Seq::new(
                    (c + 1) as nat,
                    |p: int| idx,
                ),
                point_type@ == layout_types(k as nat) + Seq::new(
                    (c + 1) as nat,
                    |p: int| p as u8,
                ),
            decreases 4 - c,
        {
            point_to_item.push(idx);
            point_type.push(c + 1);
            c = c + 1;
            assert(point_to_item@ =~= layout_items(indices@.take(k as int)) + Seq::new(
                (c + 1) as nat,
                |p: int| idx,
            ));
            assert(point_type@ =~= layout_types(k as nat) + Seq::new(
                (c + 1) as nat,
                |p: int| p as u8,
            ));
        }
        assert(point_to_item@ =~= layout_items(indices@.take(k + 1)));
        assert(point_type@ =~= layout_types((k + 1) as nat));
    }
    assert(indices@.take(count as int) == indices@);
    (point_to_item, point_type)
}

/// Splits a batch by camera: one group per distinct camera, in order of first
/// appearance, each holding the batch positions of that camera's detections and
/// the layout of the points (center, then the four corners of each detection)
/// that are sent for conversion.
pub fn group_by_camera(camera_ids: &[i32]) -> (groups: Vec<CameraGroup>)
    requires
        camera_ids@.len() * 5 <= usize::MAX,
    ensures
        is_grouping_of(camera_ids@, groups@),
{
    let n = camera_ids.len();
    let ghost cams = camera_ids@;
    let mut camera_indices: HashMap<i32, Vec<usize>> = HashMap::new();
    let mut order: Vec<i32> = Vec::new();
    for i in 0..n
        invariant
            n == cams.len(),
            cams == camera_ids@,
            order@ == first_seen(cams.take(i as int)),
            forall|c: i32|
                #[trigger] camera_indices@.contains_key(c) <==> first_seen(
                    cams.take(i as int),
                ).contains(c),
            forall|c: i32|
                #[trigger] camera_indices@.contains_key(c) ==> camera_indices@[c]@ == indices_of(
                    cams.take(i as int),
                    c,
                ),
    {
        let cam = camera_ids[i];
        let ghost prefix = cams.take(i as int);
        let ghost next = cams.take(i + 1);
        assert(next.drop_last() == prefix);
        assert(next.last() == cam);
        proof {
            lemma_indices_of(prefix, cam);
        }
        match camera_indices.remove(&cam) {
            Some(mut v) => {
                v.push(i);
                camera_indices.insert(cam, v);
            },
            None => {
                let mut v = Vec::new();
                v.push(i);
                camera_indices.insert(cam, v);
                order.push(cam);
            },
        }
        assert forall|c: i32| #[trigger]
            camera_indices@.contains_key(c) implies camera_indices@[c]@ == indices_of(next, c) by {
            if c != cam {
                assert(indices_of(next, c) == indices_of(prefix, c));
            }
        }
    }
    assert(cams.take(n as int) == cams);
    proof {
        lemma_first_seen(cams);
    }
    let mut groups: Vec<CameraGroup> = Vec::new();
    let m = order.len();
    for j in 0..m
        invariant
            n == cams.len(),
            cams == camera_ids@,
            n * 5 <= usize::MAX,
            m == order.len(),
            order@ == first_seen(cams),
            order@.no_duplicates(),
            groups.len() == j,
            forall|c: i32|
                #[trigger] camera_indices@.contains_key(c) <==> (first_seen(cams).contains(c)
                    && !order@.take(j as int).contains(c)),
            forall|c: i32|
                #[trigger] camera_indices@.contains_key(c) ==> camera_indices@[c]@ == indices_of(
                    cams,
                    c,
                ),
            forall|g: int| 0 <= g < j ==> (#[trigger] groups[g]).camera_id == order@[g],
            forall|g: int| 0 <= g < j ==> is_camera_group(cams, #[trigger] groups[g]),
    {
        let cam = order[j];
        proof {
            lemma_first_seen(cams);
            lemma_indices_of(cams, cam);
            assert(first_seen(cams).contains(cam));
            assert(!order@.take(j as int).contains(cam));
        }
        let indices = match camera_indices.remove(&cam) {
            Some(v) => v,
            None => Vec::new(),
        };
        assert(indices@ == indices_of(cams, cam));
        assert(indices@.len() <= n) by {
            lemma_increasing_bounded(indices@, n as int);
        }
        let (point_to_item, point_type) = build_layout(&indices);
        groups.push(CameraGroup { camera_id: cam, indices, point_to_item, point_type });
        assert(order@.take(j + 1) =~= order@.take(j as int).push(cam));
        assert forall|c: i32|
            (#[trigger] camera_indices@.contains_key(c)) == (first_seen(cams).contains(c)
                && !order@.take(j + 1).contains(c)) by {
            if c != cam {
                assert(order@.take(j + 1).contains(c) == order@.take(j as int).contains(c));
            } else {
                assert(order@.take(j + 1)[j as int] == cam);
            }
        }
    }
    groups
}

proof fn lemma_increasing_bounded(s: Seq<usize>, n: int)
    requires
        0 <= n,
        forall|k: int| 0 <= k < s.len() ==> #[trigger] s[k] < n,
        forall|k1: int, k2: int| 0 <= k1 < k2 < s.len() ==> #[trigger] s[k1] < #[trigger] s[k2],
    ensures
        s.len() <= n,
    decreases s.len(),
{
    if s.len() > 0 {
        let t = s.drop_last();
        assert forall|k: int| 0 <= k < t.len() implies #[trigger] t[k] < s.last() by {
            assert(s[k] < s[s.len() - 1]);
        }
        assert(s[s.len() - 1] < n);
        lemma_increasing_bounded(t, s.last() as int);
        assert(t.len() <= s.last());
        assert(s.len() == t.len() + 1);
    }
}

/// Where one detection's converted coordinates come from: positions in the
/// sequence of points converted for its group.
pub struct ItemUpdate {
    /// Batch position of the detection.
    pub index: usize,
    /// Position of the converted point that becomes the detection's center.
    pub center: Option<usize>,
    /// `None` when no corner point of the detection was converted; otherwise one
    /// slot per corner, where an empty slot keeps the zero default.
    pub corners: Option<Vec<Option<usize>>>,
}

/// Point `p` of a group's layout is the point of kind `kind` of detection `item`.
pub open spec fn is_point_of(items: Seq<usize>, types: Seq<u8>, item: usize, kind: u8, p: int) -> bool {
    &&& 0 <= p < items.len()
    &&& items[p] == item
    &&& types[p] == kind
}

/// `r` is the last point of kind `kind` of detection `item`, or `None` when there is none.
pub open spec fn is_last_point(
    items: Seq<usize>,
    types: Seq<u8>,
    item: usize,
    kind: u8,
    r: Option<usize>,
) -> bool {
    match r {
        Some(p) => {
            &&& is_point_of(items, types, item, kind, p as int)
            &&& forall|q: int| p < q ==> !#[trigger] is_point_of(items, types, item, kind, q)
        },
        None => forall|q: int| !#[trigger] is_point_of(items, types, item, kind, q),
    }
}

/// Some point of the layout is a corner (kind 1 to 4) of detection `item`.
pub open spec fn has_corner_point(items: Seq<usize>, types: Seq<u8>, item: usize) -> bool {
    exists|q: int| 0 <= q < items.len() && items[q] == item && 1 <= #[trigger] types[q] <= 4
}

/// `u` is the update of detection `item` that a layout yields: its center from the
/// last center point of `item`, and, where `item` has any corner point, each corner
/// from the last point of that corner.
pub open spec fn is_update_of(items: Seq<usize>, types: Seq<u8>, item: usize, u: ItemUpdate) -> bool {
    &&& u.index == item
    &&& is_last_point(items, types, item, 0, u.center)
    &&& match u.corners {
        Some(slots) => {
            &&& has_corner_point(items, types, item)
            &&& slots@.len() == 4
            &&& forall|c: int|
                0 <= c < 4 ==> is_last_point(items, types, item, (c + 1) as u8, #[trigger] slots@[c])
        },
        None => !has_corner_point(items, types, item),
    }
}

pub open spec fn position_of(m: Map<usize, usize>, item: usize) -> Option<usize> {
    if m.contains_key(item) {
        Some(m[item])
    } else {
        None
    }
}

fn copy_slots(slots: &Vec<Option<usize>>) -> (r: Vec<Option<usize>>)
    ensures
        r@ == slots@,
{
    let mut r: Vec<Option<usize>> = Vec::new();
    for c in 0..slots.len()
        invariant
            r@ == slots@.take(c as int),
    {
        r.push(slots[c]);
        assert(r@ =~= slots@.take(c + 1));
    }
    assert(slots@.take(slots.len() as int) == slots@);
    r
}

/// For each detection of a group, in group order, finds which converted points
/// give its real center and corners: the center from the point of kind 0 that
/// belongs to it, corner `c` from its point of kind `c + 1` (the last such point
/// where there are several).
pub fn assemble_updates(group: &CameraGroup) -> (updates: Vec<ItemUpdate>)
    requires
        group.point_type@.len() == group.point_to_item@.len(),
    ensures
        updates.len() == group.indices.len(),
        forall|k: int|
            0 <= k < updates.len() ==> is_update_of(
                group.point_to_item@,
                group.point_type@,
                group.indices@[k],
                #[trigger] updates[k],
            ),
{
    let items = &group.point_to_item;
    let types = &group.point_type;
    let n = items.len();
    let mut center_map: HashMap<usize, usize> = HashMap::new();
    let mut corners_map: HashMap<usize, Vec<Option<usize>>> = HashMap::new();
    for i in 0..n
        invariant
            n == items@.len(),
            n == types@.len(),
            forall|obj: usize|
                is_last_point(
                    items@.take(i as int),
                    types@.take(i as int),
                    obj,
                    0,
                    #[trigger] position_of(center_map@, obj),
                ),
            forall|obj: usize| #[trigger]
                corners_map@.contains_key(obj) == has_corner_point(
                    items@.take(i as int),
                    types@.take(i as int),
                    obj,
                ),
            forall|obj: usize| #[trigger]
                corners_map@.contains_key(obj) ==> corners_map@[obj]@.len() == 4,
            forall|obj: usize, c: int|
                corners_map@.contains_key(obj) && 0 <= c < 4 ==> is_last_point(
                    items@.take(i as int),
                    types@.take(i as int),
                    obj,
                    (c + 1) as u8,
                    #[trigger] corners_map@[obj]@[c],
                ),
    {
        let t = types[i];
        let obj = items[i];
        let ghost pre_items = items@.take(i as int);
        let ghost pre_types = types@.take(i as int);
        let ghost nxt_items = items@.take(i + 1);
        let ghost nxt_types = types@.take(i + 1);
        let ghost old_centers = center_map@;
        let ghost old_corners = corners_map@;
        assert forall|o: usize, kind: u8, q: int| q < i implies #[trigger] is_point_of(
            nxt_items,
            nxt_types,
            o,
            kind,
            q,
        ) == is_point_of(pre_items, pre_types, o, kind, q) by {}
        assert(is_point_of(nxt_items, nxt_types, obj, t, i as int));
        if t == 0 {
            center_map.insert(obj, i);
        } else if t >= 1 && t <= 4 {
            let mut slots: Vec<Option<usize>> = match corners_map.remove(&obj) {
                Some(v) => v,
                None => {
                    let mut v: Vec<Option<usize>> = Vec::new();
                    v.push(None);
                    v.push(None);
                    v.push(None);
                    v.push(None);
                    v
                },
            };
            slots.set((t - 1) as usize, Some(i));
            corners_map.insert(obj, slots);
        }
        assert forall|o: usize| #[trigger]
            corners_map@.contains_key(o) == has_corner_point(nxt_items, nxt_types, o) by {
            if has_corner_point(pre_items, pre_types, o) {
                let q = choose|q: int|
                    0 <= q < pre_items.len() && pre_items[q] == o && 1 <= #[trigger] pre_types[q]
                        <= 4;
                assert(nxt_types[q] == pre_types[q]);
            }
            if has_corner_point(nxt_items, nxt_types, o) {
                let q = choose|q: int|
                    0 <= q < nxt_items.len() && nxt_items[q] == o && 1 <= #[trigger] nxt_types[q]
                        <= 4;
                if q < i {
                    assert(pre_types[q] == nxt_types[q]);
                }
            }
        }
        assert forall|o: usize|
            is_last_point(
                nxt_items,
                nxt_types,
                o,
                0,
                #[trigger] position_of(center_map@, o),
            ) by {
            assert(is_last_point(pre_items, pre_types, o, 0, position_of(old_centers, o)));
            if o == obj && t == 0 {
            } else {
                assert(position_of(center_map@, o) == position_of(old_centers, o));
                assert(!is_point_of(nxt_items, nxt_types, o, 0, i as int));
            }
        }
        assert forall|o: usize, c: int|
            corners_map@.contains_key(o) && 0 <= c < 4 implies is_last_point(
            nxt_items,
            nxt_types,
            o,
            (c + 1) as u8,
            #[trigger] corners_map@[o]@[c],
        ) by {
            if o == obj && 1 <= t <= 4 {
                if old_corners.contains_key(o) {
                    assert(is_last_point(
                        pre_items,
                        pre_types,
                        o,
                        (c + 1) as u8,
                        old_corners[o]@[c],
                    ));
                } else {
                    assert(!has_corner_point(pre_items, pre_types, o));
                    assert forall|q: int| !#[trigger] is_point_of(
                        pre_items,
                        pre_types,
                        o,
                        (c + 1) as u8,
                        q,
                    ) by {
                        if is_point_of(pre_items, pre_types, o, (c + 1) as u8, q) {
                            assert(1 <= pre_types[q] <= 4);
                        }
                    }
                }
                if c + 1 != t {
                    assert(!is_point_of(nxt_items, nxt_types, o, (c + 1) as u8, i as int));
                }
            } else {
                assert(corners_map@[o] == old_corners[o]);
                assert(is_last_point(
                    pre_items,
                    pre_types,
                    o,
                    (c + 1) as u8,
                    old_corners[o]@[c],
                ));
                assert(!is_point_of(nxt_items, nxt_types, o, (c + 1) as u8, i as int));
            }
        }
    }
    assert(items@.take(n as int) == items@);
    assert(types@.take(n as int) == types@);
    let mut updates: Vec<ItemUpdate> = Vec::new();
    let m = group.indices.len();
    for k in 0..m
        invariant
            m == group.indices.len(),
            items@ == group.point_to_item@,
            types@ == group.point_type@,
            updates.len() == k,
            forall|obj: usize|
                is_last_point(items@, types@, obj, 0, #[trigger] position_of(center_map@, obj)),
            forall|obj: usize| #[trigger]
                corners_map@.contains_key(obj) == has_corner_point(items@, types@, obj),
            forall|obj: usize| #[trigger]
                corners_map@.contains_key(obj) ==> corners_map@[obj]@.len() == 4,
            forall|obj: usize, c: int|
                corners_map@.contains_key(obj) && 0 <= c < 4 ==> is_last_point(
                    items@,
                    types@,
                    obj,
                    (c + 1) as u8,
                    #[trigger] corners_map@[obj]@[c],
                ),
            forall|j: int|
                0 <= j < k ==> is_update_of(
                    items@,
                    types@,
                    group.indices@[j],
                    #[trigger] updates[j],
                ),
    {
        let idx = group.indices[k];
        let center = match center_map.get(&idx) {
            Some(p) => Some(*p),
            None => None,
        };
        let corners = match corners_map.get(&idx) {
            Some(slots) => Some(copy_slots(slots)),
            None => None,
        };
        let u = ItemUpdate { index: idx, center, corners };
        assert(center == position_of(center_map@, idx));
        assert(is_update_of(items@, types@, idx, u));
        updates.push(u);
    }
    updates
}

/// What an update says in terms of the group's points: its center is a point of
/// kind 0 of its detection with no such point after it (or there is none); it has
/// corners exactly when some point of the detection has kind 1 to 4; and then
/// slot `c` is a point of kind `c + 1` of the detection with no such point after
/// it, or empty when there is none.
pub proof fn lemma_update_in_terms_of_points(
    items: Seq<usize>,
    types: Seq<u8>,
    item: usize,
    u: ItemUpdate,
)
    requires
        is_update_of(items, types, item, u),
    ensures
        u.index == item,
        u.center matches Some(p) ==> p < items.len() && items[p as int] == item && types[p as int]
            == 0 && forall|q: int|
            p < q < items.len() ==> !(#[trigger] items[q] == item && types[q] == 0),
        u.center is None ==> forall|q: int|
            0 <= q < items.len() ==> !(#[trigger] items[q] == item && types[q] == 0),
        u.corners is Some <==> exists|q: int|
            0 <= q < items.len() && #[trigger] items[q] == item && 1 <= types[q] <= 4,
        u.corners matches Some(slots) ==> slots@.len() == 4 && forall|c: int|
            0 <= c < 4 ==> match #[trigger] slots@[c] {
                Some(p) => p < items.len() && items[p as int] == item && types[p as int] == c + 1
                    && forall|q: int|
                    p < q < items.len() ==> !(#[trigger] items[q] == item && types[q] == c + 1),
                None => forall|q: int|
                    0 <= q < items.len() ==> !(#[trigger] items[q] == item && types[q] == c + 1),
            },
{
    match u.center {
        Some(p) => {
            assert forall|q: int| p < q < items.len() implies !(#[trigger] items[q] == item
                && types[q] == 0) by {
                assert(!is_point_of(items, types, item, 0, q));
            }
        },
        None => {
            assert forall|q: int| 0 <= q < items.len() implies !(#[trigger] items[q] == item
                && types[q] == 0) by {
                assert(!is_point_of(items, types, item, 0, q));
            }
        },
    }
    match u.corners {
        Some(slots) => {
            assert forall|c: int| 0 <= c < 4 implies match #[trigger] slots@[c] {
                Some(p) => p < items.len() && items[p as int] == item && types[p as int] == c + 1
                    && forall|q: int|
                    p < q < items.len() ==> !(#[trigger] items[q] == item && types[q] == c + 1),
                None => forall|q: int|
                    0 <= q < items.len() ==> !(#[trigger] items[q] == item && types[q] == c + 1),
            } by {
                assert(is_last_point(items, types, item, (c + 1) as u8, slots@[c]));
                match slots@[c] {
                    Some(p) => {
                        assert forall|q: int| p < q < items.len() implies !(#[trigger] items[q]
                            == item && types[q] == c + 1) by {
                            assert(!is_point_of(items, types, item, (c + 1) as u8, q));
                        }
                    },
                    None => {
                        assert forall|q: int| 0 <= q < items.len() implies !(#[trigger] items[q]
                            == item && types[q] == c + 1) by {
                            assert(!is_point_of(items, types, item, (c + 1) as u8, q));
                        }
                    },
                }
            }
        },
        None => {},
    }
}

/// The groups of a batch have distinct cameras; each group is non-empty and lists
/// only detections of its own camera, in increasing batch order.
pub proof fn lemma_groups_distinct_and_ordered(cameras: Seq<i32>, groups: Seq<CameraGroup>)
    requires
        cameras.len() <= usize::MAX,
        is_grouping_of(cameras, groups),
    ensures
        forall|g1: int, g2: int|
            0 <= g1 < groups.len() && 0 <= g2 < groups.len() && g1 != g2 ==> (#[trigger] groups[g1]).camera_id
                != (#[trigger] groups[g2]).camera_id,
        forall|g: int| 0 <= g < groups.len() ==> (#[trigger] groups[g]).indices@.len() > 0,
        forall|g: int, k: int|
            0 <= g < groups.len() && 0 <= k < groups[g].indices@.len() ==> {
                let x = #[trigger] groups[g].indices@[k];
                &&& x < cameras.len()
                &&& cameras[x as int] == groups[g].camera_id
            },
        forall|g: int, k1: int, k2: int|
            #![trigger groups[g].indices@[k1], groups[g].indices@[k2]]
            0 <= g < groups.len() && 0 <= k1 < k2 < groups[g].indices@.len()
                ==> groups[g].indices@[k1] < groups[g].indices@[k2],
{
    lemma_first_seen(cameras);
    assert forall|g1: int, g2: int|
        0 <= g1 < groups.len() && 0 <= g2 < groups.len() && g1 != g2 implies (#[trigger] groups[g1]).camera_id
            != (#[trigger] groups[g2]).camera_id by {
        assert(first_seen(cameras)[g1] != first_seen(cameras)[g2]);
    }
    assert forall|g: int| 0 <= g < groups.len() implies (#[trigger] groups[g]).indices@.len() > 0 by {
        lemma_indices_of(cameras, groups[g].camera_id);
        assert(first_seen(cameras).contains(first_seen(cameras)[g]));
    }
    assert forall|g: int, k: int|
        0 <= g < groups.len() && 0 <= k < groups[g].indices@.len() implies {
            let x = #[trigger] groups[g].indices@[k];
            &&& x < cameras.len()
            &&& cameras[x as int] == groups[g].camera_id
        } by {
        lemma_indices_of(cameras, groups[g].camera_id);
        assert(indices_of(cameras, groups[g].camera_id)[k] == groups[g].indices@[k]);
    }
    assert forall|g: int, k1: int, k2: int|
        #![trigger groups[g].indices@[k1], groups[g].indices@[k2]]
        0 <= g < groups.len() && 0 <= k1 < k2 < groups[g].indices@.len()
            implies groups[g].indices@[k1] < groups[g].indices@[k2] by {
        lemma_indices_of(cameras, groups[g].camera_id);
        assert(indices_of(cameras, groups[g].camera_id)[k1] < indices_of(cameras, groups[g].camera_id)[k2]);
    }
}

/// Every detection of a batch lands in exactly one group, the group of its own
/// camera, and appears there once.
pub proof fn lemma_grouping_partitions_batch(cameras: Seq<i32>, groups: Seq<CameraGroup>, i: int)
    requires
        cameras.len() <= usize::MAX,
        is_grouping_of(cameras, groups),
        0 <= i < cameras.len(),
    ensures
        exists|g: int|
            0 <= g < groups.len() && (#[trigger] groups[g]).camera_id == cameras[i]
                && groups[g].indices@.contains(i as usize),
        forall|g: int|
            0 <= g < groups.len() && (#[trigger] groups[g]).indices@.contains(i as usize)
                ==> groups[g].camera_id == cameras[i],
        forall|g1: int, g2: int|
            0 <= g1 < groups.len() && 0 <= g2 < groups.len() && (#[trigger] groups[g1]).indices@.contains(
                i as usize,
            ) && (#[trigger] groups[g2]).indices@.contains(i as usize) ==> g1 == g2,
        forall|g: int| 0 <= g < groups.len() ==> (#[trigger] groups[g]).indices@.no_duplicates(),
{
    lemma_first_seen(cameras);
    let c = cameras[i];
    assert(first_seen(cameras).contains(c));
    let g0 = choose|g: int| 0 <= g < first_seen(cameras).len() && first_seen(cameras)[g] == c;
    lemma_indices_of(cameras, c);
    assert(groups[g0].camera_id == c);
    assert(groups[g0].indices@.contains(i as usize));
    assert forall|g: int|
        0 <= g < groups.len() && (#[trigger] groups[g]).indices@.contains(i as usize)
            implies groups[g].camera_id == cameras[i] by {
        let cg = groups[g].camera_id;
        lemma_indices_of(cameras, cg);
        let k = choose|k: int| 0 <= k < groups[g].indices@.len() && groups[g].indices@[k] == i as usize;
        assert(indices_of(cameras, cg)[k] == i as usize);
    }
    assert forall|g1: int, g2: int|
        0 <= g1 < groups.len() && 0 <= g2 < groups.len() && (#[trigger] groups[g1]).indices@.contains(
            i as usize,
        ) && (#[trigger] groups[g2]).indices@.contains(i as usize) implies g1 == g2 by {
        let c1 = groups[g1].camera_id;
        let c2 = groups[g2].camera_id;
        lemma_indices_of(cameras, c1);
        lemma_indices_of(cameras, c2);
        let k1 = choose|k: int| 0 <= k < groups[g1].indices@.len() && groups[g1].indices@[k] == i as usize;
        let k2 = choose|k: int| 0 <= k < groups[g2].indices@.len() && groups[g2].indices@[k] == i as usize;
        assert(indices_of(cameras, c1)[k1] == i as usize);
        assert(indices_of(cameras, c2)[k2] == i as usize);
        assert(first_seen(cameras)[g1] == first_seen(cameras)[g2]);
    }
    assert forall|g: int| 0 <= g < groups.len() implies (#[trigger] groups[g]).indices@.no_duplicates() by {
        let s = groups[g].indices@;
        lemma_indices_of(cameras, groups[g].camera_id);
        assert forall|k1: int, k2: int| 0 <= k1 < s.len() && 0 <= k2 < s.len() && k1 != k2 implies s[k1] != s[k2] by {
            if k1 < k2 {
                assert(indices_of(cameras, groups[g].camera_id)[k1] < indices_of(cameras, groups[g].camera_id)[k2]);
            } else {
                assert(indices_of(cameras, groups[g].camera_id)[k2] < indices_of(cameras, groups[g].camera_id)[k1]);
            }
        }
    }
}

/// In a group laid out by `group_by_camera`, the update of each detection takes its
/// real center from the point sent for its own center, and its real corner `c`
/// from the point sent for its own corner `c`.
pub proof fn lemma_updates_use_own_points(cameras: Seq<i32>, group: CameraGroup, k: int, u: ItemUpdate)
    requires
        cameras.len() * 5 <= usize::MAX,
        is_camera_group(cameras, group),
        0 <= k < group.indices@.len(),
        is_update_of(group.point_to_item@, group.point_type@, group.indices@[k], u),
    ensures
        u.index == group.indices@[k],
        u.center == Some((5 * k) as usize),
        u.corners matches Some(slots) && slots@ == seq![
            Some((5 * k + 1) as usize),
            Some((5 * k + 2) as usize),
            Some((5 * k + 3) as usize),
            Some((5 * k + 4) as usize),
        ],
        group.point_to_item@.len() == 5 * group.indices@.len(),
        group.point_type@.len() == 5 * group.indices@.len(),
        group.point_to_item@[5 * k] == group.indices@[k],
        group.point_type@[5 * k] == 0,
        forall|c: int|
            0 <= c < 4 ==> group.point_to_item@[5 * k + 1 + c] == group.indices@[k]
                && #[trigger] group.point_type@[5 * k + 1 + c] == c + 1,
{
    let items = group.point_to_item@;
    let types = group.point_type@;
    let ind = group.indices@;
    let item = ind[k];
    lemma_indices_of(cameras, group.camera_id);
    assert(ind.len() <= cameras.len()) by {
        lemma_increasing_bounded(ind, cameras.len() as int);
    }
    // A point belongs to detection `ind[k]` exactly when it lies in block `k`.
    assert forall|kind: u8, q: int| #[trigger] is_point_of(items, types, item, kind, q) implies q
        == 5 * k + kind by {
        let b = q / 5;
        assert(0 <= b < ind.len());
        assert(items[q] == ind[b]);
        if b < k {
            assert(ind[b] < ind[k]);
        } else if b > k {
            assert(ind[k] < ind[b]);
        }
        assert(q == 5 * b + q % 5);
    }
    assert forall|kind: u8| 0 <= kind < 5 implies #[trigger] is_point_of(items, types, item, kind, 5 * k + kind) by {
        assert((5 * k + kind) / 5 == k);
        assert((5 * k + kind) % 5 == kind);
    }
    assert(is_point_of(items, types, item, 0, 5 * k));
    assert(is_point_of(items, types, item, 1, 5 * k + 1));
    match u.center {
        Some(p) => {},
        None => {},
    }
    assert(has_corner_point(items, types, item)) by {
        assert(is_point_of(items, types, item, 1, 5 * k + 1));
        assert(1 <= types[5 * k + 1] <= 4);
    }
    match u.corners {
        Some(slots) => {
            assert forall|c: int| 0 <= c < 4 implies #[trigger] slots@[c] == Some((5 * k + 1 + c) as usize) by {
                assert(is_last_point(items, types, item, (c + 1) as u8, slots@[c]));
                assert(is_point_of(items, types, item, (c + 1) as u8, 5 * k + (c + 1)));
            }
            assert(slots@ =~= seq![
                Some((5 * k + 1) as usize),
                Some((5 * k + 2) as usize),
                Some((5 * k + 3) as usize),
                Some((5 * k + 4) as usize),
            ]);
        },
        None => {},
    }
    assert forall|c: int|
        0 <= c < 4 implies items[5 * k + 1 + c] == ind[k] && #[trigger] types[5 * k + 1 + c] == c + 1 by {
        assert(is_point_of(items, types, item, (c + 1) as u8, 5 * k + (c + 1)));
    }
}

} // verus!
