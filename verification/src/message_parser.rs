use vstd::prelude::*;

verus! {


/// Outcome of parsing one incoming message: whether the message was well-formed,
/// and how many detected objects and AprilTags were stored.
pub struct ParseResult {
    pub success: bool,
    pub object_count: usize,
    pub apriltag_count: usize,
}

impl Default for ParseResult {
    fn default() -> (r: Self)
        ensures
            !r.success,
            r.object_count == 0,
            r.apriltag_count == 0,
    {
        ParseResult { success: false, object_count: 0, apriltag_count: 0 }
    }
}

/// Which fields a message gave for one detected object, and the camera that saw it.
pub struct RawObjectFields {
    pub has_object_id: bool,
    pub camera_id: Option<i32>,
    pub has_timestamp: bool,
    pub has_class_type: bool,
    pub has_confidence: bool,
    pub has_center_pixel: bool,
    pub has_corners_pixel: bool,
}

/// Which fields a message gave for one AprilTag, and the camera that saw it.
pub struct RawAprilTagFields {
    pub has_tag_id: bool,
    pub camera_id: Option<i32>,
    pub has_timestamp: bool,
    pub has_yaw: bool,
    pub has_center_pixel: bool,
    pub has_corners_pixel: bool,
}

/// The fields of every detection that a well-formed message holds, in message order.
pub struct RawMessageFields {
    pub objects: Vec<RawObjectFields>,
    pub apriltags: Vec<RawAprilTagFields>,
}

/// A detection of a message, as far as the decision to store it is concerned.
pub trait RawDetection: Sized {
    /// Every required field is present and the camera id is not negative.
    spec fn is_storable(self) -> bool;

    fn storable(&self) -> (r: bool)
        ensures
            r == self.is_storable(),
    ;
}

impl RawDetection for RawObjectFields {
    open spec fn is_storable(self) -> bool {
        &&& self.has_object_id
        &&& self.has_timestamp
        &&& self.has_class_type
        &&& self.has_confidence
        &&& self.has_center_pixel
        &&& self.has_corners_pixel
        &&& self.camera_id matches Some(c) && c >= 0
    }

    fn storable(&self) -> (r: bool)
        ensures
            r == (self.has_object_id && self.has_timestamp && self.has_class_type && self.has_confidence
                && self.has_center_pixel && self.has_corners_pixel && self.camera_id is Some
                && self.camera_id->0 >= 0),
    {
        match self.camera_id {
            Some(c) => {
                self.has_object_id && self.has_timestamp && self.has_class_type
                    && self.has_confidence && self.has_center_pixel && self.has_corners_pixel && c
                    >= 0
            },
            None => false,
        }
    }
}

impl RawDetection for RawAprilTagFields {
    open spec fn is_storable(self) -> bool {
        &&& self.has_tag_id
        &&& self.has_timestamp
        &&& self.has_yaw
        &&& self.has_center_pixel
        &&& self.has_corners_pixel
        &&& self.camera_id matches Some(c) && c >= 0
    }

    fn storable(&self) -> (r: bool)
        ensures
            r == (self.has_tag_id && self.has_timestamp && self.has_yaw && self.has_center_pixel
                && self.has_corners_pixel && self.camera_id is Some && self.camera_id->0 >= 0),
    {
        match self.camera_id {
            Some(c) => {
                self.has_tag_id && self.has_timestamp && self.has_yaw && self.has_center_pixel
                    && self.has_corners_pixel && c >= 0
            },
            None => false,
        }
    }
}

/// Whether each detection of a list can be stored.
pub open spec fn storable_flags<E: RawDetection>(entries: Seq<E>) -> Seq<bool> {
    entries.map_values(|e: E| e.is_storable())
}

/// The positions of the storable detections, in increasing order.
pub open spec fn storable_positions(flags: Seq<bool>) -> Seq<usize>
    decreases flags.len(),
{
    if flags.len() == 0 {
        seq![]
    } else {
        let prev = storable_positions(flags.drop_last());
        if flags.last() {
            prev.push((flags.len() - 1) as usize)
        } else {
            prev
        }
    }
}

/// The positions of the detections that are stored when at most `capacity` fit:
/// the first `capacity` storable ones.
pub open spec fn stored_positions(flags: Seq<bool>, capacity: nat) -> Seq<usize> {
    let all = storable_positions(flags);
    if all.len() <= capacity {
        all
    } else {
        all.take(capacity as int)
    }
}

/// What parsing a message stores: the result, and for each slot that is filled,
/// the position in the message of the detection that fills it.
pub struct ParsePlan {
    pub result: ParseResult,
    pub object_sources: Vec<usize>,
    pub apriltag_sources: Vec<usize>,
}

proof fn lemma_storable_prefix(flags: Seq<bool>, j: int)
    requires
        0 <= j <= flags.len(),
    ensures
        storable_positions(flags.take(j)).len() <= storable_positions(flags).len(),
        forall|k: int|
            0 <= k < storable_positions(flags.take(j)).len() ==> #[trigger] storable_positions(
                flags.take(j),
            )[k] == storable_positions(flags)[k],
    decreases flags.len(),
{
    if j == flags.len() {
        assert(flags.take(j) == flags);
    } else {
        let prev = flags.drop_last();
        assert(flags.take(j) == prev.take(j));
        lemma_storable_prefix(prev, j);
    }
}

fn select_stored<E: RawDetection>(entries: &Vec<E>, capacity: usize) -> (selected: Vec<usize>)
    ensures
        selected@ == stored_positions(storable_flags(entries@), capacity as nat),
{
    let ghost flags = storable_flags(entries@);
    let n = entries.len();
    let mut selected: Vec<usize> = Vec::new();
    let mut i: usize = 0;
    while i < n && selected.len() < capacity
        invariant
            n == entries@.len(),
            flags == storable_flags(entries@),
            0 <= i <= n,
            selected.len() <= capacity,
            selected@ == storable_positions(flags.take(i as int)),
        decreases n - i,
    {
        let ghost prefix = flags.take(i as int);
        assert(flags.take(i + 1).drop_last() == prefix);
        if entries[i].storable() {
            selected.push(i);
        }
        i = i + 1;
    }
    proof {
        lemma_storable_prefix(flags, i as int);
        if i == n {
            assert(flags.take(i as int) == flags);
        } else {
            assert(storable_positions(flags).take(capacity as int) =~= selected@);
        }
    }
    selected
}

/// Decides what parsing a message stores, given the message's detections (`None`
/// when the message is not well-formed) and the number of slots for objects and
/// for AprilTags. A well-formed message succeeds and fills the slots in order with
/// its first storable detections; one that is not fails and fills nothing.
pub fn plan_parse(message: Option<&RawMessageFields>, object_capacity: usize, apriltag_capacity: usize) -> (plan: ParsePlan)
    ensures
        plan.result.object_count == plan.object_sources.len(),
        plan.result.apriltag_count == plan.apriltag_sources.len(),
        plan.result.object_count <= object_capacity,
        plan.result.apriltag_count <= apriltag_capacity,
        match message {
            None => {
                &&& !plan.result.success
                &&& plan.object_sources@.len() == 0
                &&& plan.apriltag_sources@.len() == 0
            },
            Some(m) => {
                &&& plan.result.success
                &&& plan.object_sources@ == stored_positions(
                    storable_flags(m.objects@),
                    object_capacity as nat,
                )
                &&& plan.apriltag_sources@ == stored_positions(
                    storable_flags(m.apriltags@),
                    apriltag_capacity as nat,
                )
                &&& forall|k: int|
                    0 <= k < plan.object_sources@.len() ==> {
                        let o = m.objects@[#[trigger] plan.object_sources@[k] as int];
                        &&& plan.object_sources@[k] < m.objects@.len()
                        &&& o.has_object_id && o.has_timestamp && o.has_class_type
                        &&& o.has_confidence && o.has_center_pixel && o.has_corners_pixel
                        &&& o.camera_id is Some && o.camera_id->0 >= 0
                    }
                &&& forall|k: int|
                    0 <= k < plan.apriltag_sources@.len() ==> {
                        let t = m.apriltags@[#[trigger] plan.apriltag_sources@[k] as int];
                        &&& plan.apriltag_sources@[k] < m.apriltags@.len()
                        &&& t.has_tag_id && t.has_timestamp && t.has_yaw
                        &&& t.has_center_pixel && t.has_corners_pixel
                        &&& t.camera_id is Some && t.camera_id->0 >= 0
                    }
                &&& plan.object_sources@.len() < object_capacity ==> forall|j: int|
                    0 <= j < m.objects@.len() && (#[trigger] m.objects@[j]).has_object_id
                        && m.objects@[j].has_timestamp && m.objects@[j].has_class_type
                        && m.objects@[j].has_confidence && m.objects@[j].has_center_pixel
                        && m.objects@[j].has_corners_pixel && m.objects@[j].camera_id is Some
                        && m.objects@[j].camera_id->0 >= 0 ==> plan.object_sources@.contains(
                        j as usize,
                    )
                &&& plan.apriltag_sources@.len() < apriltag_capacity ==> forall|j: int|
                    0 <= j < m.apriltags@.len() && (#[trigger] m.apriltags@[j]).has_tag_id
                        && m.apriltags@[j].has_timestamp && m.apriltags@[j].has_yaw
                        && m.apriltags@[j].has_center_pixel && m.apriltags@[j].has_corners_pixel
                        && m.apriltags@[j].camera_id is Some && m.apriltags@[j].camera_id->0 >= 0
                        ==> plan.apriltag_sources@.contains(j as usize)
                &&& forall|k1: int, k2: int|
                    0 <= k1 < k2 < plan.object_sources@.len() ==> #[trigger] plan.object_sources@[k1] < #[trigger] plan.object_sources@[k2]
                &&& forall|j: int, k: int|
                    #![trigger m.objects@[j], plan.object_sources@[k]]
                    0 <= j < m.objects@.len() && 0 <= k < plan.object_sources@.len() && j < plan.object_sources@[k] && m.objects@[j].has_object_id && m.objects@[j].has_timestamp && m.objects@[j].has_class_type && m.objects@[j].has_confidence && m.objects@[j].has_center_pixel && m.objects@[j].has_corners_pixel && m.objects@[j].camera_id is Some && m.objects@[j].camera_id->0 >= 0
                        ==> plan.object_sources@.contains(j as usize)
                &&& forall|k1: int, k2: int|
                    0 <= k1 < k2 < plan.apriltag_sources@.len() ==> #[trigger] plan.apriltag_sources@[k1] < #[trigger] plan.apriltag_sources@[k2]
                &&& forall|j: int, k: int|
                    #![trigger m.apriltags@[j], plan.apriltag_sources@[k]]
                    0 <= j < m.apriltags@.len() && 0 <= k < plan.apriltag_sources@.len() && j < plan.apriltag_sources@[k] && m.apriltags@[j].has_tag_id && m.apriltags@[j].has_timestamp && m.apriltags@[j].has_yaw && m.apriltags@[j].has_center_pixel && m.apriltags@[j].has_corners_pixel && m.apriltags@[j].camera_id is Some && m.apriltags@[j].camera_id->0 >= 0
                        ==> plan.apriltag_sources@.contains(j as usize)
            },
        },
{
    match message {
        None => ParsePlan {
            result: ParseResult { success: false, object_count: 0, apriltag_count: 0 },
            object_sources: Vec::new(),
            apriltag_sources: Vec::new(),
        },
        Some(m) => {
            let object_sources = select_stored(&m.objects, object_capacity);
            let apriltag_sources = select_stored(&m.apriltags, apriltag_capacity);
            proof {
                assert(storable_flags(m.objects@).len() == m.objects.len());
                assert(storable_flags(m.apriltags@).len() == m.apriltags.len());
                lemma_stored_detections(storable_flags(m.objects@), object_capacity as nat);
                lemma_stored_detections(storable_flags(m.apriltags@), apriltag_capacity as nat);
                lemma_stored_objects_by_fields(m.objects@, object_capacity as nat);
                lemma_stored_apriltags_by_fields(m.apriltags@, apriltag_capacity as nat);
            }
            ParsePlan {
                result: ParseResult {
                    success: true,
                    object_count: object_sources.len(),
                    apriltag_count: apriltag_sources.len(),
                },
                object_sources,
                apriltag_sources,
            }
        },
    }
}

proof fn lemma_storable_positions(flags: Seq<bool>)
    requires
        flags.len() <= usize::MAX,
    ensures
        forall|k: int|
            0 <= k < storable_positions(flags).len() ==> {
                let p = #[trigger] storable_positions(flags)[k];
                p < flags.len() && flags[p as int]
            },
        forall|k1: int, k2: int|
            0 <= k1 < k2 < storable_positions(flags).len() ==> #[trigger] storable_positions(
                flags,
            )[k1] < #[trigger] storable_positions(flags)[k2],
        forall|j: int|
            0 <= j < flags.len() && flags[j] ==> storable_positions(flags).contains(j as usize),
    decreases flags.len(),
{
    if flags.len() > 0 {
        let prev = flags.drop_last();
        lemma_storable_positions(prev);
        let s = storable_positions(flags);
        let ps = storable_positions(prev);
        if flags.last() {
            assert(s == ps.push((flags.len() - 1) as usize));
        } else {
            assert(s == ps);
        }
        assert forall|k: int| 0 <= k < s.len() implies s[k] < flags.len() && flags[s[k] as int] by {
            if k < ps.len() {
                assert(s[k] == ps[k]);
                assert(prev[ps[k] as int]);
            }
        }
        assert forall|k1: int, k2: int| 0 <= k1 < k2 < s.len() implies s[k1] < s[k2] by {
            assert(s[k1] == ps[k1]);
            if k2 < ps.len() {
                assert(s[k2] == ps[k2]);
            }
        }
        assert forall|j: int| 0 <= j < flags.len() && flags[j] implies s.contains(j as usize) by {
            if j < flags.len() - 1 {
                assert(prev[j]);
                let k = choose|k: int| 0 <= k < ps.len() && ps[k] == j as usize;
                assert(s[k] == j as usize);
            } else {
                assert(s[s.len() - 1] == j as usize);
            }
        }
    }
}

/// What parsing stores out of a list of detections: at most `capacity` of them;
/// only storable ones, in message order, each at most once; and every storable
/// one when fewer than `capacity` are stored.
pub proof fn lemma_stored_detections(flags: Seq<bool>, capacity: nat)
    requires
        flags.len() <= usize::MAX,
    ensures
        stored_positions(flags, capacity).len() <= capacity,
        forall|k: int|
            0 <= k < stored_positions(flags, capacity).len() ==> {
                let p = #[trigger] stored_positions(flags, capacity)[k];
                p < flags.len() && flags[p as int]
            },
        forall|k1: int, k2: int|
            0 <= k1 < k2 < stored_positions(flags, capacity).len() ==> #[trigger] stored_positions(
                flags,
                capacity,
            )[k1] < #[trigger] stored_positions(flags, capacity)[k2],
        stored_positions(flags, capacity).len() < capacity ==> forall|j: int|
            0 <= j < flags.len() && flags[j] ==> stored_positions(flags, capacity).contains(
                j as usize,
            ),
        forall|j: int, k: int|
            #![trigger flags[j], stored_positions(flags, capacity)[k]]
            0 <= j < flags.len() && flags[j] && 0 <= k < stored_positions(flags, capacity).len()
                && j < stored_positions(flags, capacity)[k] ==> stored_positions(
                flags,
                capacity,
            ).contains(j as usize),
{
    lemma_storable_positions(flags);
    let all = storable_positions(flags);
    let st = stored_positions(flags, capacity);
    assert forall|j: int, k: int|
        #![trigger flags[j], st[k]]
        0 <= j < flags.len() && flags[j] && 0 <= k < st.len() && j < st[k] implies st.contains(
        j as usize,
    ) by {
        let a = choose|a: int| 0 <= a < all.len() && all[a] == j as usize;
        assert(st[k] == all[k]);
        if a >= k {
            if a > k {
                assert(all[k] < all[a]);
            }
        }
        assert(a < k);
        assert(st[a] == all[a]);
    }
    if all.len() > capacity {
        assert forall|k: int| 0 <= k < st.len() implies st[k] < flags.len() && flags[st[k] as int] by {
            assert(st[k] == all[k]);
        }
        assert forall|k1: int, k2: int| 0 <= k1 < k2 < st.len() implies st[k1] < st[k2] by {
            assert(st[k1] == all[k1]);
            assert(st[k2] == all[k2]);
        }
    }
}

/// A detected object is stored-eligible exactly when it has an id, a timestamp,
/// a class, a confidence, a center and corners, and its camera id is present and
/// not negative (camera 0 included).
pub proof fn lemma_object_storable_by_fields(o: RawObjectFields)
    ensures
        o.is_storable() <==> (o.has_object_id && o.has_timestamp && o.has_class_type
            && o.has_confidence && o.has_center_pixel && o.has_corners_pixel
            && o.camera_id is Some && o.camera_id->0 >= 0),
{
}

/// An AprilTag is stored-eligible exactly when it has an id, a timestamp, a yaw,
/// a center and corners, and its camera id is present and not negative (camera 0
/// included).
pub proof fn lemma_apriltag_storable_by_fields(t: RawAprilTagFields)
    ensures
        t.is_storable() <==> (t.has_tag_id && t.has_timestamp && t.has_yaw
            && t.has_center_pixel && t.has_corners_pixel && t.camera_id is Some
            && t.camera_id->0 >= 0),
{
}

/// Objects stored by parsing: each stored object has every required field and a
/// non-negative camera id, and when fewer than `capacity` are stored, every
/// object with every required field and a non-negative camera id is stored.
pub proof fn lemma_stored_objects_by_fields(objects: Seq<RawObjectFields>, capacity: nat)
    requires
        objects.len() <= usize::MAX,
    ensures
        stored_positions(storable_flags(objects), capacity).len() <= capacity,
        forall|k: int|
            0 <= k < stored_positions(storable_flags(objects), capacity).len() ==> {
                let p = #[trigger] stored_positions(storable_flags(objects), capacity)[k];
                let o = objects[p as int];
                &&& p < objects.len()
                &&& o.has_object_id && o.has_timestamp && o.has_class_type && o.has_confidence
                &&& o.has_center_pixel && o.has_corners_pixel
                &&& o.camera_id is Some && o.camera_id->0 >= 0
            },
        stored_positions(storable_flags(objects), capacity).len() < capacity ==> forall|j: int|
            0 <= j < objects.len() && (#[trigger] objects[j]).has_object_id
                && objects[j].has_timestamp && objects[j].has_class_type
                && objects[j].has_confidence && objects[j].has_center_pixel
                && objects[j].has_corners_pixel && objects[j].camera_id is Some
                && objects[j].camera_id->0 >= 0 ==> stored_positions(
                storable_flags(objects),
                capacity,
            ).contains(j as usize),
        forall|k1: int, k2: int|
            0 <= k1 < k2 < stored_positions(storable_flags(objects), capacity).len() ==> #[trigger] stored_positions(storable_flags(objects), capacity)[k1] < #[trigger] stored_positions(storable_flags(objects), capacity)[k2],
        forall|j: int, k: int|
            #![trigger objects[j], stored_positions(storable_flags(objects), capacity)[k]]
            0 <= j < objects.len() && 0 <= k < stored_positions(storable_flags(objects), capacity).len() && j < stored_positions(storable_flags(objects), capacity)[k] && objects[j].has_object_id && objects[j].has_timestamp && objects[j].has_class_type && objects[j].has_confidence && objects[j].has_center_pixel && objects[j].has_corners_pixel && objects[j].camera_id is Some && objects[j].camera_id->0 >= 0 ==> stored_positions(storable_flags(objects), capacity).contains(j as usize),
{
    let flags = storable_flags(objects);
    lemma_stored_detections(flags, capacity);
    assert forall|j: int| 0 <= j < objects.len() implies flags[j] == (#[trigger] objects[j]).is_storable() by {}
}

/// AprilTags stored by parsing: each stored tag has every required field and a
/// non-negative camera id, and when fewer than `capacity` are stored, every tag
/// with every required field and a non-negative camera id is stored.
pub proof fn lemma_stored_apriltags_by_fields(tags: Seq<RawAprilTagFields>, capacity: nat)
    requires
        tags.len() <= usize::MAX,
    ensures
        stored_positions(storable_flags(tags), capacity).len() <= capacity,
        forall|k: int|
            0 <= k < stored_positions(storable_flags(tags), capacity).len() ==> {
                let p = #[trigger] stored_positions(storable_flags(tags), capacity)[k];
                let t = tags[p as int];
                &&& p < tags.len()
                &&& t.has_tag_id && t.has_timestamp && t.has_yaw
                &&& t.has_center_pixel && t.has_corners_pixel
                &&& t.camera_id is Some && t.camera_id->0 >= 0
            },
        stored_positions(storable_flags(tags), capacity).len() < capacity ==> forall|j: int|
            0 <= j < tags.len() && (#[trigger] tags[j]).has_tag_id && tags[j].has_timestamp
                && tags[j].has_yaw && tags[j].has_center_pixel && tags[j].has_corners_pixel
                && tags[j].camera_id is Some && tags[j].camera_id->0 >= 0 ==> stored_positions(
                storable_flags(tags),
                capacity,
            ).contains(j as usize),
        forall|k1: int, k2: int|
            0 <= k1 < k2 < stored_positions(storable_flags(tags), capacity).len() ==> #[trigger] stored_positions(storable_flags(tags), capacity)[k1] < #[trigger] stored_positions(storable_flags(tags), capacity)[k2],
        forall|j: int, k: int|
            #![trigger tags[j], stored_positions(storable_flags(tags), capacity)[k]]
            0 <= j < tags.len() && 0 <= k < stored_positions(storable_flags(tags), capacity).len() && j < stored_positions(storable_flags(tags), capacity)[k] && tags[j].has_tag_id && tags[j].has_timestamp && tags[j].has_yaw && tags[j].has_center_pixel && tags[j].has_corners_pixel && tags[j].camera_id is Some && tags[j].camera_id->0 >= 0 ==> stored_positions(storable_flags(tags), capacity).contains(j as usize),
{
    let flags = storable_flags(tags);
    lemma_stored_detections(flags, capacity);
    assert forall|j: int| 0 <= j < tags.len() implies flags[j] == (#[trigger] tags[j]).is_storable() by {}
}

} // verus!
