use vision_postprocessor::message_parser::{
    plan_parse, ParseResult, RawAprilTagFields, RawDetection, RawMessageFields, RawObjectFields,
};

fn object(camera_id: Option<i32>) -> RawObjectFields {
    RawObjectFields {
        has_object_id: true,
        camera_id,
        has_timestamp: true,
        has_class_type: true,
        has_confidence: true,
        has_center_pixel: true,
        has_corners_pixel: true,
    }
}

fn tag(camera_id: Option<i32>) -> RawAprilTagFields {
    RawAprilTagFields {
        has_tag_id: true,
        camera_id,
        has_timestamp: true,
        has_yaw: true,
        has_center_pixel: true,
        has_corners_pixel: true,
    }
}

#[test]
fn default_result_is_a_failure_with_nothing_stored() {
    let r = ParseResult::default();
    assert!(!r.success);
    assert_eq!(r.object_count, 0);
    assert_eq!(r.apriltag_count, 0);
}

#[test]
fn malformed_message_fails_and_stores_nothing() {
    let plan = plan_parse(None, 10, 10);
    assert!(!plan.result.success);
    assert_eq!(plan.result.object_count, 0);
    assert_eq!(plan.result.apriltag_count, 0);
    assert!(plan.object_sources.is_empty());
    assert!(plan.apriltag_sources.is_empty());
}

#[test]
fn empty_message_succeeds_with_nothing_stored() {
    let msg = RawMessageFields { objects: vec![], apriltags: vec![] };
    let plan = plan_parse(Some(&msg), 4, 4);
    assert!(plan.result.success);
    assert_eq!(plan.result.object_count, 0);
    assert_eq!(plan.result.apriltag_count, 0);
}

#[test]
fn incomplete_and_negative_camera_detections_are_skipped() {
    let mut no_id = object(Some(1));
    no_id.has_object_id = false;
    let mut no_corners = object(Some(1));
    no_corners.has_corners_pixel = false;
    let objects = vec![object(Some(2)), no_id, object(Some(-1)), object(None), no_corners, object(Some(0))];
    let mut no_yaw = tag(Some(3));
    no_yaw.has_yaw = false;
    let apriltags = vec![no_yaw, tag(Some(-5)), tag(Some(7))];
    let msg = RawMessageFields { objects, apriltags };
    let plan = plan_parse(Some(&msg), 10, 10);
    assert!(plan.result.success);
    assert_eq!(plan.object_sources, vec![0, 5]);
    assert_eq!(plan.result.object_count, 2);
    assert_eq!(plan.apriltag_sources, vec![2]);
    assert_eq!(plan.result.apriltag_count, 1);
}

#[test]
fn stored_detections_stop_at_capacity_in_message_order() {
    let objects = vec![object(Some(1)), object(Some(-1)), object(Some(2)), object(Some(3)), object(Some(4))];
    let apriltags = vec![tag(Some(1)), tag(Some(2))];
    let msg = RawMessageFields { objects, apriltags };
    let plan = plan_parse(Some(&msg), 2, 0);
    assert!(plan.result.success);
    assert_eq!(plan.object_sources, vec![0, 2]);
    assert_eq!(plan.result.object_count, 2);
    assert!(plan.apriltag_sources.is_empty());
    assert_eq!(plan.result.apriltag_count, 0);
}

#[test]
fn storable_requires_every_field_and_a_non_negative_camera() {
    assert!(object(Some(0)).storable());
    assert!(!object(Some(-1)).storable());
    assert!(!object(None).storable());
    let mut o = object(Some(4));
    o.has_confidence = false;
    assert!(!o.storable());
    assert!(tag(Some(9)).storable());
    let mut t = tag(Some(9));
    t.has_timestamp = false;
    assert!(!t.storable());
}
