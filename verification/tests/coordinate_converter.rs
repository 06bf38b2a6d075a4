use vision_postprocessor::coordinate_converter::{
    assemble_updates, group_by_camera, CameraGroup, HomographyManager, UndistortionManager,
};

#[test]
fn groups_follow_first_appearance_and_keep_batch_order() {
    let groups = group_by_camera(&[3, 1, 3, 2, 1]);
    let cams: Vec<i32> = groups.iter().map(|g| g.camera_id).collect();
    assert_eq!(cams, vec![3, 1, 2]);
    assert_eq!(groups[0].indices, vec![0, 2]);
    assert_eq!(groups[1].indices, vec![1, 4]);
    assert_eq!(groups[2].indices, vec![3]);
}

#[test]
fn each_detection_sends_center_then_four_corners() {
    let groups = group_by_camera(&[7, 8, 7]);
    let g = &groups[0];
    assert_eq!(g.camera_id, 7);
    assert_eq!(g.point_to_item, vec![0, 0, 0, 0, 0, 2, 2, 2, 2, 2]);
    assert_eq!(g.point_type, vec![0, 1, 2, 3, 4, 0, 1, 2, 3, 4]);
    assert_eq!(groups[1].point_to_item, vec![1, 1, 1, 1, 1]);
    assert_eq!(groups[1].point_type, vec![0, 1, 2, 3, 4]);
}

#[test]
fn empty_batch_has_no_group() {
    assert!(group_by_camera(&[]).is_empty());
}

#[test]
fn every_detection_lands_in_exactly_one_group_of_its_camera() {
    let cams = [5, -2, 5, 0, -2, 9, 5];
    let groups = group_by_camera(&cams);
    for i in 0..cams.len() {
        let holders: Vec<&CameraGroup> = groups.iter().filter(|g| g.indices.contains(&i)).collect();
        assert_eq!(holders.len(), 1);
        assert_eq!(holders[0].camera_id, cams[i]);
        assert_eq!(holders[0].indices.iter().filter(|&&x| x == i).count(), 1);
    }
}

#[test]
fn updates_take_each_detection_points_from_its_own_block() {
    let groups = group_by_camera(&[4, 6, 4, 4]);
    let updates = assemble_updates(&groups[0]);
    assert_eq!(updates.len(), 3);
    for (k, u) in updates.iter().enumerate() {
        assert_eq!(u.index, groups[0].indices[k]);
        assert_eq!(u.center, Some(5 * k));
        assert_eq!(
            u.corners,
            Some(vec![Some(5 * k + 1), Some(5 * k + 2), Some(5 * k + 3), Some(5 * k + 4)])
        );
    }
}

#[test]
fn later_points_win_and_missing_corners_keep_the_default() {
    let group = CameraGroup {
        camera_id: 1,
        indices: vec![10, 11, 12],
        point_to_item: vec![10, 10, 11, 10, 10, 12],
        point_type: vec![0, 2, 0, 0, 2, 9],
    };
    let updates = assemble_updates(&group);
    assert_eq!(updates.len(), 3);
    assert_eq!(updates[0].index, 10);
    assert_eq!(updates[0].center, Some(3));
    assert_eq!(updates[0].corners, Some(vec![None, Some(4), None, None]));
    assert_eq!(updates[1].index, 11);
    assert_eq!(updates[1].center, Some(2));
    assert_eq!(updates[1].corners, None);
    assert_eq!(updates[2].index, 12);
    assert_eq!(updates[2].center, None);
    assert_eq!(updates[2].corners, None);
}

#[test]
fn homography_read_after_write() {
    let mut h: HomographyManager<[[f64; 3]; 3]> = HomographyManager::new();
    assert!(!h.has_camera(1));
    assert_eq!(h.get_homography(1), None);
    let m1 = [[1.0, 0.0, 0.0], [0.0, 1.0, 0.0], [0.0, 0.0, 1.0]];
    let m2 = [[2.0, 0.0, 0.0], [0.0, 2.0, 0.0], [0.0, 0.0, 1.0]];
    h.set_homography(1, m1);
    h.set_homography(2, m2);
    assert!(h.has_camera(1));
    assert_eq!(h.get_homography(1), Some(&m1));
    assert_eq!(h.get_homography(2), Some(&m2));
    h.set_homography(1, m2);
    assert_eq!(h.get_homography(1), Some(&m2));
    assert_eq!(h.get_homography(2), Some(&m2));
    assert!(!h.has_camera(3));
}

#[test]
fn calibration_read_after_write() {
    let mut u: UndistortionManager<u32> = UndistortionManager::new();
    assert!(!u.has_camera(0));
    u.set_calibration(0, 11);
    u.set_calibration(-4, 12);
    assert!(u.has_camera(0));
    assert!(u.has_camera(-4));
    assert!(!u.has_camera(4));
    assert_eq!(u.calibrations.get(&0), Some(&11));
    u.set_calibration(0, 13);
    assert_eq!(u.calibrations.get(&0), Some(&13));
    assert_eq!(u.calibrations.get(&-4), Some(&12));
}
