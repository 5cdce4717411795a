use subtile_ocr::area::Area;

#[test]
fn area_try_new_accepts_ordered_bounds() {
    let area = Area::try_new(2, 3, 7, 9).unwrap();
    assert_eq!(area.left(), 2);
    assert_eq!(area.top(), 3);
    assert_eq!(area.right(), 7);
    assert_eq!(area.bottom(), 9);
}

#[test]
fn area_try_new_accepts_a_single_pixel() {
    let area = Area::try_new(5, 5, 5, 5).unwrap();
    assert_eq!(area.width(), 1);
    assert_eq!(area.height(), 1);
}

#[test]
fn area_try_new_rejects_bounds_out_of_order() {
    assert!(Area::try_new(8, 3, 7, 9).is_none());
    assert!(Area::try_new(2, 10, 7, 9).is_none());
}

#[test]
fn area_width_and_height_count_both_edges() {
    let area = Area::try_new(2, 3, 7, 9).unwrap();
    assert_eq!(area.width(), 6);
    assert_eq!(area.height(), 7);
}

#[test]
fn area_of_the_whole_range_has_its_full_size() {
    let area = Area::try_new(0, 0, u16::MAX, u16::MAX).unwrap();
    assert_eq!(area.width(), 65536);
    assert_eq!(area.height(), 65536);
}

#[test]
fn area_intersect_x_needs_a_shared_column() {
    let area = Area::try_new(10, 0, 20, 5).unwrap();
    assert!(area.intersect_x(Area::try_new(20, 50, 30, 60).unwrap()));
    assert!(area.intersect_x(Area::try_new(0, 50, 10, 60).unwrap()));
    assert!(area.intersect_x(Area::try_new(12, 50, 13, 60).unwrap()));
    assert!(!area.intersect_x(Area::try_new(21, 0, 30, 5).unwrap()));
    assert!(!area.intersect_x(Area::try_new(0, 0, 9, 5).unwrap()));
}

#[test]
fn area_intersect_y_needs_a_shared_row() {
    let area = Area::try_new(0, 10, 5, 20).unwrap();
    assert!(area.intersect_y(Area::try_new(50, 20, 60, 30).unwrap()));
    assert!(area.intersect_y(Area::try_new(50, 0, 60, 10).unwrap()));
    assert!(!area.intersect_y(Area::try_new(0, 21, 5, 30).unwrap()));
    assert!(!area.intersect_y(Area::try_new(0, 0, 5, 9).unwrap()));
}

#[test]
fn area_contains_x_needs_every_column() {
    let area = Area::try_new(10, 0, 20, 5).unwrap();
    assert!(area.contains_x(Area::try_new(10, 50, 20, 60).unwrap()));
    assert!(area.contains_x(Area::try_new(12, 50, 15, 60).unwrap()));
    assert!(!area.contains_x(Area::try_new(9, 0, 15, 5).unwrap()));
    assert!(!area.contains_x(Area::try_new(15, 0, 21, 5).unwrap()));
}

#[test]
fn area_contain_point_y_includes_both_edges() {
    let area = Area::try_new(0, 10, 5, 20).unwrap();
    assert!(area.contain_point_y(10));
    assert!(area.contain_point_y(20));
    assert!(area.contain_point_y(15));
    assert!(!area.contain_point_y(9));
    assert!(!area.contain_point_y(21));
}

#[test]
fn area_contains_point_includes_the_corners() {
    let area = Area::try_new(1, 2, 3, 4).unwrap();
    assert!(area.contains_point(1, 2));
    assert!(area.contains_point(3, 4));
    assert!(!area.contains_point(0, 2));
    assert!(!area.contains_point(3, 5));
}

#[test]
fn area_extend_gives_the_union_bounding_box() {
    let mut area = Area::try_new(10, 10, 20, 20).unwrap();
    area.extend(Area::try_new(5, 12, 15, 30).unwrap());
    assert_eq!(area, Area::try_new(5, 10, 20, 30).unwrap());
}

#[test]
fn area_extend_with_an_inner_area_changes_nothing() {
    let mut area = Area::try_new(10, 10, 20, 20).unwrap();
    area.extend(Area::try_new(12, 12, 15, 15).unwrap());
    assert_eq!(area, Area::try_new(10, 10, 20, 20).unwrap());
}
