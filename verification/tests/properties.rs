use rect_lib::{BasicRectangle, Rectangle};

#[test]
fn test_translate() {
    let rect = BasicRectangle::new_from_sides(0, 1, 1, 0);
    let translated = rect.translate(1, 1);
    assert_eq!(translated, BasicRectangle::new_from_sides(1, 2, 2, 1));
}

#[test]
fn test_translate_compose() {
    let rect = BasicRectangle::new_from_sides(-3, 7, 4, -2);
    let twice = rect.translate(2, -5).translate(4, 9);
    let once = rect.translate(6, 4);
    assert_eq!(twice, once);
}

#[test]
fn test_translate_identity() {
    let rect = BasicRectangle::new_from_sides(-3, 7, 4, -2);
    assert_eq!(rect.translate(0, 0), rect);
}

#[test]
fn test_intersection_matches_overlaps() {
    let rect1 = BasicRectangle::new_from_sides(0, 4, 4, 0);
    let rect2 = BasicRectangle::new_from_sides(2, 6, 6, 2);
    let rect3 = BasicRectangle::new_from_sides(5, 6, 6, 5);
    assert_eq!(rect1.overlaps(&rect2), rect1.intersection(&rect2).is_some());
    assert_eq!(rect1.overlaps(&rect3), rect1.intersection(&rect3).is_some());
}

#[test]
fn test_intersection_contained_in_both() {
    let rect1 = BasicRectangle::new_from_sides(0, 4, 4, 0);
    let rect2 = BasicRectangle::new_from_sides(2, 6, 6, 2);
    let intersection = rect1.intersection(&rect2).expect("Rectangles overlap");
    assert!(rect1.contains_rectangle(&intersection));
    assert!(rect2.contains_rectangle(&intersection));
}

#[test]
fn test_unobstructed_subrectangles_middle_obstruction() {
    let rect = BasicRectangle::new_from_sides(0, 5, 5, 0);
    let obstruction = BasicRectangle::new_from_sides(2, 3, 3, 2);
    let subrects = rect.unobstructed_subrectangles(&vec![&obstruction]);
    assert_eq!(subrects.len(), 4);
    // to the left of the obstruction
    assert!(subrects.contains(&BasicRectangle::new_from_sides(0, 1, 5, 0)));
    // above it
    assert!(subrects.contains(&BasicRectangle::new_from_sides(0, 5, 5, 4)));
    // below it
    assert!(subrects.contains(&BasicRectangle::new_from_sides(0, 5, 1, 0)));
    // to its right
    assert!(subrects.contains(&BasicRectangle::new_from_sides(4, 5, 5, 0)));
}

#[test]
fn test_unobstructed_subrectangles_obstruction_reaching_past_edge() {
    let rect = BasicRectangle::new_from_sides(0, 5, 5, 0);
    let obstruction = BasicRectangle::new_from_sides(4, 8, 5, 0);
    let subrects = rect.unobstructed_subrectangles(&vec![&obstruction]);
    assert_eq!(subrects.len(), 1);
    assert!(subrects.contains(&BasicRectangle::new_from_sides(0, 3, 5, 0)));
}

#[test]
fn test_unobstructed_subrectangles_two_obstructions() {
    let rect = BasicRectangle::new_from_sides(0, 9, 9, 0);
    let upper = BasicRectangle::new_from_sides(2, 4, 9, 6);
    let lower = BasicRectangle::new_from_sides(6, 7, 4, 0);
    let subrects = rect.unobstructed_subrectangles(&vec![&upper, &lower]);
    assert_eq!(subrects.len(), 6);
    for expected in [
        BasicRectangle::new_from_sides(0, 1, 9, 0),
        BasicRectangle::new_from_sides(5, 5, 9, 0),
        BasicRectangle::new_from_sides(0, 5, 5, 0),
        BasicRectangle::new_from_sides(5, 9, 9, 5),
        BasicRectangle::new_from_sides(0, 9, 5, 5),
        BasicRectangle::new_from_sides(8, 9, 9, 0),
    ] {
        assert!(subrects.contains(&expected));
    }
}

#[test]
fn test_unobstructed_subrectangles_degenerate_region() {
    let rect = BasicRectangle::new_from_sides(0, 5, 0, 5);
    let obstructions: Vec<&BasicRectangle> = Vec::new();
    let subrects = rect.unobstructed_subrectangles(&obstructions);
    assert_eq!(subrects.len(), 0);
}

#[test]
fn test_unobstructed_subrectangles_area_no_obstructions() {
    let rect = BasicRectangle::new_from_sides(0, 4, 4, 0);
    let obstructions: Vec<&BasicRectangle> = Vec::new();
    let subrects = rect.unobstructed_subrectangles(&obstructions);
    let total: i32 = subrects.iter().map(|r| r.area()).sum();
    assert_eq!(total, rect.area());
}

#[test]
fn test_unobstructed_subrectangles_disjoint_no_obstructions() {
    let rect = BasicRectangle::new_from_sides(0, 4, 4, 0);
    let obstructions: Vec<&BasicRectangle> = Vec::new();
    let subrects = rect.unobstructed_subrectangles(&obstructions);
    for i in 0..subrects.len() {
        for j in 0..subrects.len() {
            if i != j {
                assert!(!subrects[i].overlaps(&subrects[j]));
            }
        }
    }
}

#[test]
fn test_unobstructed_subrectangles_degenerate_region_fully_obstructed() {
    let rect = BasicRectangle::new_from_sides(5, 0, 5, 0);
    let subrects = rect.unobstructed_subrectangles(&vec![&rect]);
    assert_eq!(subrects.len(), 0);
}
