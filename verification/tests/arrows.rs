use glam::Vec3;

#[test]
fn test_tangent_projection() {
    // Test that directions are properly projected onto tangent plane
    let surface_normal = Vec3::Y; // Point on top of sphere
    let direction = Vec3::new(1.0, 0.5, 0.0).normalize(); // Diagonal direction

    let tangent = (direction - surface_normal * direction.dot(surface_normal)).normalize();

    // Tangent should be perpendicular to surface normal
    let dot = tangent.dot(surface_normal);
    assert!(
        dot.abs() < 0.001,
        "Tangent should be perpendicular to normal, dot was {}",
        dot
    );
}

#[test]
fn test_arrow_scale() {
    // Arrow scale should be 20% of radius
    let radius = 10.0;
    let expected_scale = radius * 0.2;
    assert_eq!(expected_scale, 2.0);
}
