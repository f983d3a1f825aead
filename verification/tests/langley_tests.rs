use cad_solver::langley::generate_langley_polynomials;

#[test]
fn langley_constraints() {
    let cs = generate_langley_polynomials().unwrap();
    assert_eq!(cs.len(), 12);
    assert_eq!(cs[0], "8*(2 * cos2_20 - 1)^3-6*(2 * cos2_20 - 1)+1");
    assert_eq!(cs[1], "2*(2 * cos2_30 - 1)-1");
    assert_eq!(cs[2], "8*(2 * cos2_50 - 1)^3-6*(2 * cos2_50 - 1)-1");
    assert_eq!(cs[3], "2*(2 * cos2_60 - 1)+1");
    assert_eq!(
        cs[4],
        "((c_x - b_x)*(d_x - b_x)+(c_y - b_y)*(d_y - b_y))^2 - cos2_60 * ((c_x - b_x)^2 + (c_y - b_y)^2) * ((d_x - b_x)^2 + (d_y - b_y)^2)"
    );
    assert_eq!(cs[8], "b_x");
    assert_eq!(cs[9], "b_y");
    assert_eq!(cs[10], "c_x-1");
    assert_eq!(cs[11], "c_y");
}
