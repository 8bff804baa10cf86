use robodoan::{
    ElemId, Vec4, IDENT_ID, WX_ID, WY_ID, WZ_ID, XW_ID, XY_ID, XZ_ID, YW_ID, YX_ID, YZ_ID, ZW_ID, ZX_ID, ZY_ID,
};

fn axes() -> [Vec4; 4] {
    [
        Vec4 { x: 1, y: 0, z: 0, w: 0 },
        Vec4 { x: 0, y: 1, z: 0, w: 0 },
        Vec4 { x: 0, y: 0, z: 1, w: 0 },
        Vec4 { x: 0, y: 0, z: 0, w: 1 },
    ]
}

fn neg(v: Vec4) -> Vec4 {
    Vec4 { x: -v.x, y: -v.y, z: -v.z, w: -v.w }
}

#[test]
#[allow(non_snake_case)]
fn test_simple_rotations() {
    let [X, Y, Z, W] = axes();
    for (id, init, expected) in [
        (IDENT_ID, [X, Y, Z, W], [X, Y, Z, W]),
        (XY_ID, [X, Y, Z, W], [Y, neg(X), Z, W]),
        (XZ_ID, [X, Y, Z, W], [Z, Y, neg(X), W]),
        (XW_ID, [X, Y, Z, W], [W, Y, Z, neg(X)]),
        (YX_ID, [X, Y, Z, W], [neg(Y), X, Z, W]),
        (ZX_ID, [X, Y, Z, W], [neg(Z), Y, X, W]),
        (WX_ID, [X, Y, Z, W], [neg(W), Y, Z, X]),
        (YZ_ID, [X, Y, Z, W], [X, Z, neg(Y), W]),
        (YW_ID, [X, Y, Z, W], [X, W, Z, neg(Y)]),
        (ZY_ID, [X, Y, Z, W], [X, neg(Z), Y, W]),
        (WY_ID, [X, Y, Z, W], [X, neg(W), Z, Y]),
        (ZW_ID, [X, Y, Z, W], [X, Y, W, neg(Z)]),
        (WZ_ID, [X, Y, Z, W], [X, Y, neg(W), Z]),
    ] {
        let elem = ElemId::new(id);
        for (a, b) in init.into_iter().zip(expected) {
            assert_eq!(elem.mul_vec(a), b);
        }
    }
}

#[test]
#[allow(non_snake_case)]
fn test_quarter_turns_compose() {
    let [X, _, Z, _] = axes();
    // Two quarter turns in one plane make a half turn, four make nothing.
    let xy = ElemId::new(XY_ID);
    let half = xy.mul(xy);
    assert_eq!(half.mul_vec(X), neg(X));
    assert_eq!(half.mul_vec(Z), Z);
    assert_eq!(half.mul(half), ElemId::new(IDENT_ID));
    // Opposite quarter turns undo each other.
    assert_eq!(xy.inv(), ElemId::new(YX_ID));
    assert_eq!(ElemId::new(ZW_ID).inv(), ElemId::new(WZ_ID));
}
