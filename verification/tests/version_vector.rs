//! The unit tests of the causal data types.

use causalkv::version_vector::{
    BitmappedVersion, BitmappedVersionVector, Dots, DottedCausalContainer, VersionVector,
};

fn data() -> [DottedCausalContainer<&'static str>; 5] {
    let mut d1_dots = Dots::new();
    d1_dots.add((1, 8), "red");
    d1_dots.add((2, 2), "green");
    let d1 = DottedCausalContainer::from_parts(d1_dots, VersionVector::new());

    let mut d2_vv = VersionVector::new();
    d2_vv.add(1, 4);
    d2_vv.add(2, 20);
    let d2 = DottedCausalContainer::from_parts(Dots::new(), d2_vv);

    let mut d3_dots = Dots::new();
    d3_dots.add((1, 1), "black");
    d3_dots.add((1, 3), "red");
    d3_dots.add((2, 1), "green");
    d3_dots.add((2, 2), "green");
    let mut d3_vv = VersionVector::new();
    d3_vv.add(1, 4);
    d3_vv.add(2, 7);
    let d3 = DottedCausalContainer::from_parts(d3_dots, d3_vv);

    let mut d4_dots = Dots::new();
    d4_dots.add((1, 2), "gray");
    d4_dots.add((1, 3), "red");
    d4_dots.add((1, 5), "red");
    d4_dots.add((2, 2), "green");
    let mut d4_vv = VersionVector::new();
    d4_vv.add(1, 5);
    d4_vv.add(2, 5);
    let d4 = DottedCausalContainer::from_parts(d4_dots, d4_vv);

    let mut d5_dots = Dots::new();
    d5_dots.add((1, 5), "gray");
    let mut d5_vv = VersionVector::new();
    d5_vv.add(1, 5);
    d5_vv.add(2, 5);
    d5_vv.add(3, 4);
    let d5 = DottedCausalContainer::from_parts(d5_dots, d5_vv);

    [d1, d2, d3, d4, d5]
}

#[test]
fn add_get() {
    let mut a = BitmappedVersionVector::new();
    assert!(a.get(1).is_none());
    a.add(1, 1);
    a.add(1, 3);
    // second bit set
    assert_eq!(a.get(1).unwrap(), &BitmappedVersion::new(1, 0b10));
    a.add(1, 2);
    // expect normalization to occur
    assert_eq!(a.get(1).unwrap(), &BitmappedVersion::new(3, 0));
}

#[test]
fn merge() {
    let mut a = BitmappedVersionVector::new();
    a.set_entry(1, BitmappedVersion::new(5, 3));
    let mut b = BitmappedVersionVector::new();
    b.set_entry(1, BitmappedVersion::new(2, 4));
    a.merge(&b);
    assert_eq!(a.get(1).unwrap(), &BitmappedVersion::new(7, 0));

    let mut a = BitmappedVersionVector::new();
    a.set_entry(1, BitmappedVersion::new(5, 3));
    let mut b = BitmappedVersionVector::new();
    b.set_entry(2, BitmappedVersion::new(2, 4));
    a.merge(&b);
    assert_eq!(a.get(1).unwrap(), &BitmappedVersion::new(5, 3));
    assert_eq!(a.get(2).unwrap(), &BitmappedVersion::new(2, 4));
}

#[test]
fn join() {
    let mut a = BitmappedVersionVector::new();
    a.set_entry(1, BitmappedVersion::new(5, 3));
    let mut b = BitmappedVersionVector::new();
    b.set_entry(1, BitmappedVersion::new(2, 4));
    a.join(&b);
    assert_eq!(a.get(1).unwrap(), &BitmappedVersion::new(7, 0));

    let mut a = BitmappedVersionVector::new();
    a.set_entry(1, BitmappedVersion::new(2, 4));
    let mut b = BitmappedVersionVector::new();
    b.set_entry(1, BitmappedVersion::new(5, 3));
    a.join(&b);
    assert_eq!(a.get(1).unwrap(), &BitmappedVersion::new(7, 0));

    let mut a = BitmappedVersionVector::new();
    a.set_entry(1, BitmappedVersion::new(5, 3));
    let mut b = BitmappedVersionVector::new();
    b.set_entry(2, BitmappedVersion::new(2, 4));
    a.join(&b);
    assert_eq!(a.get(1).unwrap(), &BitmappedVersion::new(5, 3));
    assert!(a.get(2).is_none());
}

#[test]
fn event() {
    let mut a = BitmappedVersionVector::new();
    assert_eq!(a.event(1), 1);
    assert_eq!(a.get(1).unwrap(), &BitmappedVersion::new(1, 0));

    assert_eq!(a.event(1), 2);
    assert_eq!(a.get(1).unwrap(), &BitmappedVersion::new(2, 0));
}

#[test]
fn norm() {
    // second bit set
    let mut a = BitmappedVersion::new(1, 0b10);
    a.norm();
    assert_eq!(a.base(), 1);
    assert_eq!(a, BitmappedVersion::new(1, 0b10));
    a.add(2);
    a.norm();
    assert_eq!(a.base(), 3);
    assert!(a.bitmap_is_zero());
    assert_eq!(a, BitmappedVersion::new(3, 0));
}

#[test]
fn min_id() {
    let mut a0 = VersionVector::new();
    a0.add(1, 2);
    let mut a1 = VersionVector::new();
    a1.add(1, 2);
    a1.add(2, 4);
    a1.add(3, 4);
    let mut a2 = VersionVector::new();
    a2.add(1, 5);
    a2.add(2, 4);
    a2.add(3, 4);
    let mut a3 = VersionVector::new();
    a3.add(1, 4);
    a3.add(2, 4);
    a3.add(3, 4);
    let mut a4 = VersionVector::new();
    a4.add(1, 5);
    a4.add(2, 14);
    a4.add(3, 4);
    assert_eq!(a0.min_id(), Some(1));
    assert_eq!(a1.min_id(), Some(1));
    assert_eq!(a2.min_id(), Some(2));
    assert_eq!(a3.min_id(), Some(1));
    assert_eq!(a4.min_id(), Some(3));
}

#[test]
fn reset() {
    let mut a1 = VersionVector::new();
    a1.add(1, 2);
    a1.add(2, 4);
    a1.add(3, 4);
    a1.reset();
    assert_eq!(a1.get(1), Some(0));
    assert_eq!(a1.get(2), Some(0));
    assert_eq!(a1.get(3), Some(0));
}

#[test]
fn remove() {
    let mut a1 = VersionVector::new();
    a1.add(1, 2);
    a1.add(2, 4);
    a1.add(3, 4);
    assert_eq!(a1.remove(1), Some(2));
    assert_eq!(a1.remove(2), Some(4));
    assert_eq!(a1.remove(3), Some(4));
    assert_eq!(a1.remove(1), None);
    assert_eq!(a1.remove(2), None);
    assert_eq!(a1.remove(3), None);
}

#[test]
fn sync() {
    let d = data();
    let mut d34_dots = Dots::new();
    d34_dots.add((1, 3), "red");
    d34_dots.add((1, 5), "red");
    d34_dots.add((2, 2), "green");
    let mut d34_vv = VersionVector::new();
    d34_vv.add(1, 5);
    d34_vv.add(2, 7);
    let d34: DottedCausalContainer<&'static str> =
        DottedCausalContainer::from_parts(d34_dots, d34_vv);

    for d in &d {
        let mut ds = d.clone();
        ds.sync(d.clone());
        assert_eq!(&ds, d);
    }
    let mut ds = d[2].clone();
    ds.sync(d[3].clone());
    assert_eq!(&ds, &d34);
    ds = d[3].clone();
    ds.sync(d[2].clone());
    assert_eq!(&ds, &d34);
}

#[test]
fn add_to_bvv() {
    let d1 = data()[0].clone();
    let mut bvv0 = BitmappedVersionVector::new();
    bvv0.set_entry(1, BitmappedVersion::new(5, 3));
    d1.add_to_bvv(&mut bvv0);
    let mut bvv1 = BitmappedVersionVector::new();
    bvv1.set_entry(1, BitmappedVersion::new(8, 0));
    bvv1.set_entry(2, BitmappedVersion::new(0, 2));
    assert_eq!(bvv0, bvv1);
}

#[test]
fn add() {
    let mut d1 = data()[0].clone();
    d1.add(1, 11, "purple");
    let mut d1e_dots = Dots::new();
    d1e_dots.add((1, 8), "red");
    d1e_dots.add((2, 2), "green");
    d1e_dots.add((1, 11), "purple");
    let mut d1e_vv = VersionVector::new();
    d1e_vv.add(1, 11);
    let d1e = DottedCausalContainer::from_parts(d1e_dots, d1e_vv);
    assert_eq!(d1, d1e);

    let mut d2 = data()[1].clone();
    d2.add(2, 11, "purple");
    let mut d2e_dots = Dots::new();
    d2e_dots.add((2, 11), "purple");
    let mut d2e_vv = VersionVector::new();
    d2e_vv.add(1, 4);
    d2e_vv.add(2, 20);
    let d2e = DottedCausalContainer::from_parts(d2e_dots, d2e_vv);
    assert_eq!(d2, d2e);
}

#[test]
fn discard() {
    let mut d3 = data()[2].clone();
    d3.discard(&VersionVector::new());
    assert_eq!(&d3, &data()[2]);

    let mut vv = VersionVector::new();
    vv.add(1, 2);
    vv.add(2, 15);
    vv.add(3, 15);
    let mut d3 = data()[2].clone();
    d3.discard(&vv);
    let mut d3e_dots = Dots::new();
    d3e_dots.add((1, 3), "red");
    let mut d3e_vv = VersionVector::new();
    d3e_vv.add(1, 4);
    d3e_vv.add(2, 15);
    d3e_vv.add(3, 15);
    let d3e = DottedCausalContainer::from_parts(d3e_dots, d3e_vv);
    assert_eq!(d3, d3e);

    let mut vv = VersionVector::new();
    vv.add(1, 3);
    vv.add(2, 15);
    vv.add(3, 15);
    let mut d3 = data()[2].clone();
    d3.discard(&vv);
    let mut d3e_vv = VersionVector::new();
    d3e_vv.add(1, 4);
    d3e_vv.add(2, 15);
    d3e_vv.add(3, 15);
    let d3e = DottedCausalContainer::from_parts(Dots::new(), d3e_vv);
    assert_eq!(d3, d3e);
}

#[test]
fn fill() {
    let mut vv = VersionVector::new();
    vv.add(1, 4);
    let mut d: DottedCausalContainer<&'static str> =
        DottedCausalContainer::from_parts(Dots::new(), vv);
    let mut bvv = BitmappedVersionVector::new();
    bvv.set_entry(1, BitmappedVersion::new(5, 0));
    bvv.set_entry(2, BitmappedVersion::new(2, 0));
    d.fill(&bvv);
    assert_eq!(d.version_vector().get(1), Some(5));
    assert_eq!(d.version_vector().get(2), Some(2));

    let mut vv = VersionVector::new();
    vv.add(1, 7);
    let mut d: DottedCausalContainer<&'static str> =
        DottedCausalContainer::from_parts(Dots::new(), vv);
    d.fill(&bvv);
    assert_eq!(d.version_vector().get(1), Some(7));
    assert_eq!(d.version_vector().get(2), Some(2));
}

#[test]
fn strip() {
    let mut vv = VersionVector::new();
    vv.add(1, 5);
    vv.add(2, 2);
    let mut d: DottedCausalContainer<&'static str> =
        DottedCausalContainer::from_parts(Dots::new(), vv);
    let mut bvv = BitmappedVersionVector::new();
    bvv.set_entry(1, BitmappedVersion::new(5, 0));
    d.strip(&bvv);
    assert_eq!(d.version_vector().get(1), None);
    assert_eq!(d.version_vector().get(2), Some(2));

    let mut vv = VersionVector::new();
    vv.add(1, 6);
    let mut d: DottedCausalContainer<&'static str> =
        DottedCausalContainer::from_parts(Dots::new(), vv);
    d.strip(&bvv);
    assert_eq!(d.version_vector().get(1), Some(6));
}
