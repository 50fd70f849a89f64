use qn::{TensorIter, TensorIterMut};

#[test]
fn tensor_iter_tensor_iter_10() {
    const DIMENSION: usize = 1;
    const SITE: usize = 0;
    let reg = (0..1 << DIMENSION).collect::<Vec<_>>();

    let result = TensorIter::new(&reg, SITE, DIMENSION).collect_vec();

    assert_eq!(result, &[(&0b0, &0b1)]);
}

#[test]
fn tensor_iter_tensor_iter_20() {
    const DIMENSION: usize = 2;
    const SITE: usize = 0;
    let reg = (0..1 << DIMENSION).collect::<Vec<_>>();

    let result = TensorIter::new(&reg, SITE, DIMENSION).collect_vec();

    assert_eq!(result, &[(&0b00, &0b01), (&0b10, &0b11)]);
}

#[test]
fn tensor_iter_tensor_iter_21() {
    const DIMENSION: usize = 2;
    const SITE: usize = 1;
    let reg = (0..1 << DIMENSION).collect::<Vec<_>>();

    let result = TensorIter::new(&reg, SITE, DIMENSION).collect_vec();

    assert_eq!(result, &[(&0b00, &0b10), (&0b01, &0b11)]);
}

#[test]
fn tensor_iter_tensor_iter_30() {
    const DIMENSION: usize = 3;
    const SITE: usize = 0;
    let reg = (0..1 << DIMENSION).collect::<Vec<_>>();

    let result = TensorIter::new(&reg, SITE, DIMENSION).collect_vec();

    assert_eq!(result, &[(&0b000, &0b001), (&0b010, &0b011), (&0b100, &0b101), (&0b110, &0b111)]);
}

#[test]
fn tensor_iter_tensor_iter_31() {
    const DIMENSION: usize = 3;
    const SITE: usize = 1;
    let reg = (0..1 << DIMENSION).collect::<Vec<_>>();

    let result = TensorIter::new(&reg, SITE, DIMENSION).collect_vec();

    assert_eq!(result, &[(&0b000, &0b010), (&0b001, &0b011), (&0b100, &0b110), (&0b101, &0b111)]);
}

#[test]
fn tensor_iter_tensor_iter_32() {
    const DIMENSION: usize = 3;
    const SITE: usize = 2;
    let reg = (0..1 << DIMENSION).collect::<Vec<_>>();

    let result = TensorIter::new(&reg, SITE, DIMENSION).collect_vec();

    assert_eq!(result, &[(&0b000, &0b100), (&0b001, &0b101), (&0b010, &0b110), (&0b011, &0b111)]);
}

#[test]
fn tensor_iter_tensor_iter_mut_10() {
    const DIMENSION: usize = 1;
    const SITE: usize = 0;
    let mut reg = (0..1 << DIMENSION).collect::<Vec<_>>();

    let result = TensorIterMut::new(&mut reg, SITE, DIMENSION).collect_vec();

    assert_eq!(result, &[(&mut 0b0, &mut 0b1)]);
}

#[test]
fn tensor_iter_tensor_iter_mut_20() {
    const DIMENSION: usize = 2;
    const SITE: usize = 0;
    let mut reg = (0..1 << DIMENSION).collect::<Vec<_>>();

    let result = TensorIterMut::new(&mut reg, SITE, DIMENSION).collect_vec();

    assert_eq!(result, &[(&mut 0b00, &mut 0b01), (&mut 0b10, &mut 0b11)]);
}

#[test]
fn tensor_iter_tensor_iter_mut_21() {
    const DIMENSION: usize = 2;
    const SITE: usize = 1;
    let mut reg = (0..1 << DIMENSION).collect::<Vec<_>>();

    let result = TensorIterMut::new(&mut reg, SITE, DIMENSION).collect_vec();

    assert_eq!(result, &[(&mut 0b00, &mut 0b10), (&mut 0b01, &mut 0b11)]);
}

#[test]
fn tensor_iter_tensor_iter_mut_30() {
    const DIMENSION: usize = 3;
    const SITE: usize = 0;
    let mut reg = (0..1 << DIMENSION).collect::<Vec<_>>();

    let result = TensorIterMut::new(&mut reg, SITE, DIMENSION).collect_vec();

    assert_eq!(result, &[(&mut 0b000, &mut 0b001), (&mut 0b010, &mut 0b011), (&mut 0b100, &mut 0b101), (&mut 0b110, &mut 0b111)]);
}

#[test]
fn tensor_iter_tensor_iter_mut_31() {
    const DIMENSION: usize = 3;
    const SITE: usize = 1;
    let mut reg = (0..1 << DIMENSION).collect::<Vec<_>>();

    let result = TensorIterMut::new(&mut reg, SITE, DIMENSION).collect_vec();

    assert_eq!(result, &[(&mut 0b000, &mut 0b010), (&mut 0b001, &mut 0b011), (&mut 0b100, &mut 0b110), (&mut 0b101, &mut 0b111)]);
}

#[test]
fn tensor_iter_tensor_iter_mut_32() {
    const DIMENSION: usize = 3;
    const SITE: usize = 2;
    let mut reg = (0..1 << DIMENSION).collect::<Vec<_>>();

    let result = TensorIterMut::new(&mut reg, SITE, DIMENSION).collect_vec();

    assert_eq!(result, &[(&mut 0b000, &mut 0b100), (&mut 0b001, &mut 0b101), (&mut 0b010, &mut 0b110), (&mut 0b011, &mut 0b111)]);
}

#[test]
fn mod_tensor_iter_10() {
    const DIMENSION: usize = 1;
    const SITE: usize = 0;
    let reg = (0..1 << DIMENSION).collect::<Vec<_>>();

    let result = TensorIter::new(&reg, SITE, DIMENSION).collect_vec();

    assert_eq!(result, &[(&0b0, &0b1)]);
}

#[test]
fn mod_tensor_iter_20() {
    const DIMENSION: usize = 2;
    const SITE: usize = 0;
    let reg = (0..1 << DIMENSION).collect::<Vec<_>>();

    let result = TensorIter::new(&reg, SITE, DIMENSION).collect_vec();

    assert_eq!(result, &[(&0b00, &0b01), (&0b10, &0b11)]);
}

#[test]
fn mod_tensor_iter_21() {
    const DIMENSION: usize = 2;
    const SITE: usize = 1;
    let reg = (0..1 << DIMENSION).collect::<Vec<_>>();

    let result = TensorIter::new(&reg, SITE, DIMENSION).collect_vec();

    assert_eq!(result, &[(&0b00, &0b10), (&0b01, &0b11)]);
}

#[test]
fn mod_tensor_iter_30() {
    const DIMENSION: usize = 3;
    const SITE: usize = 0;
    let reg = (0..1 << DIMENSION).collect::<Vec<_>>();

    let result = TensorIter::new(&reg, SITE, DIMENSION).collect_vec();

    assert_eq!(result, &[(&0b000, &0b001), (&0b010, &0b011), (&0b100, &0b101), (&0b110, &0b111)]);
}

#[test]
fn mod_tensor_iter_31() {
    const DIMENSION: usize = 3;
    const SITE: usize = 1;
    let reg = (0..1 << DIMENSION).collect::<Vec<_>>();

    let result = TensorIter::new(&reg, SITE, DIMENSION).collect_vec();

    assert_eq!(result, &[(&0b000, &0b010), (&0b001, &0b011), (&0b100, &0b110), (&0b101, &0b111)]);
}

#[test]
fn mod_tensor_iter_32() {
    const DIMENSION: usize = 3;
    const SITE: usize = 2;
    let reg = (0..1 << DIMENSION).collect::<Vec<_>>();

    let result = TensorIter::new(&reg, SITE, DIMENSION).collect_vec();

    assert_eq!(result, &[(&0b000, &0b100), (&0b001, &0b101), (&0b010, &0b110), (&0b011, &0b111)]);
}

#[test]
fn mod_tensor_iter_mut_10() {
    const DIMENSION: usize = 1;
    const SITE: usize = 0;
    let mut reg = (0..1 << DIMENSION).collect::<Vec<_>>();

    let result = TensorIterMut::new(&mut reg, SITE, DIMENSION).collect_vec();

    assert_eq!(result, &[(&mut 0b0, &mut 0b1)]);
}

#[test]
fn mod_tensor_iter_mut_20() {
    const DIMENSION: usize = 2;
    const SITE: usize = 0;
    let mut reg = (0..1 << DIMENSION).collect::<Vec<_>>();

    let result = TensorIterMut::new(&mut reg, SITE, DIMENSION).collect_vec();

    assert_eq!(result, &[(&mut 0b00, &mut 0b01), (&mut 0b10, &mut 0b11)]);
}

#[test]
fn mod_tensor_iter_mut_21() {
    const DIMENSION: usize = 2;
    const SITE: usize = 1;
    let mut reg = (0..1 << DIMENSION).collect::<Vec<_>>();

    let result = TensorIterMut::new(&mut reg, SITE, DIMENSION).collect_vec();

    assert_eq!(result, &[(&mut 0b00, &mut 0b10), (&mut 0b01, &mut 0b11)]);
}

#[test]
fn mod_tensor_iter_mut_30() {
    const DIMENSION: usize = 3;
    const SITE: usize = 0;
    let mut reg = (0..1 << DIMENSION).collect::<Vec<_>>();

    let result = TensorIterMut::new(&mut reg, SITE, DIMENSION).collect_vec();

    assert_eq!(result, &[(&mut 0b000, &mut 0b001), (&mut 0b010, &mut 0b011), (&mut 0b100, &mut 0b101), (&mut 0b110, &mut 0b111)]);
}

#[test]
fn mod_tensor_iter_mut_31() {
    const DIMENSION: usize = 3;
    const SITE: usize = 1;
    let mut reg = (0..1 << DIMENSION).collect::<Vec<_>>();

    let result = TensorIterMut::new(&mut reg, SITE, DIMENSION).collect_vec();

    assert_eq!(result, &[(&mut 0b000, &mut 0b010), (&mut 0b001, &mut 0b011), (&mut 0b100, &mut 0b110), (&mut 0b101, &mut 0b111)]);
}

#[test]
fn mod_tensor_iter_mut_32() {
    const DIMENSION: usize = 3;
    const SITE: usize = 2;
    let mut reg = (0..1 << DIMENSION).collect::<Vec<_>>();

    let result = TensorIterMut::new(&mut reg, SITE, DIMENSION).collect_vec();

    assert_eq!(result, &[(&mut 0b000, &mut 0b100), (&mut 0b001, &mut 0b101), (&mut 0b010, &mut 0b110), (&mut 0b011, &mut 0b111)]);
}

#[test]
fn iter_mut_mutability() {
    const DIMENSION: usize = 3;
    const SITE: usize = 2;
    let mut reg = (0..1 << DIMENSION).collect::<Vec<_>>();

    let mut result = TensorIterMut::new(&mut reg, SITE, DIMENSION).collect_vec();

    let (val_0, val_1) = &mut result[3];
    **val_0 = 77;
    **val_1 = 99;

    assert_eq!(reg[3], 77);
    assert_eq!(reg[7], 99);
}

/// Removes bit `site` from `val`: the number of the pair that `val` belongs to.
fn squeeze_out_bit(val: usize, site: usize) -> usize {
    let low_mask = (1usize << site) - 1;
    (val & low_mask) | ((val >> (site + 1)) << site)
}

fn check_pairs(dim: usize, site: usize) {
    let reg = (0..1usize << dim).collect::<Vec<_>>();
    let result = TensorIter::new(&reg, site, dim).collect_vec();
    assert_eq!(result.len(), 1 << (dim - 1));
    for (count, (&low, &high)) in result.into_iter().enumerate() {
        assert_eq!(low & (1 << site), 0);
        assert_eq!(high, low | (1 << site));
        assert_eq!(squeeze_out_bit(low, site), count);
        assert_eq!(squeeze_out_bit(high, site), count);
    }
}

#[test]
fn tensor_iter_nk_10() {
    check_pairs(1, 0);
}

#[test]
fn tensor_iter_nk_32() {
    check_pairs(3, 2);
}

#[test]
fn tensor_iter_nk_83() {
    check_pairs(8, 3);
}

#[test]
fn tensor_iter_nk_87() {
    check_pairs(8, 7);
}

#[test]
fn tensor_iter_nk_2117() {
    check_pairs(21, 17);
}

#[test]
fn tensor_iter_mut_nk_80() {
    let mut reg = (0..1usize << 8).collect::<Vec<_>>();
    let result = TensorIterMut::new(&mut reg, 0, 8).collect_vec();
    assert_eq!(result.len(), 1 << 7);
    for (count, (low, high)) in result.into_iter().enumerate() {
        assert_eq!(*low, 2 * count);
        assert_eq!(*high, 2 * count + 1);
    }
}

#[test]
fn tensor_iter_mut_writes_every_element_once() {
    let mut reg = vec![0u32; 1 << 5];
    for (low, high) in TensorIterMut::new(&mut reg, 2, 5).collect_vec() {
        *low += 1;
        *high += 10;
    }
    for (i, v) in reg.iter().enumerate() {
        if i & (1 << 2) == 0 {
            assert_eq!(*v, 1);
        } else {
            assert_eq!(*v, 10);
        }
    }
}

#[test]
fn tensor_iter_next_stops_after_last_pair() {
    let reg = [5, 6, 7, 8];
    let mut it = TensorIter::new(&reg, 1, 2);
    assert_eq!(it.next(), Some((&5, &7)));
    assert_eq!(it.next(), Some((&6, &8)));
    assert_eq!(it.next(), None);
    assert_eq!(it.next(), None);
}

#[test]
fn tensor_iter_uses_only_the_first_states_of_a_longer_buffer() {
    let reg = [1, 2, 3, 4, 5];
    let result = TensorIter::new(&reg, 0, 2).collect_vec();
    assert_eq!(result, &[(&1, &2), (&3, &4)]);
}

#[test]
fn tensor_iter_mut_next_stops_after_last_pair() {
    let mut reg = [5, 6];
    let mut it = TensorIterMut::new(&mut reg, 0, 1);
    let (x, y) = it.next().unwrap();
    std::mem::swap(x, y);
    assert!(it.next().is_none());
    assert_eq!(reg, [6, 5]);
}

#[test]
fn tensor_iter_mut_without_writes_leaves_buffer_unchanged() {
    let mut reg = (0..1usize << 4).collect::<Vec<_>>();
    let mut it = TensorIterMut::new(&mut reg, 1, 4);
    let mut count = 0;
    while let Some((low, high)) = it.next() {
        assert_eq!(*high, *low + 2);
        count += 1;
    }
    assert_eq!(count, 8);
    assert_eq!(reg, (0..16).collect::<Vec<_>>());
}
