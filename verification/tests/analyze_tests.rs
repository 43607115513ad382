use memprocreader::analyze::{byte_frequencies, increase, same};

fn entropy_bits(data: &[u8]) -> f32 {
    // The floating-point half of the entropy estimate, over the verified
    // histogram: -sum p * log2(p) for each byte value's frequency p.
    let counts = byte_frequencies(data);
    let total = data.len() as f32;
    let mut h = 0f32;
    for c in counts {
        if c > 0 {
            let p = c as f32 / total;
            h += p * p.log2();
        }
    }
    -h
}

#[test]
fn same_marks_equal_positions() {
    let r = same(&[1u8, 2, 3, 4], &[1u8, 9, 3]);
    assert_eq!(r, vec![true, false, true]);
}

#[test]
fn increase_marks_grown_positions() {
    let r = increase(&[5u8, 2, 3], &[1u8, 2, 4, 200]);
    assert_eq!(r, vec![true, false, false]);
}

#[test]
fn byte_frequencies_counts_every_value() {
    let data = [0u8, 0, 7, 255, 7, 7];
    let counts = byte_frequencies(&data);
    assert_eq!(counts.len(), 256);
    assert_eq!(counts[0], 2);
    assert_eq!(counts[7], 3);
    assert_eq!(counts[255], 1);
    assert_eq!(counts[1], 0);
    let total: u64 = counts.iter().sum();
    assert_eq!(total, data.len() as u64);
}

#[test]
fn entropy_extremes() {
    let zeros = [0u8; 256];
    assert_eq!(entropy_bits(&zeros), 0.0);

    let mut each_once = [0u8; 256];
    for (i, b) in each_once.iter_mut().enumerate() {
        *b = i as u8;
    }
    assert_eq!(entropy_bits(&each_once), 8.0);
}
