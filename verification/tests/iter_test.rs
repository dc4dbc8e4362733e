use xbits::chunks::{bit_chunks, bit_iter, from_bit_chunks, from_bits, TinyBits};

#[test]
fn test_bit_iter() {
    for (i, &data) in DATA_LIST.iter().enumerate() {
        assert_eq!(bit_iter(&data.to_vec()), BITS_LIST[i]);
        assert_eq!(from_bits(&BITS_LIST[i].to_vec()), *data);
    }
}

const DATA_LIST: &[&[u8]] = &[
    &[],
    &[0; 1],
    &[0; 2],
    &[0; 4],
    &[0; 8],
    &[u8::MAX; 1],
    &[u8::MAX; 2],
    &[u8::MAX; 4],
    &[u8::MAX; 8],
    &[0b0000_0001],
    &[0b1000_0000],
    &[0b1111_1110],
    &[0b0111_1111],
    &[0b0101_0101],
    &[0b1010_1010],
    &[0b0000_0000, 0b1111_1111],
    &[0b1111_1111, 0b0000_0000],
    &[0b1100_0011, 0b0011_1100],
];
const BITS_LIST: &[&[bool]] = &[
    &[],
    &[false; 8],
    &[false; 16],
    &[false; 32],
    &[false; 64],
    &[true; 8],
    &[true; 16],
    &[true; 32],
    &[true; 64],
    &[false, false, false, false, false, false, false, true],
    &[true, false, false, false, false, false, false, false],
    &[true, true, true, true, true, true, true, false],
    &[false, true, true, true, true, true, true, true],
    &[false, true, false, true, false, true, false, true],
    &[true, false, true, false, true, false, true, false],
    &[
        false, false, false, false, false, false, false, false, //..
        true, true, true, true, true, true, true, true,
    ],
    &[
        true, true, true, true, true, true, true, true, false, //..
        false, false, false, false, false, false, false,
    ],
    &[
        true, true, false, false, false, false, true, true, //..
        false, false, true, true, true, true, false, false,
    ],
];

#[test]
fn test_doc() {
    assert_eq!(
        bit_chunks(&vec![0b1111_1111], 6),
        vec![0b11_1111, 0b11_0000]
    );
    assert_eq!(
        bit_chunks(&vec![0b1111_1111, 0b1111_1111], 6),
        vec![0b11_1111, 0b11_1111, 0b11_1100]
    );
    assert_eq!(
        bit_chunks(&vec![0b1111_1111; 3], 11),
        vec![0b111_1111_1111, 0b111_1111_1111, 0b110_0000_0000]
    );

    assert_eq!(
        from_bit_chunks(&vec![0b11_1111, 0b11_1111, 0b11_1111], 6),
        vec![0b1111_1111, 0b1111_1111, 0b1100_0000]
    );
    assert_eq!(
        from_bit_chunks(&vec![0b1111, 0b1111, 0b1111], 6),
        vec![0b001111_00, 0b1111_0011, 0b1100_0000]
    );

    assert_eq!(
        bit_iter(&vec![0b1111_0000]),
        vec![true, true, true, true, false, false, false, false]
    );
    assert_eq!(
        from_bits(&vec![true, true, true, true, false, false, false, false]),
        [0b1111_0000]
    );
}

#[test]
fn test_from_bits_pads_final_byte() {
    let bits = vec![false, false, false, false, true, true, true, true, false];
    let data = from_bits(&bits);
    assert_eq!(data, [0b0000_1111, 0b0000_0000]);
}

#[test]
fn test_chunk_round_trip() {
    // Buffers whose bit length is a multiple of the chunk width come
    // back byte for byte.
    let subjects: &[&[u8]] = &[
        &[],
        &[0x00],
        &[0xff],
        &[0xde, 0xad, 0xbe, 0xef],
        &[0x01, 0x02, 0x03, 0x04, 0x05, 0x06],
    ];
    for data in subjects {
        let v = data.to_vec();
        for n in 1..=32usize {
            if (v.len() * 8) % n == 0 {
                let chunks = bit_chunks(&v, n);
                assert_eq!(from_bit_chunks(&chunks, n), v);
            }
        }
    }
}

#[test]
fn test_chunks_mask_wide_values() {
    // Only the low n bits of each chunk take part.
    assert_eq!(
        from_bit_chunks(&vec![0xffff_ffff_ffff_ffffu64, 0], 8),
        vec![0xff, 0x00]
    );
}

#[test]
fn test_tiny_bits() {
    let empty = TinyBits::new(0b1010_0000, 0);
    assert_eq!(empty.len(), 0);
    assert_eq!(empty.value(), Vec::<u8>::new());
    let mut window: u64 = 0xabcd_0000_0000_0000;
    empty.prefix_to(&mut window);
    assert_eq!(window, 0xabcd_0000_0000_0000);

    let frag = TinyBits::new(0b1010_0000, 3);
    assert_eq!(frag.len(), 3);
    assert_eq!(frag.value(), vec![0b1010_0000]);
    let mut window: u64 = 0x1fff_0000_0000_0000;
    frag.prefix_to(&mut window);
    assert_eq!(window, 0xa3ff_e000_0000_0000);
}
