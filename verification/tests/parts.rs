use mif::{
    group_runs, AddressSpec, Assignment, HeaderDraft, Mif, PackedBuffer, ParseError, Radix, Run,
    Setting, ToMif, ValueKey,
};

fn key(magnitude: u128) -> ValueKey {
    ValueKey::unsigned(magnitude)
}

#[test]
fn radix_gives_base_digits_and_keyword() {
    let table = [
        (Radix::Uns, 10, "0123456789", "UNS"),
        (Radix::Bin, 2, "01", "BIN"),
        (Radix::Oct, 8, "01234567", "OCT"),
        (Radix::Dec, 10, "0123456789", "DEC"),
        (Radix::Hex, 16, "0123456789abcdefABCDEF", "HEX"),
    ];
    for (radix, base, digits, keyword) in table {
        assert_eq!(radix.radix(), base);
        assert_eq!(radix.digits(), digits);
        assert_eq!(radix.keyword(), keyword);
        for byte in 0..=255u8 {
            let value = radix.digit(byte);
            assert_eq!(value.is_some(), digits.as_bytes().contains(&byte));
            if let Some(value) = value {
                assert_eq!(Some(value as u32), (byte as char).to_digit(base));
            }
        }
    }
}

#[test]
fn runs_join_equal_neighbours_only() {
    let pairs = [(0, key(5)), (1, key(5)), (2, key(5)), (3, key(2)), (4, key(2))];
    assert_eq!(
        group_runs(&pairs),
        vec![Run { start: 0, end: 2, key: key(5) }, Run { start: 3, end: 4, key: key(2) }]
    );
    let gaps = [(0, key(1)), (2, key(1)), (3, key(1)), (4, key(7)), (9, key(7)), (10, key(1))];
    assert_eq!(
        group_runs(&gaps),
        vec![
            Run { start: 0, end: 0, key: key(1) },
            Run { start: 2, end: 3, key: key(1) },
            Run { start: 4, end: 4, key: key(7) },
            Run { start: 9, end: 9, key: key(7) },
            Run { start: 10, end: 10, key: key(1) },
        ]
    );
    assert_eq!(group_runs(&[]), vec![]);
    assert_eq!(
        group_runs(&[(usize::MAX, key(3))]),
        vec![Run { start: usize::MAX, end: usize::MAX, key: key(3) }]
    );
    let signs = [(0, ValueKey::signed(-1)), (1, ValueKey::signed(1)), (2, ValueKey::signed(1))];
    assert_eq!(group_runs(&signs).len(), 2);
}

#[test]
fn keys_have_sign_and_magnitude() {
    assert_eq!(ValueKey::signed(-5), ValueKey { negative: true, magnitude: 5 });
    assert_eq!(ValueKey::signed(0), ValueKey { negative: false, magnitude: 0 });
    assert_eq!(ValueKey::signed(i128::MAX).magnitude, i128::MAX as u128);
    assert_eq!(ValueKey::signed(i128::MIN), ValueKey { negative: true, magnitude: 1 << 127 });
    assert_eq!(ValueKey::unsigned(u128::MAX), ValueKey { negative: false, magnitude: u128::MAX });
}

#[test]
fn numbers_give_their_bits_and_their_signed_value() {
    assert_eq!((-2i8).bits(), 254);
    assert_eq!((-2i8).signed(), ValueKey::signed(-2));
    assert_eq!(254u8.bits(), 254);
    assert_eq!(254u8.signed(), ValueKey::unsigned(254));
    assert_eq!(i16::MIN.bits(), 0x8000);
    assert_eq!((-1i32).bits(), 0xffff_ffff);
    assert_eq!((-1i64).bits(), u64::MAX as u128);
    assert_eq!((-1i128).bits(), u128::MAX);
    assert_eq!(i128::MIN.bits(), 1 << 127);
    assert_eq!((-1isize).bits(), usize::MAX as u128);
    assert_eq!(usize::MAX.bits(), usize::MAX as u128);
    assert_eq!(u128::MAX.signed(), ValueKey::unsigned(u128::MAX));
    assert_eq!(isize::MIN.signed(), ValueKey::signed(isize::MIN as i128));
    assert_eq!(<u8 as ToMif>::WIDTH, 8);
    assert_eq!(<i16 as ToMif>::WIDTH, 16);
    assert_eq!(<u32 as ToMif>::WIDTH, 32);
    assert_eq!(<i64 as ToMif>::WIDTH, 64);
    assert_eq!(<u128 as ToMif>::WIDTH, 128);
    assert_eq!(<isize as ToMif>::WIDTH, usize::BITS as usize);
}

#[test]
fn wide_numbers_are_written_in_full() {
    let text = Mif::new(&[u128::MAX, 0], Radix::Uns, Radix::Dec).encode();
    assert!(text.contains("WIDTH=128;"));
    assert!(text.contains("\n0:340282366920938463463374607431768211455;\n1:0;\n"));
    let text = Mif::new(&[i128::MIN], Radix::Uns, Radix::Dec).encode();
    assert!(text.contains("\n0:-170141183460469231731687303715884105728;\n"));
    let text = Mif::new(&[i128::MIN], Radix::Uns, Radix::Hex).encode();
    assert!(text.contains("\n0:80000000000000000000000000000000;\n"));
    let text = Mif::new(&[-1i64, -1], Radix::Hex, Radix::Oct).encode();
    assert!(text.contains("\n[0000000000000000..0000000000000001]:1777777777777777777777;\n"));
}

#[test]
fn a_buffer_has_a_valid_shape_or_is_not_made() {
    let bits = usize::BITS as usize;
    assert!(PackedBuffer::new(0, 4).is_none());
    assert!(PackedBuffer::new(bits + 1, 4).is_none());
    assert!(PackedBuffer::new(8, 0).is_none());
    assert!(PackedBuffer::new(2, usize::MAX).is_none());
    let buffer = PackedBuffer::new(bits, 3).unwrap();
    assert_eq!(buffer.words(), &vec![0; 3]);
    let buffer = PackedBuffer::new(1, bits + 1).unwrap();
    assert_eq!(buffer.words(), &vec![0; 2]);
    assert_eq!(buffer.width(), 1);
    assert_eq!(buffer.depth(), bits + 1);
}

#[test]
fn a_stored_value_is_cut_to_the_width_and_or_ed_in() {
    let mut buffer = PackedBuffer::new(5, 30).unwrap();
    for address in 0..30 {
        buffer.store(address, address + 0x100);
    }
    for address in 0..30 {
        assert_eq!(buffer.get(address), address);
    }
    buffer.store(12, 0b10011);
    assert_eq!(buffer.get(12), 12 | 0b10011);
    assert_eq!(buffer.get(11), 11);
    assert_eq!(buffer.get(13), 13);
    let words = buffer.words().clone();
    assert_eq!(buffer.into_words(), words);
}

#[test]
fn an_assignment_is_carried_out_on_a_buffer() {
    let mut buffer = PackedBuffer::new(4, 10).unwrap();
    buffer.assign(&Assignment { address: AddressSpec::Range(1, 8), values: vec![1, 2, 3] });
    buffer.assign(&Assignment { address: AddressSpec::Single(8), values: vec![0x1c, 8] });
    buffer.assign(&Assignment { address: AddressSpec::Range(9, 3), values: vec![15] });
    buffer.assign(&Assignment { address: AddressSpec::Range(0, 9), values: vec![] });
    let cells: Vec<usize> = (0..10).map(|address| buffer.get(address)).collect();
    assert_eq!(cells, vec![0, 1, 2, 3, 1, 2, 3, 1, 2 | 12, 8]);
}

#[test]
fn a_draft_keeps_the_last_setting_and_names_what_is_missing() {
    let mut draft = HeaderDraft::new();
    assert!(draft.finish().is_err());
    draft.set(Setting::Width(4));
    draft.set(Setting::DataRadix(Radix::Hex));
    draft.set(Setting::Depth(2));
    draft.set(Setting::Width(9));
    assert_eq!(
        draft.finish().err(),
        Some(ParseError::MissingHeaderField(mif::HeaderField::AddressRadix))
    );
    draft.set(Setting::AddressRadix(Radix::Oct));
    let header = draft.finish().unwrap();
    assert_eq!(
        (header.width, header.depth, header.address_radix, header.data_radix),
        (9, 2, Radix::Oct, Radix::Hex)
    );
}
