use mif::{decode, decode_bytes, Mif, Radix, ToMif};

const READABLE: [Radix; 4] = [Radix::Uns, Radix::Bin, Radix::Oct, Radix::Hex];

fn flat<T: ToMif>(data: &[T], address_radix: Radix, data_radix: Radix) -> String {
    let mut text = format!(
        "DEPTH={};WIDTH={};ADDRESS_RADIX={};DATA_RADIX={};CONTENT BEGIN\n",
        data.len(),
        T::WIDTH,
        address_radix.keyword(),
        data_radix.keyword()
    );
    for (address, value) in data.iter().enumerate() {
        let address = match address_radix {
            Radix::Bin => format!("{address:b}"),
            Radix::Oct => format!("{address:o}"),
            Radix::Hex => format!("{address:x}"),
            _ => format!("{address}"),
        };
        let bits = value.bits();
        let value = match data_radix {
            Radix::Bin => format!("{bits:b}"),
            Radix::Oct => format!("{bits:o}"),
            Radix::Hex => format!("{bits:X}"),
            _ => format!("{bits}"),
        };
        text.push_str(&format!("{address}: {value};\n"));
    }
    text.push_str("END;");
    text
}

fn check<T: ToMif>(data: &[T]) {
    for address_radix in READABLE {
        for data_radix in READABLE {
            let mif = Mif::new(data, address_radix, data_radix);
            let text = mif.encode();
            let buffer = decode(&text).unwrap();
            assert_eq!(buffer.width(), T::WIDTH);
            assert_eq!(buffer.depth(), data.len());
            for (address, value) in data.iter().enumerate() {
                assert_eq!(buffer.get(address) as u128, value.bits(), "{text}");
            }
            let plain = decode(&flat(data, address_radix, data_radix)).unwrap();
            assert_eq!(buffer.words(), plain.words());
            let again = decode_bytes(&mif.encode_bytes()).unwrap();
            assert_eq!(buffer.words(), again.words());
        }
    }
}

#[test]
fn what_is_written_is_read_back_with_bytes() {
    check::<u8>(&[0, 1, 1, 1, 255, 254, 254, 7, 0, 0, 0, 0, 0, 0, 0, 0, 0, 9]);
    check::<i8>(&[-2, 2, -3, -1, 2, 0, -128, 127, 127]);
}

#[test]
fn what_is_written_is_read_back_with_wider_cells() {
    check::<u16>(&[0xffff, 0xffff, 0, 1, 0x8000, 0x1234]);
    check::<i16>(&[-1, -1, i16::MIN, i16::MAX, 0]);
    check::<u32>(&[u32::MAX, 0, 0, 0xdead_beef, 5, 5, 5]);
    check::<i32>(&[i32::MIN, -1, -1, 1, i32::MAX]);
}

#[test]
fn what_is_written_is_read_back_with_whole_words() {
    if usize::BITS >= 64 {
        check::<u64>(&[u64::MAX, u64::MAX, 0, 1, 0x0123_4567_89ab_cdef]);
        check::<i64>(&[i64::MIN, -1, 0, 0, i64::MAX]);
    }
    check::<usize>(&[usize::MAX, 0, 3, 3]);
    check::<isize>(&[isize::MIN, -1, -1, isize::MAX]);
}

#[test]
fn signed_decimal_text_is_not_read() {
    let text = Mif::new(&[1u8], Radix::Uns, Radix::Dec).encode();
    assert!(decode(&text).is_err());
    let text = Mif::new(&[1u8], Radix::Dec, Radix::Uns).encode();
    assert!(decode(&text).is_err());
}

#[test]
fn text_of_no_numbers_or_of_cells_too_wide_is_not_read() {
    let none: [u8; 0] = [];
    assert!(decode(&Mif::new(&none, Radix::Hex, Radix::Hex).encode()).is_err());
    assert!(decode(&Mif::new(&[1u128], Radix::Hex, Radix::Hex).encode()).is_err());
}
