use mif::{Mif, Radix};

const RADICES: [Radix; 5] = [Radix::Uns, Radix::Bin, Radix::Oct, Radix::Dec, Radix::Hex];

fn lines(text: &str) -> Vec<&str> {
    let body = text.split("CONTENT BEGIN\n").nth(1).unwrap();
    body.lines().filter(|line| *line != "END;").collect()
}

#[test]
fn equal_neighbours_become_two_ranges() {
    let text = Mif::new(&[5u8, 5, 5, 2, 2], Radix::Hex, Radix::Uns).encode();
    assert_eq!(
        text,
        "DEPTH=5;\nWIDTH=8;\nADDRESS_RADIX=HEX;\nDATA_RADIX=UNS;\nCONTENT BEGIN\n\
         [00..02]:5;\n[03..04]:2;\nEND;"
    );
}

#[test]
fn every_radix_pair_gives_two_ranges() {
    for address_radix in RADICES {
        for data_radix in RADICES {
            let text = Mif::new(&[5u16, 5, 5, 2, 2], address_radix, data_radix).encode();
            let lines = lines(&text);
            assert_eq!(lines.len(), 2, "{address_radix:?} {data_radix:?}");
            for line in lines {
                assert!(line.starts_with('[') && line.contains("..") && line.contains("]:"));
                assert!(line.ends_with(';'));
            }
        }
    }
}

#[test]
fn empty_input_has_no_lines() {
    let data: [u32; 0] = [];
    for address_radix in RADICES {
        for data_radix in RADICES {
            let text = Mif::new(&data, address_radix, data_radix).encode();
            assert!(text.starts_with("DEPTH=0;\nWIDTH=32;\n"));
            assert!(text.ends_with("CONTENT BEGIN\nEND;"));
        }
    }
}

#[test]
fn signed_bytes_as_unsigned_and_as_signed() {
    let data: [i8; 6] = [-2, 2, -3, -1, 2, 0];
    let unsigned = Mif::new(&data, Radix::Hex, Radix::Uns).encode();
    assert_eq!(lines(&unsigned), ["00:254;", "01:2;", "02:253;", "03:255;", "04:2;", "05:0;"]);
    let signed = Mif::new(&data, Radix::Hex, Radix::Dec).encode();
    assert_eq!(lines(&signed), ["00:-2;", "01:2;", "02:-3;", "03:-1;", "04:2;", "05:0;"]);
}

#[test]
fn numerals_are_padded_by_the_width_of_a_cell() {
    let data: [u8; 3] = [0xab, 7, 7];
    let text = Mif::new(&data, Radix::Bin, Radix::Hex).encode();
    assert_eq!(lines(&text), ["00000000:AB;", "[00000001..00000010]:07;"]);
    let text = Mif::new(&data, Radix::Oct, Radix::Bin).encode();
    assert_eq!(lines(&text), ["000:10101011;", "[001..002]:00000111;"]);
    let text = Mif::new(&data, Radix::Dec, Radix::Oct).encode();
    assert_eq!(lines(&text), ["0:253;", "[1..2]:007;"]);
}
