use bvgraph::bits::{BitOrder, WordReader};
use bvgraph::bvcodec::{Code, CompFlags};
use bvgraph::perm::merge_perms;
use bvgraph::properties::{apply_flag, parse_code, parse_endianness, parse_usize};
use bvgraph::Error;

#[test]
fn parse_numbers() {
    assert_eq!(parse_usize(&b"0".to_vec()).unwrap(), 0);
    assert_eq!(parse_usize(&b"325557".to_vec()).unwrap(), 325557);
    assert_eq!(parse_usize(&b"18446744073709551615".to_vec()).unwrap(), usize::MAX);
    assert_eq!(parse_usize(&b"".to_vec()), Err(Error::FormatMismatch));
    assert_eq!(parse_usize(&b"12a".to_vec()), Err(Error::FormatMismatch));
    assert_eq!(parse_usize(&b"-5".to_vec()), Err(Error::FormatMismatch));
    assert_eq!(
        parse_usize(&b"99999999999999999999999".to_vec()),
        Err(Error::FormatMismatch)
    );
}

#[test]
fn parse_code_tokens() {
    assert_eq!(parse_code(&b"UNARY".to_vec()).unwrap(), Code::Unary);
    assert_eq!(parse_code(&b"GAMMA".to_vec()).unwrap(), Code::Gamma);
    assert_eq!(parse_code(&b"DELTA".to_vec()).unwrap(), Code::Delta);
    assert_eq!(parse_code(&b"ZETA_3".to_vec()).unwrap(), Code::Zeta { k: 3 });
    assert_eq!(parse_code(&b"ZETA_7".to_vec()).unwrap(), Code::Zeta { k: 7 });
    assert_eq!(parse_code(&b"ZETA_0".to_vec()), Err(Error::FormatMismatch));
    assert_eq!(parse_code(&b"ZETA_8".to_vec()), Err(Error::FormatMismatch));
    assert_eq!(parse_code(&b"NIBBLE".to_vec()), Err(Error::FormatMismatch));
    assert_eq!(parse_code(&b"gamma".to_vec()), Err(Error::FormatMismatch));
}

#[test]
fn parse_endianness_tokens() {
    assert_eq!(parse_endianness(&b"BIG".to_vec()).unwrap(), BitOrder::M2L);
    assert_eq!(parse_endianness(&b"LITTLE".to_vec()).unwrap(), BitOrder::L2M);
    assert_eq!(parse_endianness(&b"MIDDLE".to_vec()), Err(Error::FormatMismatch));
}

#[test]
fn merge_two_permutations() {
    // first reverse, then rotate by one
    let rev = vec![3usize, 2, 1, 0];
    let rot = vec![1usize, 2, 3, 0];
    let merged = merge_perms(&vec![rev, rot]).unwrap();
    assert_eq!(merged, vec![0, 3, 2, 1]);
}

#[test]
fn merge_single_permutation_is_itself() {
    let p = vec![2usize, 0, 1];
    assert_eq!(merge_perms(&vec![p.clone()]).unwrap(), p);
}

#[test]
fn merge_rejects_bad_input() {
    assert_eq!(merge_perms(&vec![]), Err(Error::BadArgument));
    assert_eq!(
        merge_perms(&vec![vec![0, 1], vec![0]]),
        Err(Error::BadArgument)
    );
    assert_eq!(merge_perms(&vec![vec![0, 5]]), Err(Error::BadArgument));
}

#[test]
fn bytes_to_words_both_endiannesses() {
    let bytes: Vec<u8> = vec![0x01, 0x02, 0x03, 0x04, 0x05, 0x06, 0x07, 0x08, 0xAA];
    let mut be = WordReader::from_bytes(&bytes, true);
    assert_eq!(be.read_next_word(), 0x0102030405060708);
    assert_eq!(be.read_next_word(), 0xAA00000000000000);
    assert_eq!(be.read_next_word(), 0); // past the end: zero words
    let mut le = WordReader::from_bytes(&bytes, false);
    assert_eq!(le.read_next_word(), 0x0807060504030201);
    assert_eq!(le.read_next_word(), 0x00000000000000AA);
}

#[test]
fn apply_flag_sets_only_the_named_element() {
    let mut flags = CompFlags::default_flags();
    assert!(apply_flag(&mut flags, &b"residual".to_vec(), Code::Delta));
    assert_eq!(flags.residual, Code::Delta);
    assert_eq!(flags.outdegree, Code::Gamma);
    assert_eq!(flags.first_residual, Code::Zeta { k: 3 });
    assert!(apply_flag(&mut flags, &b"outdegree".to_vec(), Code::Unary));
    assert_eq!(flags.outdegree, Code::Unary);
    let before = flags;
    assert!(!apply_flag(&mut flags, &b"outdegrees".to_vec(), Code::Gamma));
    assert_eq!(flags, before);
}
