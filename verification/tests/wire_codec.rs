use relay_core::vec3::Vec3;
use relay_core::wire::fmt_coord;
use relay_core::wire::fmt_usize;
use relay_core::wire::parse_coord;
use relay_core::wire::parse_vec3;
use relay_core::wire::tokenize;

#[test]
fn tokenize_splits_on_whitespace() {
    let toks = tokenize(&b"  3  1,0,0 \t\r\n".to_vec());
    assert_eq!(toks.len(), 2);
    assert_eq!(toks[0], b"3".to_vec());
    assert_eq!(toks[1], b"1,0,0".to_vec());
}

#[test]
fn tokenize_empty_and_blank() {
    assert_eq!(tokenize(&b"".to_vec()).len(), 0);
    assert_eq!(tokenize(&b"   ".to_vec()).len(), 0);
}

#[test]
fn parse_coord_integers_and_fractions() {
    assert_eq!(parse_coord(&b"2".to_vec()), Some(2000));
    assert_eq!(parse_coord(&b"1.5".to_vec()), Some(1500));
    assert_eq!(parse_coord(&b"-0.25".to_vec()), Some(-250));
    assert_eq!(parse_coord(&b"0".to_vec()), Some(0));
    assert_eq!(parse_coord(&b"0.001".to_vec()), Some(1));
    assert_eq!(parse_coord(&b"007".to_vec()), Some(7000));
}

#[test]
fn parse_coord_rejects_malformed() {
    assert_eq!(parse_coord(&b"".to_vec()), None);
    assert_eq!(parse_coord(&b"-".to_vec()), None);
    assert_eq!(parse_coord(&b"1.".to_vec()), None);
    assert_eq!(parse_coord(&b".5".to_vec()), None);
    assert_eq!(parse_coord(&b"1.2345".to_vec()), None);
    assert_eq!(parse_coord(&b"abc".to_vec()), None);
    assert_eq!(parse_coord(&b"1,2".to_vec()), None);
    assert_eq!(parse_coord(&b"1e3".to_vec()), None);
}

#[test]
fn parse_coord_range_limits() {
    // the largest unit value the store accepts, and the first it rejects
    assert_eq!(
        parse_coord(&b"1000000000000".to_vec()),
        Some(1_000_000_000_000_000)
    );
    assert_eq!(parse_coord(&b"1000000000000.001".to_vec()), None);
    assert_eq!(parse_coord(&b"10000000000000".to_vec()), None);
    assert_eq!(
        parse_coord(&b"-1000000000000".to_vec()),
        Some(-1_000_000_000_000_000)
    );
    assert_eq!(parse_coord(&b"0000000000000007".to_vec()), Some(7000));
}

#[test]
fn parse_vec3_triples() {
    assert_eq!(
        parse_vec3(&b"1,2,3".to_vec()),
        Some(Vec3 { x: 1000, y: 2000, z: 3000 })
    );
    assert_eq!(
        parse_vec3(&b"1.5,0,-2.25".to_vec()),
        Some(Vec3 { x: 1500, y: 0, z: -2250 })
    );
}

#[test]
fn parse_vec3_rejects_wrong_shape() {
    assert_eq!(parse_vec3(&b"1,2".to_vec()), None);
    assert_eq!(parse_vec3(&b"1,2,3,4".to_vec()), None);
    assert_eq!(parse_vec3(&b"1,,3".to_vec()), None);
    assert_eq!(parse_vec3(&b"".to_vec()), None);
    assert_eq!(parse_vec3(&b"a,b,c".to_vec()), None);
}

#[test]
fn fmt_coord_round_trips_the_wire_forms() {
    assert_eq!(fmt_coord(0), b"0".to_vec());
    assert_eq!(fmt_coord(2000), b"2".to_vec());
    assert_eq!(fmt_coord(1500), b"1.5".to_vec());
    assert_eq!(fmt_coord(-1500), b"-1.5".to_vec());
    assert_eq!(fmt_coord(1250), b"1.25".to_vec());
    assert_eq!(fmt_coord(50), b"0.05".to_vec());
    assert_eq!(fmt_coord(1), b"0.001".to_vec());
    assert_eq!(parse_coord(&fmt_coord(-2250)), Some(-2250));
}

#[test]
fn fmt_usize_decimal() {
    assert_eq!(fmt_usize(0), b"0".to_vec());
    assert_eq!(fmt_usize(7), b"7".to_vec());
    assert_eq!(fmt_usize(1203), b"1203".to_vec());
}
