use s3_meta::util::comma;
use s3_meta::util::convert_bytes;
use s3_meta::util::to_decimal;

#[test]
fn converting_numbers_to_string() {
    let num1 = 1_u64;
    let num10 = 10_u64;
    let num100 = 100_u64;
    let num1000 = 1000_u64;
    let num10000 = 10000_u64;
    let num100000 = 100000_u64;
    let num1000000 = 1000000_u64;

    let str1 = comma(num1);
    let str10 = comma(num10);
    let str100 = comma(num100);
    let str1000 = comma(num1000);
    let str10000 = comma(num10000);
    let str100000 = comma(num100000);
    let str1000000 = comma(num1000000);

    assert_eq!(str1, "1");
    assert_eq!(str10, "10");
    assert_eq!(str100, "100");
    assert_eq!(str1000, "1,000");
    assert_eq!(str10000, "10,000");
    assert_eq!(str100000, "100,000");
    assert_eq!(str1000000, "1,000,000");
}

#[test]
fn converting_bytes_to_string() {
    let bval = 512_u64;
    let kval = bval * 512_u64;
    let mval = kval * 512_u64;
    let gval = mval * 512_u64;
    let tval = gval * 512_u64;
    let pval = tval * 512_u64;

    let bstr = convert_bytes(bval);
    let kstr = convert_bytes(kval);
    let mstr = convert_bytes(mval);
    let gstr = convert_bytes(gval);
    let tstr = convert_bytes(tval);
    let pstr = convert_bytes(pval);

    assert_eq!(bstr, "512B");
    assert_eq!(kstr, "262.14kB");
    assert_eq!(mstr, "134.22MB");
    assert_eq!(gstr, "68.72GB");
    assert_eq!(tstr, "35.18TB");
    assert_eq!(pstr, "18.01PB");
}

#[test]
fn converting_zero_and_round_values() {
    assert_eq!(convert_bytes(0), "0B");
    assert_eq!(convert_bytes(999), "999B");
    assert_eq!(convert_bytes(1000), "1kB");
    assert_eq!(convert_bytes(1500), "1.5kB");
    assert_eq!(convert_bytes(1510), "1.51kB");
    assert_eq!(to_decimal(0), "0");
    assert_eq!(to_decimal(18446744073709551615), "18446744073709551615");
    assert_eq!(comma(0), "0");
    assert_eq!(comma(18446744073709551615), "18,446,744,073,709,551,615");
}
