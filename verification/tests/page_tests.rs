use std::str::FromStr;

use cindex::entry::{page_from_kind_name, range_from_name};
use cindex::{IndexPage, RangeKind};

#[test]
fn test_arabic() {
    assert_eq!(IndexPage::from_str("000").unwrap(), IndexPage::Arabic(0));
    assert_eq!(IndexPage::from_str("002").unwrap(), IndexPage::Arabic(2));
    assert_eq!(IndexPage::from_str("2").unwrap(), IndexPage::Arabic(2));
    assert_eq!(IndexPage::from_str("102").unwrap(), IndexPage::Arabic(102));
    assert!(IndexPage::from_str("-1").is_err());
}

#[test]
fn test_lowercase_roman() {
    assert_eq!(IndexPage::from_str("x").unwrap(), IndexPage::roman(10));
    assert_eq!(IndexPage::from_str("cclv").unwrap(), IndexPage::roman(255));
    assert_eq!(IndexPage::from_str("mmmiv").unwrap(), IndexPage::roman(3004));
    assert!(IndexPage::from_str("liiii").is_err());
}

#[test]
fn test_uppercase_roman() {
    assert_eq!(IndexPage::from_str("X").unwrap(), IndexPage::Roman(10));
    assert_eq!(IndexPage::from_str("CCLV").unwrap(), IndexPage::Roman(255));
    assert_eq!(IndexPage::from_str("MMMIV").unwrap(), IndexPage::Roman(3004));
    assert!(IndexPage::from_str("LIIII").is_err());
}

#[test]
fn test_lowercase_alpha() {
    assert_eq!(IndexPage::from_str("a").unwrap(), IndexPage::alpha(1));
    assert_eq!(IndexPage::from_str("ia").unwrap(), IndexPage::alpha(235));
    assert_eq!(IndexPage::from_str("aaaaaa").unwrap(), IndexPage::alpha(12356631));
    assert!(IndexPage::from_str("aaaaa.a").is_err());
}

#[test]
fn test_uppercase_alpha() {
    assert_eq!(IndexPage::from_str("A").unwrap(), IndexPage::Alpha(1));
    assert_eq!(IndexPage::from_str("IA").unwrap(), IndexPage::Alpha(235));
    assert_eq!(IndexPage::from_str("AAAAAA").unwrap(), IndexPage::Alpha(12356631));
    assert!(IndexPage::from_str("AAAAA.A").is_err());
}

#[test]
fn test_zhdigits() {
    assert_eq!(IndexPage::from_str("〇〇一").unwrap(), IndexPage::ZhDigits(1));
    assert_eq!(IndexPage::from_str("一零八零零九").unwrap(), IndexPage::ZhDigits(108009));
    assert_eq!(IndexPage::from_str("一〇八〇〇九").unwrap(), IndexPage::ZhDigits(108009));
    assert!(IndexPage::from_str("壹").is_err());
}

#[test]
fn names_in_entry_tables() {
    use_names();
}

fn use_names() {
    use_range_names();
    let pages = [
        IndexPage::Arabic(3),
        IndexPage::roman(4),
        IndexPage::Roman(5),
        IndexPage::alpha(6),
        IndexPage::Alpha(7),
        IndexPage::ZhDigits(8),
        IndexPage::ZhNumber(9),
    ];
    for p in pages {
        let (name, value) = p.as_kind();
        assert_eq!(page_from_kind_name(name, value), Some(p));
        assert_eq!(p.as_u64(), value);
    }
    assert_eq!(page_from_kind_name("Zh", 1), None);
    assert_eq!(page_from_kind_name("arabic", 1), None);
}

fn use_range_names() {
    assert_eq!(range_from_name("Open"), Some(RangeKind::Open));
    assert_eq!(range_from_name("-1"), Some(RangeKind::Open));
    assert_eq!(range_from_name("NONE"), Some(RangeKind::Plain));
    assert_eq!(range_from_name("0"), Some(RangeKind::Plain));
    assert_eq!(range_from_name("cLoSe"), Some(RangeKind::Close));
    assert_eq!(range_from_name("1"), Some(RangeKind::Close));
    assert_eq!(range_from_name("x"), None);
}

#[test]
fn roman_case_and_leading_thousands() {
    for (lower, upper) in [("xiv", "XIV"), ("mcmxcix", "MCMXCIX"), ("cdxliv", "CDXLIV")] {
        assert_eq!(IndexPage::from_str(lower).unwrap().value, IndexPage::from_str(upper).unwrap().value);
    }
    let base = IndexPage::from_str("CDXLIV").unwrap().value;
    assert_eq!(base, 444);
    assert_eq!(IndexPage::from_str("MCDXLIV").unwrap().value, base + 1000);
    assert_eq!(IndexPage::from_str("MMCDXLIV").unwrap().value, base + 2000);
}
