use cindex::{get_page_cmp, IteratorPrecedence, PagePrecedenceProvider, StringPrecedence};

fn get_prec_table(s: &str) -> [u8; 7] {
    StringPrecedence(String::from(s)).to_precedence().table()
}

#[test]
fn prec() {
    assert_eq!(get_prec_table("rnaRA"), [0, 1, 2, 3, 4, 5, 6]);
    assert_eq!(get_prec_table("rnaRA串数"), [0, 1, 2, 3, 4, 5, 6]);
    assert_eq!(get_prec_table("RanAr"), [4, 2, 1, 0, 3, 5, 6]);
    assert_eq!(get_prec_table("数Ran串Ar"), [6, 3, 2, 1, 5, 4, 0]);
}

#[test]
fn merge() {
    let _page_cmp = get_page_cmp("rnaRA".to_precedence());
}

#[test]
fn kind_names_and_letters_in_the_same_order_agree() {
    let names = ["roman", "Arabic", "alpha", "Roman", "Alpha", "ZhDigits", "ZhNumber"];
    let list = IteratorPrecedence(names.iter().map(|s| s.to_string()).collect());
    assert_eq!(list.to_precedence().table(), "rnaRA".to_precedence().table());
    let list = IteratorPrecedence(vec!["ZhNumber".to_string(), "Roman".to_string(), "alpha".to_string()]);
    assert_eq!(list.to_precedence().table(), get_prec_table("数Ra"));
    assert_eq!(get_prec_table("数Ra"), [3, 4, 2, 1, 5, 6, 0]);
}
