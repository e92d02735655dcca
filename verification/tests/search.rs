use srgn::betterletters::util::iteration::{_power_set, binary_search_uneven, power_set_without_empty};
use srgn::common::itertools;
use srgn::iteration::power_set;

#[test]
fn test_binsearch() {
    let cases: Vec<(&str, &str, char, bool)> = vec![
        ("abc", "abc,def,ghi,jkl,mno,pqr,stu,vwx,yz", ',', true),
        ("def", "abc,def,ghi,jkl,mno,pqr,stu,vwx,yz", ',', true),
        ("ghi", "abc,def,ghi,jkl,mno,pqr,stu,vwx,yz", ',', true),
        ("jkl", "abc,def,ghi,jkl,mno,pqr,stu,vwx,yz", ',', true),
        ("mno", "abc,def,ghi,jkl,mno,pqr,stu,vwx,yz", ',', true),
        ("pqr", "abc,def,ghi,jkl,mno,pqr,stu,vwx,yz", ',', true),
        ("stu", "abc,def,ghi,jkl,mno,pqr,stu,vwx,yz", ',', true),
        ("vwx", "abc,def,ghi,jkl,mno,pqr,stu,vwx,yz", ',', true),
        ("yz", "abc,def,ghi,jkl,mno,pqr,stu,vwx,yz", ',', true),
        ("mn", "abc,mno,yz", ',', false),
        ("a", "abc,def,yz", ',', false),
        ("z", "abc,def,yz", ',', false),
        ("abcd", "abc,def,yz", ',', false),
        ("xyz", "abc,def,yz", ',', false),
        ("abc", "a,b,c", ',', false),
        ("a", "a,b,c", ',', true),
        ("", "a,b,c", ',', true),
        ("c", "a,b,c", ',', true),
        ("d", "a,b,c", ',', false),
        ("a", "a,def,yz", ',', true),
        ("a", "abc,def,yz", ',', false),
        ("z", "abc,def,z", ',', true),
        ("z", "abc,def,yz", ',', false),
        ("aaa", "aaa,def,yz", ',', true),
        ("aaa", "abc,def,yz", ',', false),
        ("zzz", "abc,def,zzz", ',', true),
        ("zzz", "abc,def,yz", ',', false),
        ("a", "", ',', false),
        ("", "abc", ',', true),
        ("", "", ',', true),
        ("nmo", "abc,mno,yz", ',', false),
        ("cba", "abc,def,yz", ',', false),
        ("abc", "abc-def-yz", '-', true),
        ("abc", "abc\0def\0yz", '\0', true),
        ("abc", "Hund\nKatze\nMaus", '\n', false),
        ("Hund", "Hund\nKatze\nMaus", '\n', true),
        ("Katze", "Hund\nKatze\nMaus", '\n', true),
        ("Maus", "Hund\nKatze\nMaus", '\n', true),
        ("Hündin", "Hund\nKatze\nMaus", '\n', false),
        ("Hündin", "Hündin\nKatze\nMaus", '\n', true),
        ("Mäuschen", "Hündin\nKatze\nMäuschen", '\n', true),
        ("Abdämpfung", "Abdämpfung\nAbenteuer\nAbschluss", '\n', true),
        ("Abdämpfung", "Abdrehen\nAbdämpfung\nAbschluss", '\n', true),
    ];
    for (needle, haystack, sep, expected) in cases {
        assert_eq!(binary_search_uneven(needle, haystack, sep), expected, "{needle:?} in {haystack:?}");
    }
}

#[test]
fn power_sets() {
    let empty: Vec<i32> = vec![];
    assert_eq!(power_set(empty.clone(), true), vec![Vec::<i32>::new()]);
    assert_eq!(power_set(empty.clone(), false), Vec::<Vec<i32>>::new());
    assert_eq!(power_set(vec![1], true), vec![vec![], vec![1]]);
    assert_eq!(power_set(vec![1, 2], false), vec![vec![1], vec![2], vec![1, 2]]);
    assert_eq!(
        _power_set(vec![1, 2, 3]),
        vec![vec![], vec![1], vec![2], vec![3], vec![1, 2], vec![1, 3], vec![2, 3], vec![1, 2, 3]]
    );
    assert_eq!(
        power_set_without_empty(vec![1, 2, 3]),
        vec![vec![1], vec![2], vec![3], vec![1, 2], vec![1, 3], vec![2, 3], vec![1, 2, 3]]
    );
    assert_eq!(itertools::power_set_without_empty(vec![1, 2]), vec![vec![1], vec![2], vec![1, 2]]);
    assert_eq!(itertools::_power_set(vec![7]), vec![vec![], vec![7]]);
}

#[test]
fn binsearch_with_a_separator_that_never_occurs() {
    // `é` reads as byte 0xE9, which this ASCII haystack does not hold: one word.
    assert!(!binary_search_uneven("abc", "abc\ndef", 'é'));
    assert!(binary_search_uneven("abc\ndef", "abc\ndef", 'é'));
    assert!(binary_search_uneven("def", "abc\ndef", '\n'));
}
