use lib::lenket::Node;
use lib::tekst::{del_i_ord, er_mellomrom, les_tall_linje, tolk_usize};

fn tegn(s: &str) -> Vec<char> {
    s.chars().collect()
}

#[test]
fn ord_skilles_av_mellomrom() {
    assert_eq!(del_i_ord(" a  bc\td \n"), vec![tegn("a"), tegn("bc"), tegn("d")]);
    assert!(del_i_ord("   ").is_empty());
    assert!(er_mellomrom('\u{3000}'));
    assert!(!er_mellomrom('x'));
}

#[test]
fn tolk_naturlige_tall() {
    assert_eq!(tolk_usize(&tegn("+12")), Some(12));
    assert_eq!(tolk_usize(&tegn("007")), Some(7));
    assert_eq!(tolk_usize(&tegn("-1")), None);
    assert_eq!(tolk_usize(&tegn("")), None);
    assert_eq!(tolk_usize(&tegn("+")), None);
    assert_eq!(tolk_usize(&tegn("1a")), None);
    assert_eq!(tolk_usize(&tegn(&usize::MAX.to_string())), Some(usize::MAX));
    assert_eq!(tolk_usize(&tegn(&(usize::MAX as u128 + 1).to_string())), None);
}

#[test]
fn tall_paa_en_linje() {
    assert_eq!(les_tall_linje("4 5 6", 2), Ok(vec![4, 5]));
    assert_eq!(les_tall_linje("1 2 x", 3), Err((2, false)));
    assert_eq!(les_tall_linje("1", 2), Err((1, true)));
}

#[test]
fn lenket_node() {
    let hale = Node::new_tail(3, None);
    assert_eq!(hale.verdi(), 3);
    let hode = Node::new_head(1, Some(Box::new(hale)));
    assert_eq!(hode.verdi(), 1);
    let midt = Node::new(2, None, None);
    assert_eq!(midt.verdi(), 2);
}
