use lib::langetall::{Siffer, Tall};

fn tall(s: &str) -> Tall {
    let tegn: Vec<char> = s.chars().collect();
    match Tall::fra_streng(&tegn) {
        Ok(t) => t,
        Err(c) => panic!("ugyldig tegn {c}"),
    }
}

#[test]
fn siffer_bare_null_til_ni() {
    assert!(Siffer::new(0).is_some());
    assert!(Siffer::new(9).is_some());
    assert!(Siffer::new(10).is_none());
}

#[test]
fn fra_streng_gir_sifrene() {
    let t = tall("907");
    assert_eq!(t.sifre(), &vec![9, 0, 7]);
    assert_eq!(t.antall_siffer(), 3);
    assert!(!t.er_tomt());
}

#[test]
fn fra_streng_gir_forste_ugyldige_tegn() {
    let tegn: Vec<char> = "12a4b".chars().collect();
    assert!(matches!(Tall::fra_streng(&tegn), Err('a')));
}

#[test]
fn tomt_tall() {
    let t = Tall::new();
    assert!(t.er_tomt());
    assert_eq!(t.antall_siffer(), 0);
}

#[test]
fn sett_inn_foran_og_bak() {
    let mut t = Tall::new();
    t.sett_inn_bak(2);
    t.sett_inn_foran(1);
    t.sett_inn_bak(3);
    assert_eq!(t.sifre(), &vec![1, 2, 3]);
}

#[test]
fn addisjon_med_mente() {
    let sum = tall("128").add(tall("95"));
    assert_eq!(sum.sifre(), &vec![2, 2, 3]);
}

#[test]
fn addisjon_med_mente_ut_av_hoyeste_siffer() {
    let sum = tall("999").add(tall("1"));
    assert_eq!(sum.sifre(), &vec![1, 0, 0, 0]);
    assert_eq!(tall("5").add(tall("5")).sifre(), &vec![1, 0]);
    assert_eq!(tall("5").add(tall("7")).sifre(), &vec![1, 2]);
}

#[test]
fn subtraksjon_med_laan() {
    let diff = tall("100").sub(tall("1"));
    assert_eq!(diff.sifre(), &vec![0, 9, 9]);
}

#[test]
fn subtraksjon_under_null_gaar_rundt() {
    let diff = tall("5").sub(tall("7"));
    assert_eq!(diff.sifre(), &vec![8]);
}

#[test]
fn tall_som_tekst() {
    assert_eq!(tall("0123").til_tekst(), "0123");
    assert_eq!(Tall::new().til_tekst(), "");
    assert_eq!(tall("999").add(tall("1")).til_tekst(), "1000");
}
