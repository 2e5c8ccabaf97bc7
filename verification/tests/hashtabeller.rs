use lib::hashtabell::{bredde, heltall_fra_bytes, HashTabell, HashTabell2};
use lib::navnetabell;

#[test]
fn strenger_som_kolliderer() {
    let mut t = HashTabell::new(100);
    assert!(t.sett_inn("ole".to_string()).is_empty());
    assert_eq!(t.sett_inn("leo".to_string()), vec!["ole".to_string()]);
    assert_eq!(t.kollisjoner(), 1);
    assert_eq!(t.antall_verdier(), 2);
    assert_eq!(t.kapasitet(), 100);
}

#[test]
fn inneholder_etter_innsetting() {
    let mut t = HashTabell::new(127);
    t.sett_inn("Ola Nordmann".to_string());
    t.sett_inn("Kari Nordmann".to_string());
    assert!(t.inneholder("Ola Nordmann".to_string()));
    assert!(t.inneholder("Kari Nordmann".to_string()));
    assert!(!t.inneholder("Per Nordmann".to_string()));
}

#[test]
fn nyeste_foerst_i_plassen() {
    let mut t = HashTabell::new(100);
    t.sett_inn("ole".to_string());
    t.sett_inn("leo".to_string());
    assert_eq!(t.sett_inn("ole".to_string()), vec!["leo".to_string(), "ole".to_string()]);
    assert_eq!(t.kollisjoner(), 2);
}

#[test]
fn dobbel_hashing_hopper_videre() {
    let mut t = HashTabell2::new(7);
    t.sett_inn(3);
    assert_eq!(t.plass(3), Some(3));
    assert_eq!(t.kollisjoner(), 0);
    // 10 hasher til 3, og hopper 10 % 6 + 1 = 5 plasser til 1.
    t.sett_inn(10);
    assert_eq!(t.plass(1), Some(10));
    assert_eq!(t.kollisjoner(), 1);
    assert_eq!(t.antall_verdier(), 2);
    assert_eq!(t.kapasitet(), 7);
}

#[test]
fn full_primtallstabell() {
    let mut t = HashTabell2::new(7);
    for k in 0..7usize {
        t.sett_inn(k * 7);
    }
    for i in 0..7usize {
        assert!(t.plass(i).is_some());
    }
    assert_eq!(t.antall_verdier(), 7);
}

#[test]
fn tall_fra_bytes_av_maskinbredde() {
    let b = bredde();
    let mut bytes = vec![0u8; 2 * b];
    bytes[0] = 1;
    bytes[1] = 2;
    bytes[b] = 0xff;
    bytes[b + 2] = 1;
    let tall = heltall_fra_bytes(&bytes, 2, 100);
    assert_eq!(tall[0], 0x0201);
    // Bare den høye delen tas modulo: 0x10000 % 100 == 36, og de to laveste bytene står.
    assert_eq!(tall[1], 0xff | 36);
}

#[test]
fn navnehash_vekter_plassen() {
    let mut t = navnetabell::HashTabell::new(7);
    // Alle summene er delelige med 7, så alt havner i samme plass.
    assert!(t.sett_inn("ab".to_string()).is_empty());
    assert_eq!(t.sett_inn("cd".to_string()), vec!["ab".to_string()]);
    assert_eq!(t.kollisjoner(), 1);
    assert!(t.inneholder("ab".to_string()));
    assert!(!t.inneholder("ba".to_string()));
}

#[test]
fn navnetabell_skiller_plassene() {
    let mut t = navnetabell::HashTabell::new(1000);
    // "ab" gir 7 * 97 + 14 * 98 = 2051, og "ba" gir 7 * 98 + 14 * 97 = 2044.
    assert!(t.sett_inn("ab".to_string()).is_empty());
    assert!(t.sett_inn("ba".to_string()).is_empty());
    assert_eq!(t.kollisjoner(), 0);
    assert_eq!(t.antall_verdier(), 2);
    assert_eq!(t.kapasitet(), 1000);
}

#[test]
fn navnehash_kan_regnes_ut() {
    assert!(navnetabell::hash_passer(&"Jakob Karevold Grønhaug".to_string()));
    assert!(navnetabell::hash_passer(&String::new()));
}

#[test]
fn inneholder_alle_etter_mange_innsettinger() {
    let mut t = HashTabell::new(7);
    for i in 0..50 {
        t.sett_inn(format!("navn {i}"));
    }
    for i in 0..50 {
        assert!(t.inneholder(format!("navn {i}")));
    }
    for i in 50..60 {
        assert!(!t.inneholder(format!("navn {i}")));
    }
    assert_eq!(t.antall_verdier(), 50);
}
