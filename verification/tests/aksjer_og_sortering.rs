use lib::aksjer::{beste_handel, kursendringer_fra_bytes, summer_passer_sjekk};
use lib::sortering::{heltall_fra_bytes, shellsort, IsSortedExt};

#[test]
fn beste_handel_med_kjent_svar() {
    let endringer = [3, -9, -6, 8, 4, -5, 1, -6, 4, -7];
    assert_eq!(beste_handel(&endringer), (3, 5, 12));
}

#[test]
fn beste_handel_uten_gevinst() {
    assert_eq!(beste_handel(&[-1, -2, -3]), (0, 0, 0));
    assert_eq!(beste_handel(&[]), (0, 0, 0));
    assert_eq!(beste_handel(&[5]), (0, 0, 0));
}

#[test]
fn beste_handel_velger_forste_beste() {
    // Kjøp dag 1 og salg dag 2 gir 4; det samme gjør dag 3 til dag 4.
    assert_eq!(beste_handel(&[0, 4, -10, 4]), (1, 2, 4));
}

#[test]
fn kursendringer_i_intervallet() {
    assert_eq!(kursendringer_fra_bytes(&[0, 20, 21, 255]), vec![-10, 10, -10, -7]);
    assert_eq!(kursendringer_fra_bytes(&[]), Vec::<i32>::new());
}

#[test]
fn shellsort_sorterer_og_beholder_elementene() {
    let mut liste = vec![5u32, 3, 9, 1, 1, 0, 7];
    shellsort(&mut liste, vec![3]);
    assert_eq!(liste, vec![0, 1, 1, 3, 5, 7, 9]);
    assert!(liste.is_sorted());
}

#[test]
fn shellsort_med_avstander_som_slutter_paa_en() {
    let mut liste = vec![10u32, 9, 8, 7, 6, 5, 4, 3, 2, 1];
    shellsort(&mut liste, vec![7, 3, 1]);
    assert_eq!(liste, vec![1, 2, 3, 4, 5, 6, 7, 8, 9, 10]);
}

#[test]
fn shellsort_tom_liste() {
    let mut liste: Vec<u32> = Vec::new();
    shellsort(&mut liste, vec![4]);
    assert!(liste.is_empty());
}

#[test]
fn er_sortert() {
    assert!(vec![1u32, 2, 2, 5].is_sorted());
    assert!(!vec![2u32, 1].is_sorted());
    assert!(Vec::<u32>::new().is_sorted());
}

#[test]
fn heltall_fra_bytes_stor_endian_modulo() {
    let bytes = vec![0u8, 0, 1, 0, 255, 255, 255, 255];
    assert_eq!(heltall_fra_bytes(&bytes, 2, 1000), vec![256, 295]);
}

#[test]
fn shellsort_med_kjent_svar() {
    let mut liste = vec![48u32, 79, 93, 30, 12, 94, 11, 32, 44, 83, 67, 63, 60, 25, 66];
    assert!(!liste.is_sorted());
    // Avstandene for 15 tall og delingstall 2.2: 7, 3 og 1.
    shellsort(&mut liste, vec![7, 3, 1]);
    assert_eq!(liste, vec![11, 12, 25, 30, 32, 44, 48, 60, 63, 66, 67, 79, 83, 93, 94]);
    assert_eq!(liste.iter().sum::<u32>(), 807);
    assert!(liste.is_sorted());
}

#[test]
fn delsummer_som_gaar_over_oppdages() {
    assert!(summer_passer_sjekk(&[]));
    assert!(summer_passer_sjekk(&[-10, 3, 7, 10]));
    // Endringen på den første dagen inngår aldri i en gevinst.
    assert!(summer_passer_sjekk(&[i32::MIN, i32::MAX]));
    assert!(summer_passer_sjekk(&[5, i32::MAX, -3, 3]));
    assert!(!summer_passer_sjekk(&[0, i32::MAX, 1]));
    assert!(!summer_passer_sjekk(&[0, i32::MIN, -1]));
}
