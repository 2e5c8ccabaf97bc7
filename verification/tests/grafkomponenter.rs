use lib::grafkomponenter::{snudd, DfsStatus, Graf, GrafFeil};

fn graf_av(naboer: &[&[usize]]) -> Graf {
    let mut g = Graf::opprett(naboer.len());
    for (fra, liste) in naboer.iter().enumerate() {
        for til in liste.iter() {
            assert!(g.legg_til_kant(fra, *til).is_ok());
        }
    }
    g
}

fn linjer(l: &[&str]) -> Vec<Option<String>> {
    l.iter().map(|s| Some(s.to_string())).collect()
}

#[test]
fn komponenter_oe6g1() {
    let g = graf_av(&[&[2, 3], &[3, 4, 6], &[0, 5, 3], &[0, 5, 2, 1, 6], &[1, 6], &[2, 3], &[3, 1, 4]]);
    assert_eq!(g.komponenter(), vec![vec![2, 3, 5, 1, 4, 6, 0]]);
}

#[test]
fn komponenter_oe6g5() {
    let g = graf_av(&[&[3, 2], &[], &[1, 5, 4], &[5, 2], &[1], &[1], &[4, 3]]);
    assert_eq!(g.komponenter(), vec![vec![6], vec![0], vec![3], vec![2], vec![4], vec![5], vec![1]]);
}

#[test]
fn komponenter_oe6g6() {
    let g = graf_av(&[&[], &[2, 1], &[7, 3], &[4, 5], &[3, 5], &[], &[3, 4, 5], &[1, 3]]);
    assert_eq!(g.komponenter(), vec![vec![6], vec![7, 2, 1], vec![4, 3], vec![5], vec![0]]);
}

#[test]
fn komponenter_tom_graf() {
    let g = Graf::opprett(0);
    assert!(g.komponenter().is_empty());
}

#[test]
fn dfs_gir_hver_node_en_gang() {
    let g = graf_av(&[&[1], &[2], &[], &[0]]);
    let mut rekkefolge = g.dfs();
    assert_eq!(rekkefolge.len(), 4);
    rekkefolge.sort();
    assert_eq!(rekkefolge, vec![0, 1, 2, 3]);
}

#[test]
fn invertert_snur_kantene() {
    let g = graf_av(&[&[1, 2], &[2], &[]]);
    let inv = match g.invertert() {
        Ok(inv) => inv,
        Err(e) => panic!("{e:?}"),
    };
    assert!(inv.naboer(0).is_empty());
    assert_eq!(inv.naboer(1), &vec![0]);
    assert_eq!(inv.naboer(2), &vec![0, 1]);
}

#[test]
fn kant_til_ukjent_node_avvises() {
    let mut g = Graf::opprett(2);
    assert!(g.legg_til_kant(0, 2).is_err());
    assert!(g.legg_til_kant(2, 0).is_err());
    assert!(g.legg_til_kant(1, 0).is_ok());
    assert_eq!(g.naboer(1), &vec![0]);
    assert_eq!(g.antall_noder(), 2);
}

#[test]
fn dfs_status_husker_besok() {
    let mut s = DfsStatus::opprett(3);
    assert!(!s.har_besokt(1));
    s.besok(1);
    assert!(s.har_besokt(1));
    assert!(!s.har_besokt(0));
}

#[test]
fn snudd_liste() {
    assert_eq!(snudd(&vec![1, 2, 3]), vec![3, 2, 1]);
    assert_eq!(snudd(&vec![]), Vec::<usize>::new());
}

#[test]
fn graf_fra_linjer() {
    let g = match Graf::fra_linjer("3 2", &linjer(&["0 1", "1 2"])) {
        Ok(g) => g,
        Err(e) => panic!("{e:?}"),
    };
    assert_eq!(g.antall_noder(), 3);
    assert_eq!(g.naboer(0), &vec![1]);
    assert_eq!(g.naboer(1), &vec![2]);
    assert!(g.naboer(2).is_empty());
}

#[test]
fn graf_fra_linjer_hopper_over_uleselige_linjer() {
    let l = vec![Some("0 1".to_string()), None, Some("  2   0 ".to_string())];
    let g = match Graf::fra_linjer("3 2", &l) {
        Ok(g) => g,
        Err(e) => panic!("{e:?}"),
    };
    assert_eq!(g.naboer(2), &vec![0]);
}

#[test]
fn graf_fra_linjer_feil() {
    assert_eq!(Graf::fra_linjer("3", &linjer(&[])).err(), Some(GrafFeil::ManglerTallForst));
    assert_eq!(Graf::fra_linjer("x 2", &linjer(&[])).err(), Some(GrafFeil::AntallNoder));
    assert_eq!(Graf::fra_linjer("3 y", &linjer(&[])).err(), Some(GrafFeil::AntallKanter));
    assert_eq!(Graf::fra_linjer("3 1", &linjer(&["0"])).err(), Some(GrafFeil::ManglerTall { linjenummer: 0 }));
    assert_eq!(Graf::fra_linjer("3 1", &linjer(&["0 z"])).err(), Some(GrafFeil::Nodetall { linjenummer: 0 }));
    assert_eq!(
        Graf::fra_linjer("3 2", &linjer(&["0 1", "0 5"])).err(),
        Some(GrafFeil::UkjentNode { fra: 0, til: 5, antall_noder: 3 })
    );
    assert_eq!(
        Graf::fra_linjer("3 2", &linjer(&["0 1"])).err(),
        Some(GrafFeil::AntallKanterStemmerIkke { forventet: 2, lest: 1 })
    );
}

#[test]
fn dfs_gir_nodene_baklengs_etter_naar_de_ble_ferdige() {
    let g = graf_av(&[&[1], &[2], &[], &[0]]);
    assert_eq!(g.dfs(), vec![3, 0, 1, 2]);
}

#[test]
fn invertert_beholder_doble_kanter() {
    let g = graf_av(&[&[1, 1, 2], &[0], &[1]]);
    let inv = match g.invertert() {
        Ok(inv) => inv,
        Err(e) => panic!("{e:?}"),
    };
    assert_eq!(inv.naboer(0), &vec![1]);
    assert_eq!(inv.naboer(1), &vec![0, 0, 2]);
    assert_eq!(inv.naboer(2), &vec![0]);
}
