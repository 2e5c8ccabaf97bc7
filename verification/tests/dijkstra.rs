use lib::avstand::{Avstand, Koelement};
use lib::dijkstra::{Graf, Kant, MinHeap, Node, VektetGrafFeil};

fn linjer(l: &[&str]) -> Vec<Option<String>> {
    l.iter().map(|s| Some(s.to_string())).collect()
}

fn eksempelgraf() -> Graf {
    match Graf::fra_linjer("4 3", &linjer(&["0 1 1", "1 2 2", "0 2 5"])) {
        Ok(g) => g,
        Err(e) => panic!("{e:?}"),
    }
}

#[test]
fn korteste_avstander_og_forlopere() {
    let g = eksempelgraf();
    let (avstander, forlopere) = g.dijkstra(0);
    assert_eq!(avstander, vec![Avstand::Verdi(0), Avstand::Verdi(1), Avstand::Verdi(3), Avstand::Uendelig]);
    assert_eq!(forlopere, vec![None, Some(0), Some(1), None]);
}

#[test]
fn dijkstra_fra_en_annen_start() {
    let g = eksempelgraf();
    let (avstander, forlopere) = g.dijkstra(1);
    assert_eq!(avstander, vec![Avstand::Uendelig, Avstand::Verdi(0), Avstand::Verdi(2), Avstand::Uendelig]);
    assert_eq!(forlopere, vec![None, None, Some(1), None]);
}

#[test]
fn dijkstra_med_tung_kant_som_ikke_gaar_over() {
    // Én kant med den største vekten: 0 + vekt går ikke over.
    let mut g = Graf::opprett(2);
    assert_eq!(g.ny_kant(0, 1, usize::MAX), Ok(()));
    let (avstander, forlopere) = g.dijkstra(0);
    assert_eq!(avstander, vec![Avstand::Verdi(0), Avstand::Verdi(usize::MAX)]);
    assert_eq!(forlopere, vec![None, Some(0)]);
}

#[test]
fn dijkstra_sjekket_ser_overflyt() {
    let mut g = Graf::opprett(3);
    assert_eq!(g.ny_kant(0, 1, usize::MAX), Ok(()));
    assert_eq!(g.ny_kant(1, 2, 1), Ok(()));
    assert_eq!(g.dijkstra_sjekket(0), None);
    // Fra node 2 nås ingen kant, så ingenting legges sammen.
    let (avstander, _) = g.dijkstra_sjekket(2).unwrap();
    assert_eq!(avstander, vec![Avstand::Uendelig, Avstand::Uendelig, Avstand::Verdi(0)]);
}

#[test]
fn ny_kant_sjekker_nodene() {
    let mut g = Graf::opprett(2);
    assert_eq!(g.antall_noder(), 2);
    assert!(g.ny_kant(0, 1, 4).is_ok());
    assert_eq!(g.ny_kant(0, 2, 4), Err(VektetGrafFeil::UgyldigKant { fra: 0, til: 2, antall_noder: 2 }));
    let (avstander, _) = g.dijkstra(0);
    assert_eq!(avstander, vec![Avstand::Verdi(0), Avstand::Verdi(4)]);
}

#[test]
fn vektet_graf_fra_linjer_feil() {
    assert_eq!(Graf::fra_linjer("2", &linjer(&[])).err(), Some(VektetGrafFeil::ManglerTallForst));
    assert_eq!(Graf::fra_linjer("a 1", &linjer(&[])).err(), Some(VektetGrafFeil::AntallNoder));
    assert_eq!(Graf::fra_linjer("2 b", &linjer(&[])).err(), Some(VektetGrafFeil::AntallKanter));
    assert_eq!(Graf::fra_linjer("2 1", &linjer(&["0 1"])).err(), Some(VektetGrafFeil::ManglerTall { linjenummer: 0 }));
    assert_eq!(Graf::fra_linjer("2 1", &linjer(&["0 x 1"])).err(), Some(VektetGrafFeil::Nodetall { linjenummer: 0 }));
    assert_eq!(Graf::fra_linjer("2 1", &linjer(&["0 1 -3"])).err(), Some(VektetGrafFeil::Vekt { linjenummer: 0 }));
    assert_eq!(
        Graf::fra_linjer("2 1", &linjer(&["0 7 1"])).err(),
        Some(VektetGrafFeil::UgyldigKant { fra: 0, til: 7, antall_noder: 2 })
    );
    assert_eq!(
        Graf::fra_linjer("2 2", &linjer(&["0 1 1"])).err(),
        Some(VektetGrafFeil::AntallKanterStemmerIkke { forventet: 2, lest: 1 })
    );
}

#[test]
fn koen_gir_kortest_avstand_forst() {
    let mut ko = MinHeap::opprett();
    assert!(ko.er_tom());
    ko.sett_inn(Koelement { node: 0, avstand: Avstand::Verdi(7) });
    ko.sett_inn(Koelement { node: 1, avstand: Avstand::Uendelig });
    ko.sett_inn(Koelement { node: 2, avstand: Avstand::Verdi(3) });
    assert_eq!(ko.len(), 3);
    assert_eq!(ko.pop().map(|e| e.node), Some(2));
    assert_eq!(ko.pop().map(|e| e.node), Some(0));
    assert_eq!(ko.pop().map(|e| e.node), Some(1));
    assert!(ko.pop().is_none());
}

#[test]
fn avstander_legges_sammen_og_sammenlignes() {
    assert_eq!(Avstand::Verdi(2) + Avstand::Verdi(3), Avstand::Verdi(5));
    assert_eq!(Avstand::Verdi(2) + Avstand::Uendelig, Avstand::Uendelig);
    assert!(Avstand::Verdi(100) < Avstand::Uendelig);
    assert!(Avstand::Verdi(1) < Avstand::Verdi(2));
    let mut a = Avstand::Verdi(1);
    a.add_assign(Avstand::Verdi(1));
    assert_eq!(a, Avstand::Verdi(2));
}

#[test]
fn noder_og_kanter() {
    assert_eq!(Node::opprett(4).id(), 4);
    let k = Kant::opprett(1, 2, 9);
    assert_eq!((k.fra, k.til, k.vekt), (1, 2, Avstand::Verdi(9)));
}
