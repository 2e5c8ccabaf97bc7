use lib::avstand::Avstand;
use lib::minheap::MinHeap;
use lib::veinett::{Graf, Kant, KantFilFeil, Koelement, Node};

fn linjer(l: &[&str]) -> Vec<Option<String>> {
    l.iter().map(|s| Some(s.to_string())).collect()
}

fn nett(antall: usize, forste: &str, kanter: &[&str]) -> Graf {
    let mut g = Graf::opprett();
    for id in 0..antall {
        g.push_node(Node::opprett(id));
    }
    match g.legg_til_kanter(forste, &linjer(kanter)) {
        Ok(()) => g,
        Err(e) => panic!("{e:?}"),
    }
}

#[test]
fn raskeste_vei_gjennom_nettet() {
    let mut g = nett(4, "3", &["0 1 5", "1 2 5", "0 2 20"]);
    assert!(g.sjekk_gyldig());
    let vei = g.finn_vei(0, 2, &vec![0; 4]);
    assert_eq!(vei, Ok(vec![0, 1, 2]));
}

#[test]
fn direkte_kant_naar_den_er_raskest() {
    let mut g = nett(3, "3", &["0 1 5", "1 2 5", "0 2 7"]);
    assert_eq!(g.finn_vei(0, 2, &vec![0; 3]), Ok(vec![0, 2]));
}

#[test]
fn ingen_vei_gir_bare_maalet() {
    let mut g = nett(4, "2", &["0 1 5", "1 2 5"]);
    assert_eq!(g.finn_vei(0, 3, &vec![0; 4]), Ok(vec![3]));
    assert_eq!(g.finn_vei(2, 0, &vec![0; 4]), Ok(vec![0]));
}

#[test]
fn vei_til_seg_selv() {
    let mut g = nett(2, "1", &["0 1 5"]);
    assert_eq!(g.finn_vei(1, 1, &vec![0; 2]), Ok(vec![1]));
}

#[test]
fn tung_kant_som_ikke_gaar_over() {
    // 0 + største kjøretid får plass, så søket går som vanlig.
    let mut g = Graf::opprett();
    g.push_node(Node::opprett(0));
    g.push_node(Node::opprett(1));
    g.push_kant(Kant::opprett(0, 1, usize::MAX));
    assert_eq!(g.finn_vei(0, 1, &vec![0, 0]), Ok(vec![0, 1]));
}

#[test]
fn tung_kant_gir_overflyt_bare_naar_den_brukes() {
    // Fra 0 legges MAX til MAX langs 1 -> 0; fra 2 brukes ingen kant.
    let mut g = Graf::opprett();
    for id in 0..3 {
        g.push_node(Node::opprett(id));
    }
    g.push_kant(Kant::opprett(0, 1, usize::MAX));
    g.push_kant(Kant::opprett(1, 0, usize::MAX));
    assert_eq!(g.finn_vei_sjekket(0, 2, &vec![0; 3]), None);
    assert_eq!(g.finn_vei(2, 0, &vec![0; 3]), Ok(vec![0]));
}

#[test]
fn kanter_legges_paa_noden_de_gaar_fra() {
    let mut g = Graf::opprett();
    g.push_node(Node::opprett(0));
    g.push_node(Node::opprett(1));
    g.push_kant(Kant::opprett(1, 0, 3));
    assert_eq!(g.antall_noder(), 2);
    assert!(g.sjekk_gyldig());
    assert_eq!(g.finn_vei(1, 0, &vec![0, 0]), Ok(vec![1, 0]));
}

#[test]
fn ugyldig_nett_oppdages() {
    // En kant til en node som ikke finnes, oppdages først når søket følger den.
    let g = nett(2, "1", &["0 9 3"]);
    assert!(g.sjekk_gyldig());
    let mut h = Graf::opprett();
    h.push_node(Node::opprett(5));
    assert!(!h.sjekk_gyldig());
    let mut e = Graf::opprett();
    let mut n = Node::opprett(0);
    n.sett_estimat(Avstand::Uendelig);
    e.push_node(n);
    assert!(!e.sjekk_gyldig());
}

#[test]
fn node_med_estimat() {
    let mut n = Node::opprett(3);
    assert_eq!(n.id(), 3);
    assert_eq!(n.estimat(), None);
    assert!(n.kanter().is_empty());
    n.sett_estimat(Avstand::Verdi(12));
    assert_eq!(n.estimat(), Some(Avstand::Verdi(12)));
}

#[test]
fn kantfil_feil() {
    let mut g = Graf::opprett();
    g.push_node(Node::opprett(0));
    g.push_node(Node::opprett(1));
    assert_eq!(g.legg_til_kanter("", &linjer(&[])), Err(KantFilFeil::ManglerTallForst));
    assert_eq!(g.legg_til_kanter("x", &linjer(&[])), Err(KantFilFeil::AntallKanter));
    assert_eq!(g.legg_til_kanter("1", &linjer(&["0 1"])), Err(KantFilFeil::ManglerTall { linjenummer: 0 }));
    assert_eq!(g.legg_til_kanter("1", &linjer(&["0 x 3"])), Err(KantFilFeil::NodeId { linjenummer: 0 }));
    assert_eq!(g.legg_til_kanter("1", &linjer(&["0 1 y"])), Err(KantFilFeil::Kjoretid { linjenummer: 0 }));
    assert_eq!(
        g.legg_til_kanter("2", &linjer(&["0 1 3", "9 1 3"])),
        Err(KantFilFeil::UkjentNode { fra: 9, linjenummer: 1 })
    );
    assert_eq!(
        g.legg_til_kanter("2", &linjer(&["0 1 3"])),
        Err(KantFilFeil::AntallKanterStemmerIkke { forventet: 2, lest: 1 })
    );
}

#[test]
fn koelementer_i_heap_etter_kjoretid() {
    let mut ko: MinHeap<Koelement> = MinHeap::opprett();
    ko.push(Koelement { kjoretid: Avstand::Verdi(9), node: 0 });
    ko.push(Koelement { kjoretid: Avstand::Uendelig, node: 1 });
    ko.push(Koelement { kjoretid: Avstand::Verdi(2), node: 2 });
    let i = ko.finn_element(&Koelement { kjoretid: Avstand::Verdi(0), node: 1 });
    assert!(i.is_some());
    ko.endre_vekt(i.unwrap(), 1);
    assert_eq!(ko.pop().map(|e| e.node), Some(1));
    assert_eq!(ko.pop().map(|e| e.node), Some(2));
    assert_eq!(ko.pop().map(|e| e.node), Some(0));
    assert!(ko.er_tom());
}

#[test]
fn uendelig_kommer_etter_stoerste_verdi_naar_heapen_lages() {
    // Begge veier usize::MAX, men ordningen setter en endelig kjøretid foran.
    let mut ko = MinHeap::fra_liste(&[
        Koelement { kjoretid: Avstand::Uendelig, node: 0 },
        Koelement { kjoretid: Avstand::Verdi(usize::MAX), node: 1 },
    ]);
    assert_eq!(ko.pop().map(|e| e.node), Some(1));
    assert_eq!(ko.pop().map(|e| e.node), Some(0));
    assert!(ko.er_tom());
}

#[test]
fn kant_til_ukjent_node_brukes_bare_naar_den_naas() {
    let mut g = Graf::opprett();
    for id in 0..3 {
        g.push_node(Node::opprett(id));
    }
    g.push_kant(Kant::opprett(0, 1, 4));
    g.push_kant(Kant::opprett(2, 9, 1));
    assert!(g.sjekk_gyldig());
    // Fra 0 nås aldri node 2, så kanten til node 9 følges ikke.
    assert_eq!(g.finn_vei(0, 1, &vec![0; 3]), Ok(vec![0, 1]));
    // Fra 2 følges kanten til en node som ikke finnes.
    assert_eq!(g.finn_vei_sjekket(2, 0, &vec![0; 3]), None);
}
