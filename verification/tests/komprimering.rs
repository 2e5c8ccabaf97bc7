use lib::bytetelling;
use lib::huffman::{self, ByteFrekvens, Hopp, Node};
use lib::lz77;

const FEIL: &str = "En uventet feil oppsto ved dekomprimering";

#[test]
fn lz77_komprimerer_gjentakelser() {
    let data = b"abcdabcdabcd";
    assert_eq!(lz77::komprimer(data), vec![0, 4, 97, 98, 99, 100, 0xff, 0xfc, 4, 0xff, 0xf8, 4]);
}

#[test]
fn lz77_uten_lange_treff_er_en_ukomprimert_blokk() {
    assert_eq!(lz77::komprimer(b"abcabc"), vec![0, 6, 97, 98, 99, 97, 98, 99]);
    assert_eq!(lz77::komprimer(b""), Vec::<u8>::new());
}

#[test]
fn lz77_tur_retur() {
    let data: Vec<u8> = b"det var en gang en katt, en katt som het katt, en katt i en hatt".to_vec();
    let komprimert = lz77::komprimer(&data);
    assert!(lz77::kan_dekomprimeres(&komprimert));
    assert_eq!(lz77::dekomprimer(&komprimert), Ok(data));
}

#[test]
fn lz77_lengste_treff() {
    let data = b"abcdabcd";
    assert_eq!(lz77::finn_lengste_treff(data, 4), (-4, 4));
    assert_eq!(lz77::finn_lengste_treff(data, 0), (0, 0));
    assert_eq!(lz77::matcher(data, 0, 4), 4);
    assert_eq!(lz77::matcher(data, 1, 4), 0);
}

#[test]
fn lz77_avbrutt_data_gir_feilmelding() {
    assert_eq!(lz77::dekomprimer(&[0]), Err(FEIL.to_string()));
    assert_eq!(lz77::dekomprimer(&[0, 5, 1, 2]), Err(FEIL.to_string()));
    assert_eq!(lz77::dekomprimer(&[0xff, 0xff]), Err(FEIL.to_string()));
}

#[test]
fn lz77_kopi_fra_foer_starten_kan_ikke_dekomprimeres() {
    assert!(!lz77::kan_dekomprimeres(&[0xff, 0xff, 3]));
    assert!(!lz77::kan_dekomprimeres(&[0x80, 0x00, 0]));
    assert!(!lz77::kan_dekomprimeres(&[0, 0, 1]));
    assert!(lz77::kan_dekomprimeres(&[0, 1, 7, 0xff, 0xff, 3]));
    assert_eq!(lz77::dekomprimer(&[0, 1, 7, 0xff, 0xff, 3]), Ok(vec![7, 7, 7, 7]));
    assert_eq!(lz77::dekomprimer(&[0, 0, 0]), Ok(vec![]));
}

#[test]
fn huffman_tur_retur_med_fire_biter() {
    let data = vec![1u8, 1, 1, 2];
    let komprimert = huffman::komprimer(&data);
    assert!(huffman::kan_dekomprimeres(&komprimert));
    assert_eq!(huffman::dekomprimer(&komprimert), Ok(data));
}

#[test]
fn huffman_frekvenstabell() {
    let tabell = huffman::finn_frekvenser(&[5, 3, 5, 5]);
    let par: Vec<(u8, u32)> = tabell.iter().map(|f| (f.byte, f.frekvens)).collect();
    assert_eq!(par, vec![(3, 1), (5, 3)]);
}

#[test]
fn huffman_tabelloppforing_til_og_fra_bytes() {
    let mut f = ByteFrekvens::ny(7);
    f.ok();
    f.ok();
    assert_eq!(f.til_bytes(), [0, 0, 0, 2, 7]);
    let g = ByteFrekvens::fra_bytes([0, 0, 1, 0, 9]);
    assert_eq!((g.byte, g.frekvens), (9, 256));
}

#[test]
fn huffman_tre_og_stier() {
    let tabell = huffman::finn_frekvenser(&[1, 1, 1, 2, 2, 3]);
    let noder = huffman::lag_noder(&tabell);
    assert_eq!(noder.len(), 3);
    let tre = huffman::konstruer_tre(tabell);
    assert_eq!(tre.frekvens, 6);
    assert!(tre.verdi.is_none());
    for verdi in [1u8, 2, 3] {
        let mut sti: Vec<Hopp> = Vec::new();
        assert!(tre.finn_node(verdi, &mut sti));
        assert!(!sti.is_empty());
    }
    let mut sti: Vec<Hopp> = Vec::new();
    assert!(!tre.finn_node(9, &mut sti));
}

#[test]
fn huffman_noder() {
    let blad = Node::fra_frekvens(&ByteFrekvens::fra_bytes([0, 0, 0, 4, 8]));
    assert_eq!((blad.frekvens, blad.verdi), (4, Some(8)));
    let annet = Node::fra_frekvens(&ByteFrekvens::fra_bytes([0, 0, 0, 1, 9]));
    let rot = Node::ny(5, None, Box::new(blad), Box::new(annet));
    let mut sti: Vec<Hopp> = Vec::new();
    assert!(rot.finn_node(9, &mut sti));
    assert!(matches!(sti.as_slice(), [Hopp::Hoyre]));
}

#[test]
fn huffman_kort_eller_ugyldig_data() {
    assert_eq!(huffman::dekomprimer(&[0, 0, 0]), Err(FEIL.to_string()));
    assert!(huffman::kan_dekomprimeres(&[0, 0, 0]));
    // En tom tabell kan ikke bygge noe tre.
    assert!(!huffman::kan_dekomprimeres(&[0, 0, 0, 0, 0, 0, 0, 0]));
}

#[test]
fn bytetelling_uten_den_storste_byten() {
    let par: Vec<(u8, u32)> = bytetelling::frekvenser(&[3, 1, 3, 2, 3]).iter().map(|f| (f.byte, f.frekvens)).collect();
    assert_eq!(par, vec![(1, 1), (2, 1)]);
    assert!(bytetelling::komprimer(&[3, 1]).is_empty());
}

#[test]
fn bytetelling_ny_og_ok() {
    let mut f = bytetelling::ByteFrekvens::ny(4);
    f.ok();
    assert_eq!((f.byte, f.frekvens), (4, 1));
}

#[test]
fn huffman_tur_retur_med_to_biter() {
    let data = vec![1u8, 2];
    let komprimert = huffman::komprimer(&data);
    assert!(huffman::kan_dekomprimeres(&komprimert));
    assert_eq!(huffman::dekomprimer(&komprimert), Ok(data));
}

#[test]
fn huffman_siste_byte_har_stegene_overst() {
    let data = b"aab".to_vec();
    let komprimert = huffman::komprimer(&data);
    // Åtte bytes antall, to oppføringer på fem bytes, åtte bytes antall steg, én byte steg.
    assert_eq!(komprimert.len(), 8 + 10 + 8 + 1);
    assert_eq!(&komprimert[18..26], &[0, 0, 0, 0, 0, 0, 0, 3]);
    // De tre stegene står i de tre øverste bitene; resten er null.
    assert_eq!(komprimert[26] & 0b0001_1111, 0);
    assert_eq!(huffman::dekomprimer(&komprimert), Ok(data));
}

#[test]
fn huffman_tur_retur_med_hele_bytes_steg() {
    // Åtte og seksten steg fyller hele bytes, uten en delvis siste byte.
    for data in [vec![1u8, 2, 1, 2, 1, 2, 1, 2], vec![7u8; 8].into_iter().chain(vec![9u8; 8]).collect()] {
        let komprimert = huffman::komprimer(&data);
        assert_eq!(komprimert.len(), 8 + 10 + 8 + data.len() / 8);
        assert!(huffman::kan_dekomprimeres(&komprimert));
        assert_eq!(huffman::dekomprimer(&komprimert), Ok(data));
    }
}

#[test]
fn huffman_tur_retur_med_flere_verdier() {
    let data = b"abracadabra, sa trollmannen".to_vec();
    let komprimert = huffman::komprimer(&data);
    assert!(huffman::kan_dekomprimeres(&komprimert));
    assert_eq!(huffman::dekomprimer(&komprimert), Ok(data));
}

#[test]
fn huffman_med_bare_en_byteverdi_gir_ingen_steg() {
    // Treet er ett blad uten steg, så ingen byte med steg skrives, og
    // dekomprimeringen leser alltid én slik byte.
    let komprimert = huffman::komprimer(&[5, 5]);
    assert_eq!(komprimert.len(), 8 + 5 + 8);
    assert!(huffman::kan_dekomprimeres(&komprimert));
    assert_eq!(huffman::dekomprimer(&komprimert), Err(FEIL.to_string()));
    // Med en byte etter antallet steg gir null steg ingen bytes tilbake.
    let mut med_byte = komprimert.clone();
    med_byte.push(0);
    assert_eq!(huffman::dekomprimer(&med_byte), Ok(vec![]));
}

#[test]
fn huffman_komprimerer_aab() {
    assert_eq!(
        huffman::komprimer(b"aab"),
        vec![0, 0, 0, 0, 0, 0, 0, 2, 0, 0, 0, 2, 97, 0, 0, 0, 1, 98, 0, 0, 0, 0, 0, 0, 0, 3, 192]
    );
}

#[test]
fn bytetelling_frekvensko_har_lavest_frekvens_forst() {
    let ko = bytetelling::frekvensko(&[1, 1, 1, 2, 3, 3, 4]);
    let par: Vec<(u8, u32)> = ko.iter().map(|f| (f.byte, f.frekvens)).collect();
    assert_eq!(par, vec![(2, 1), (1, 3), (3, 2)]);
    assert_eq!(
        format!("{:?}", ko),
        "[ByteFrekvens { byte: 2, frekvens: 1 }, ByteFrekvens { byte: 1, frekvens: 3 }, ByteFrekvens { byte: 3, frekvens: 2 }]"
    );
}
