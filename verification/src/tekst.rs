//! Oppdeling av tekstlinjer i ord skilt av mellomrom, og tolking av ord som
//! naturlige tall.
use vstd::prelude::*;

verus! {

/// Tegnet er mellomrom etter Unicode (egenskapen White_Space).
pub open spec fn mellomrom(c: char) -> bool {
    ||| ('\u{9}' <= c && c <= '\u{d}')
    ||| c == ' '
    ||| c == '\u{85}'
    ||| c == '\u{a0}'
    ||| c == '\u{1680}'
    ||| ('\u{2000}' <= c && c <= '\u{200a}')
    ||| c == '\u{2028}'
    ||| c == '\u{2029}'
    ||| c == '\u{202f}'
    ||| c == '\u{205f}'
    ||| c == '\u{3000}'
}

/// Om tegnet er mellomrom.
pub fn er_mellomrom(c: char) -> (res: bool)
    ensures
        res == mellomrom(c),
{
    ('\u{9}' <= c && c <= '\u{d}') || c == ' ' || c == '\u{85}' || c == '\u{a0}' || c == '\u{1680}'
        || ('\u{2000}' <= c && c <= '\u{200a}') || c == '\u{2028}' || c == '\u{2029}' || c == '\u{202f}'
        || c == '\u{205f}' || c == '\u{3000}'
}

/// Ordene i `s` fra og med plass `i`, når `na` er ordet som er påbegynt og
/// `ferdige` ordene før det.
pub open spec fn ord_fra(s: Seq<char>, i: int, na: Seq<char>, ferdige: Seq<Seq<char>>) -> Seq<Seq<char>>
    decreases s.len() - i,
{
    if i >= s.len() {
        if na.len() > 0 { ferdige.push(na) } else { ferdige }
    } else if mellomrom(s[i]) {
        ord_fra(s, i + 1, Seq::empty(), if na.len() > 0 { ferdige.push(na) } else { ferdige })
    } else {
        ord_fra(s, i + 1, na.push(s[i]), ferdige)
    }
}

/// Ordene i `s`: de lengste strekkene uten mellomrom, i rekkefølge.
pub open spec fn ord(s: Seq<char>) -> Seq<Seq<char>> {
    ord_fra(s, 0, Seq::empty(), Seq::empty())
}

/// Deler teksten i ord skilt av mellomrom.
pub fn del_i_ord(tekst: &str) -> (res: Vec<Vec<char>>)
    ensures
        res@.map_values(|o: Vec<char>| o@) == ord(tekst@),
{
    let ghost s = tekst@;
    let mut ferdige: Vec<Vec<char>> = Vec::new();
    let mut na: Vec<char> = Vec::new();
    assert(ferdige@.map_values(|o: Vec<char>| o@) =~= Seq::<Seq<char>>::empty());
    assert(na@ =~= Seq::<char>::empty());
    for c in it: tekst.chars()
        invariant
            it.seq() == s,
            ord_fra(s, it.index() as int, na@, ferdige@.map_values(|o: Vec<char>| o@)) == ord(s),
    {
        let ghost f0 = ferdige@.map_values(|o: Vec<char>| o@);
        assert(c == s[it.index() as int]);
        if er_mellomrom(c) {
            if na.len() > 0 {
                let ghost na0 = na@;
                let mut ferdig: Vec<char> = Vec::new();
                std::mem::swap(&mut ferdig, &mut na);
                ferdige.push(ferdig);
                assert(ferdige@.map_values(|o: Vec<char>| o@) =~= f0.push(na0));
                assert(na@ =~= Seq::<char>::empty());
            } else {
                assert(na@ =~= Seq::<char>::empty());
            }
        } else {
            na.push(c);
        }
    }
    let ghost f0 = ferdige@.map_values(|o: Vec<char>| o@);
    if na.len() > 0 {
        let ghost na0 = na@;
        ferdige.push(na);
        assert(ferdige@.map_values(|o: Vec<char>| o@) =~= f0.push(na0));
    }
    ferdige
}

/// Tegnet er et desimalt siffer.
pub open spec fn siffer(c: char) -> bool {
    '0' <= c && c <= '9'
}

/// Tallet sifrene står for, med det første sifferet mest signifikant.
pub open spec fn sifferverdi(s: Seq<char>) -> int
    decreases s.len(),
{
    if s.len() == 0 {
        0
    } else {
        sifferverdi(s.drop_last()) * 10 + (s.last() as u32 - '0' as u32)
    }
}

/// Alle tegnene er sifre.
pub open spec fn alle_sifre(t: Seq<char>) -> bool {
    forall|i: int| 0 <= i < t.len() ==> siffer(#[trigger] t[i])
}

/// Ordet uten et pluss foran.
pub open spec fn uten_pluss(s: Seq<char>) -> Seq<char> {
    if s.len() > 0 && s[0] == '+' { s.drop_first() } else { s }
}

/// Tallet ordet står for: et valgfritt pluss foran minst ett siffer, og ikke
/// større enn det største `usize`.
pub open spec fn tolk_spec(s: Seq<char>) -> Option<usize> {
    let t = uten_pluss(s);
    if t.len() > 0 && alle_sifre(t) && sifferverdi(t) <= usize::MAX {
        Some(sifferverdi(t) as usize)
    } else {
        None
    }
}

/// Verdien vokser når et siffer legges til.
proof fn lemma_sifferverdi_voksende(s: Seq<char>, n: int)
    requires
        0 <= n <= s.len(),
        forall|i: int| 0 <= i < s.len() ==> siffer(#[trigger] s[i]),
    ensures
        0 <= sifferverdi(s.take(n)) <= sifferverdi(s),
    decreases s.len(),
{
    if n < s.len() {
        assert(s.take(n) =~= s.drop_last().take(n));
        lemma_sifferverdi_voksende(s.drop_last(), n);
    } else {
        assert(s.take(n) =~= s);
        lemma_sifferverdi_ikke_negativ(s);
    }
}

/// Verdien av sifre er ikke negativ.
proof fn lemma_sifferverdi_ikke_negativ(s: Seq<char>)
    requires
        forall|i: int| 0 <= i < s.len() ==> siffer(#[trigger] s[i]),
    ensures
        sifferverdi(s) >= 0,
    decreases s.len(),
{
    if s.len() > 0 {
        lemma_sifferverdi_ikke_negativ(s.drop_last());
    }
}

/// Tolker ordet som et naturlig tall.
pub fn tolk_usize(ord: &Vec<char>) -> (res: Option<usize>)
    ensures
        res == tolk_spec(ord@),
{
    let ghost s = ord@;
    let start: usize = if ord.len() > 0 && ord[0] == '+' { 1 } else { 0 };
    let ghost t = uten_pluss(s);
    assert(t =~= s.skip(start as int));
    if start >= ord.len() {
        return None;
    }
    let mut verdi: usize = 0;
    let mut i: usize = start;
    while i < ord.len()
        invariant
            start <= i <= s.len(),
            ord@ == s,
            t == s.skip(start as int),
            t == uten_pluss(s),
            forall|k: int| 0 <= k < i - start ==> siffer(#[trigger] t[k]),
            verdi == sifferverdi(t.take(i - start)),
        decreases s.len() - i,
    {
        let c = ord[i];
        assert(t[i - start] == c);
        if !('0' <= c && c <= '9') {
            assert(!siffer(t[i - start]));
            return None;
        }
        let d: usize = (c as u32 - '0' as u32) as usize;
        assert(t.take(i - start + 1).drop_last() =~= t.take(i - start));
        assert(t.take(i - start + 1).last() == c);
        assert(sifferverdi(t.take(i - start + 1)) == verdi * 10 + d);
        match verdi.checked_mul(10) {
            Some(v10) => match v10.checked_add(d) {
                Some(ny) => {
                    verdi = ny;
                },
                None => {
                    proof {
                        if alle_sifre(t) {
                            lemma_sifferverdi_voksende(t, i - start + 1);
                        }
                    }
                    return None;
                },
            },
            None => {
                proof {
                    if alle_sifre(t) {
                        lemma_sifferverdi_voksende(t, i - start + 1);
                        lemma_sifferverdi_ikke_negativ(t.take(i - start));
                    }
                }
                return None;
            },
        }
        i = i + 1;
    }
    assert(t.take(s.len() - start) =~= t);
    Some(verdi)
}


/// Hvordan det gikk å lese tall fra ordene på en linje.
pub enum TallPaLinje {
    /// Alle tallene, i rekkefølge.
    Tall(Seq<usize>),
    /// Linja har ikke ord nummer `i`.
    Mangler(int),
    /// Ord nummer `i` er ikke et tall.
    Ugyldig(int),
}

/// Leser ord nummer `i` og utover til og med ord nummer `k - 1` som tall,
/// etter tallene i `lest`; første ord som mangler eller ikke er et tall,
/// stopper lesingen.
pub open spec fn les_tall(ordene: Seq<Seq<char>>, k: int, i: int, lest: Seq<usize>) -> TallPaLinje
    decreases k - i,
{
    if i >= k {
        TallPaLinje::Tall(lest)
    } else if ordene.len() <= i {
        TallPaLinje::Mangler(i)
    } else {
        match tolk_spec(ordene[i]) {
            None => TallPaLinje::Ugyldig(i),
            Some(v) => les_tall(ordene, k, i + 1, lest.push(v)),
        }
    }
}

/// Lesingen gir så mange tall som det ble bedt om.
pub proof fn lemma_les_tall_lengde(ordene: Seq<Seq<char>>, k: int, i: int, lest: Seq<usize>)
    requires
        0 <= i <= k,
        lest.len() == i,
    ensures
        les_tall(ordene, k, i, lest) matches TallPaLinje::Tall(v) ==> v.len() == k,
        les_tall(ordene, k, i, lest) matches TallPaLinje::Mangler(j) ==> i <= j < k,
        les_tall(ordene, k, i, lest) matches TallPaLinje::Ugyldig(j) ==> i <= j < k,
    decreases k - i,
{
    if i < k && ordene.len() > i {
        if let Some(v) = tolk_spec(ordene[i]) {
            lemma_les_tall_lengde(ordene, k, i + 1, lest.push(v));
        }
    }
}

/// Leser de `k` første ordene på linja som tall. Gir tallene, eller
/// nummeret på første ord som mangler (sann) eller ikke er et tall (usann).
pub fn les_tall_linje(linje: &str, k: usize) -> (res: Result<Vec<usize>, (usize, bool)>)
    ensures
        match les_tall(ord(linje@), k as int, 0, Seq::empty()) {
            TallPaLinje::Tall(v) => res matches Ok(tall) && tall@ == v && v.len() == k,
            TallPaLinje::Mangler(i) => 0 <= i < k && res == Err::<Vec<usize>, (usize, bool)>((i as usize, true)),
            TallPaLinje::Ugyldig(i) => 0 <= i < k && res == Err::<Vec<usize>, (usize, bool)>((i as usize, false)),
        },
{
    let ordene = del_i_ord(linje);
    let ghost o = ord(linje@);
    proof {
        lemma_les_tall_lengde(o, k as int, 0, Seq::empty());
    }
    let mut tall: Vec<usize> = Vec::new();
    let mut i: usize = 0;
    while i < k
        invariant
            ordene@.map_values(|w: Vec<char>| w@) == o,
            o == ord(linje@),
            i <= k,
            tall@.len() == i,
            les_tall(o, k as int, i as int, tall@) == les_tall(o, k as int, 0, Seq::empty()),
        decreases k - i,
    {
        if ordene.len() <= i {
            return Err((i, true));
        }
        assert(ordene@[i as int]@ == o[i as int]);
        match tolk_usize(&ordene[i]) {
            None => {
                return Err((i, false));
            },
            Some(v) => {
                tall.push(v);
            },
        }
        i = i + 1;
    }
    Ok(tall)
}

} // verus!
