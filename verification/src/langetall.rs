//! Vilkårlig lange naturlige tall lagret som desimale sifre, med addisjon
//! og subtraksjon. Differansen beholder antall sifre i det første tallet
//! (et lån ut av det høyeste sifferet forsvinner).
use vstd::prelude::*;

verus! {

/// Ett desimalt siffer.
pub struct Siffer {
    pub verdi: u32,
}

impl Siffer {
    /// Et siffer med verdien, om verdien er mellom 0 og 9.
    pub fn new(verdi: u32) -> (res: Option<Self>)
        ensures
            verdi > 9 ==> res is None,
            verdi <= 9 ==> res == Some(Siffer { verdi }),
    {
        if verdi > 9 {
            None
        } else {
            Some(Self { verdi })
        }
    }
}

/// Tallet sifrene står for, med det første sifferet mest signifikant.
pub open spec fn verdi(s: Seq<u32>) -> int
    decreases s.len(),
{
    if s.len() == 0 {
        0
    } else {
        verdi(s.drop_last()) * 10 + s.last()
    }
}

/// 10 opphøyd i `k`.
pub open spec fn pot10(k: int) -> int
    decreases k,
{
    if k <= 0 {
        1
    } else {
        10 * pot10(k - 1)
    }
}

/// Alle sifrene er mellom 0 og 9.
pub open spec fn gyldige_sifre(s: Seq<u32>) -> bool {
    forall|i: int| 0 <= i < s.len() ==> #[trigger] s[i] <= 9
}

/// Et tall som en liste av desimale sifre.
#[derive(Clone)]
pub struct Tall {
    sifre: Vec<u32>,
}

impl View for Tall {
    type V = Seq<u32>;

    closed spec fn view(&self) -> Seq<u32> {
        self.sifre@
    }
}

impl Tall {
    /// Sifrene i tallet er mellom 0 og 9.
    pub open spec fn er_gyldig(&self) -> bool {
        gyldige_sifre(self@)
    }

    /// Et tall uten sifre.
    pub fn new() -> (res: Self)
        ensures
            res@ == Seq::<u32>::empty(),
    {
        Self { sifre: Vec::new() }
    }

    /// Om tallet ikke har noen sifre.
    pub fn er_tomt(&self) -> (res: bool)
        ensures
            res == (self@.len() == 0),
    {
        self.sifre.len() == 0
    }

    /// Antall sifre.
    pub fn antall_siffer(&self) -> (res: usize)
        ensures
            res == self@.len(),
    {
        self.sifre.len()
    }

    /// Sifrene i tallet.
    pub fn sifre(&self) -> (res: &Vec<u32>)
        ensures
            res@ == self@,
    {
        &self.sifre
    }

    /// Setter inn et siffer først (til venstre). Verdier over 9 ignoreres.
    pub fn sett_inn_foran(&mut self, verdi: u32)
        ensures
            verdi > 9 ==> final(self)@ == old(self)@,
            verdi <= 9 ==> final(self)@ == seq![verdi] + old(self)@,
    {
        let siffer = match Siffer::new(verdi) {
            Some(siffer) => siffer,
            None => return,
        };
        let mut sifre = Vec::new();
        std::mem::swap(&mut sifre, &mut self.sifre);
        sifre.insert(0, siffer.verdi);
        assert(sifre@ =~= seq![verdi] + old(self)@);
        self.sifre = sifre;
    }

    /// Setter inn et siffer sist (til høyre). Verdier over 9 ignoreres.
    pub fn sett_inn_bak(&mut self, verdi: u32)
        ensures
            verdi > 9 ==> final(self)@ == old(self)@,
            verdi <= 9 ==> final(self)@ == old(self)@.push(verdi),
    {
        let siffer = match Siffer::new(verdi) {
            Some(siffer) => siffer,
            None => return,
        };
        let mut sifre = Vec::new();
        std::mem::swap(&mut sifre, &mut self.sifre);
        sifre.push(siffer.verdi);
        self.sifre = sifre;
    }
}

/// Sifferverdien til et tegn, om det er et desimalt siffer.
pub open spec fn sifferverdi(c: char) -> Option<u32> {
    if '0' <= c && c <= '9' {
        Some((c as u32 - '0' as u32) as u32)
    } else {
        None
    }
}

/// Tallverdien til en streng av desimale sifre, lest med den vanlige
/// betydningen av sifrene: tegnet `c` står for `c - '0'`.
pub open spec fn desimaltall(tegn: Seq<char>) -> int
    decreases tegn.len(),
{
    if tegn.len() == 0 {
        0
    } else {
        desimaltall(tegn.drop_last()) * 10 + (tegn.last() as int - '0' as int)
    }
}

/// Alle tegnene er desimale sifre `'0'`..`'9'`.
pub open spec fn bare_sifre(tegn: Seq<char>) -> bool {
    forall|i: int| 0 <= i < tegn.len() ==> '0' <= #[trigger] tegn[i] && tegn[i] <= '9'
}

/// Et tegn har en sifferverdi nøyaktig når det er ett av `'0'`..`'9'`, og
/// verdien er avstanden fra `'0'`.
pub proof fn lov_sifferverdi(c: char)
    ensures
        sifferverdi(c) is Some <==> ('0' <= c && c <= '9'),
        sifferverdi(c) is Some ==> sifferverdi(c)->Some_0 + ('0' as u32) == c as u32,
        sifferverdi(c) is Some ==> sifferverdi(c)->Some_0 <= 9,
{
}

/// En streng av desimale sifre leses som sifrene med sin vanlige verdi, og
/// tallet de står for er strengens vanlige desimale verdi.
pub proof fn lov_sifre_av(tegn: Seq<char>)
    requires
        bare_sifre(tegn),
    ensures
        sifre_av(tegn) is Some,
        sifre_av(tegn)->Some_0.len() == tegn.len(),
        forall|i: int| 0 <= i < tegn.len() ==> #[trigger] sifre_av(tegn)->Some_0[i] + ('0' as u32) == tegn[i] as u32,
        verdi(sifre_av(tegn)->Some_0) == desimaltall(tegn),
    decreases tegn.len(),
{
    if tegn.len() > 0 {
        let f = tegn.drop_last();
        assert(bare_sifre(f)) by {
            assert forall|i: int| 0 <= i < f.len() implies '0' <= #[trigger] f[i] && f[i] <= '9' by {
                assert(f[i] == tegn[i]);
            }
        }
        lov_sifre_av(f);
        let c = tegn.last();
        assert('0' <= tegn[tegn.len() - 1] && tegn[tegn.len() - 1] <= '9');
        let d = sifferverdi(c)->Some_0;
        assert(d + ('0' as u32) == c as u32);
        let sf = sifre_av(f)->Some_0;
        assert(sifre_av(tegn)->Some_0 == sf.push(d));
        assert(sf.push(d).drop_last() =~= sf);
        assert forall|i: int| 0 <= i < tegn.len() implies #[trigger] sifre_av(tegn)->Some_0[i] + ('0' as u32) == tegn[i] as u32 by {
            if i < f.len() {
                assert(sifre_av(f)->Some_0[i] + ('0' as u32) == f[i] as u32);
                assert(f[i] == tegn[i]);
            }
        }
    }
}

/// Tegnene har sifre nøyaktig når alle er desimale sifre.
pub proof fn lemma_sifre_av_some(tegn: Seq<char>)
    ensures
        (sifre_av(tegn) is Some) == bare_sifre(tegn),
    decreases tegn.len(),
{
    if tegn.len() > 0 {
        let f = tegn.drop_last();
        lemma_sifre_av_some(f);
        if bare_sifre(tegn) {
            lov_sifre_av(tegn);
        }
        if sifre_av(tegn) is Some {
            assert forall|i: int| 0 <= i < tegn.len() implies '0' <= #[trigger] tegn[i] && tegn[i] <= '9' by {
                if i < f.len() {
                    assert(f[i] == tegn[i]);
                }
            }
        }
    }
}

/// Sifrene tegnene står for, om alle er desimale sifre.
pub open spec fn sifre_av(tegn: Seq<char>) -> Option<Seq<u32>>
    decreases tegn.len(),
{
    if tegn.len() == 0 {
        Some(seq![])
    } else {
        match (sifre_av(tegn.drop_last()), sifferverdi(tegn.last())) {
            (Some(s), Some(d)) => Some(s.push(d)),
            _ => None,
        }
    }
}

/// Det første tegnet som ikke er et desimalt siffer.
pub open spec fn forste_ugyldige(tegn: Seq<char>) -> int {
    choose|i: int| 0 <= i < tegn.len() && sifferverdi(tegn[i]) is None && forall|j: int| 0 <= j < i ==> sifferverdi(#[trigger] tegn[j]) is Some
}

fn tegn_til_siffer(c: char) -> (res: Option<u32>)
    ensures
        res == sifferverdi(c),
        res is Some <==> ('0' <= c && c <= '9'),
        res is Some ==> res->Some_0 + ('0' as u32) == c as u32,
{
    if '0' <= c && c <= '9' {
        Some(c as u32 - '0' as u32)
    } else {
        None
    }
}

proof fn lemma_sifre_av_take(tegn: Seq<char>, k: int)
    requires
        0 <= k < tegn.len(),
    ensures
        sifre_av(tegn.take(k + 1)) == match (sifre_av(tegn.take(k)), sifferverdi(tegn[k])) {
            (Some(s), Some(d)) => Some(s.push(d)),
            _ => None,
        },
{
    assert(tegn.take(k + 1).drop_last() =~= tegn.take(k));
}

/// Tegnet for et desimalt siffer.
fn siffer_til_tegn(d: u32) -> (c: char)
    requires
        d <= 9,
    ensures
        sifferverdi(c) == Some(d),
        c as u32 == d + ('0' as u32),
{
    if d == 0 {
        '0'
    } else if d == 1 {
        '1'
    } else if d == 2 {
        '2'
    } else if d == 3 {
        '3'
    } else if d == 4 {
        '4'
    } else if d == 5 {
        '5'
    } else if d == 6 {
        '6'
    } else if d == 7 {
        '7'
    } else if d == 8 {
        '8'
    } else {
        '9'
    }
}

/// `String::push`: legger tegnet til sist i strengen, slik std beskriver det.
#[verifier::external_body]
fn legg_til_tegn(streng: &mut String, c: char)
    ensures
        final(streng)@ == old(streng)@.push(c),
{
    streng.push(c);
}

impl Tall {
    /// Tallet skrevet med desimale sifre, det høyeste først; tomt for et tall
    /// uten sifre.
    pub fn til_tekst(&self) -> (res: String)
        requires
            self.er_gyldig(),
        ensures
            res@.len() == self@.len(),
            forall|i: int| 0 <= i < self@.len() ==> sifferverdi(#[trigger] res@[i]) == Some(self@[i]),
            forall|i: int| 0 <= i < self@.len() ==> #[trigger] res@[i] as u32 == self@[i] + ('0' as u32),
            sifre_av(res@) == Some(self@),
            desimaltall(res@) == verdi(self@),
    {
        let mut tekst = String::new();
        let mut k: usize = 0;
        while k < self.sifre.len()
            invariant
                k <= self@.len(),
                self.er_gyldig(),
                tekst@.len() == k,
                forall|i: int| 0 <= i < k ==> sifferverdi(#[trigger] tekst@[i]) == Some(self@[i]),
                forall|i: int| 0 <= i < k ==> #[trigger] tekst@[i] as u32 == self@[i] + ('0' as u32),
                sifre_av(tekst@) == Some(self@.take(k as int)),
            decreases self@.len() - k,
        {
            let c = siffer_til_tegn(self.sifre[k]);
            let ghost forrige = tekst@;
            legg_til_tegn(&mut tekst, c);
            proof {
                assert(tekst@.drop_last() =~= forrige);
                assert(self@.take(k + 1) =~= self@.take(k as int).push(self@[k as int]));
            }
            k = k + 1;
        }
        assert(self@.take(k as int) =~= self@);
        proof {
            assert(bare_sifre(tekst@)) by {
                assert forall|i: int| 0 <= i < tekst@.len() implies '0' <= #[trigger] tekst@[i] && tekst@[i] <= '9' by {
                    assert(sifferverdi(tekst@[i]) == Some(self@[i]));
                }
            }
            lov_sifre_av(tekst@);
        }
        tekst
    }
}

impl Tall {
    /// Lager et tall av tegnene i strengen. Gir det første tegnet som ikke er
    /// et desimalt siffer, om det finnes et.
    pub fn fra_streng(streng: &Vec<char>) -> (res: Result<Tall, char>)
        ensures
            sifre_av(streng@) is Some ==> res is Ok && res->Ok_0@ == sifre_av(streng@)->Some_0 && res->Ok_0.er_gyldig(),
            (sifre_av(streng@) is Some) == bare_sifre(streng@),
            res is Ok ==> res->Ok_0@.len() == streng@.len(),
            res is Ok ==> forall|i: int| 0 <= i < streng@.len() ==> #[trigger] res->Ok_0@[i] + ('0' as u32) == streng@[i] as u32,
            res is Ok ==> verdi(res->Ok_0@) == desimaltall(streng@),
            sifre_av(streng@) is None ==> res is Err && res->Err_0 == streng@[forste_ugyldige(streng@)],
    {
        let mut tall = Tall::new();
        let mut k: usize = 0;
        while k < streng.len()
            invariant
                k <= streng@.len(),
                sifre_av(streng@.take(k as int)) == Some(tall@),
                tall.er_gyldig(),
                forall|j: int| 0 <= j < k ==> sifferverdi(#[trigger] streng@[j]) is Some,
            decreases streng@.len() - k,
        {
            let bokstav = streng[k];
            proof {
                lemma_sifre_av_take(streng@, k as int);
            }
            match tegn_til_siffer(bokstav) {
                Some(v) => {
                    tall.sett_inn_bak(v);
                },
                None => {
                    proof {
                        lemma_sifre_av_some(streng@);
                        let i = k as int;
                        assert(0 <= i < streng@.len() && sifferverdi(streng@[i]) is None && forall|j: int|
                            0 <= j < i ==> sifferverdi(#[trigger] streng@[j]) is Some);
                        lemma_forste_ugyldige_entydig(streng@, i);
                        lemma_sifre_av_none(streng@, i);
                    }
                    return Err(bokstav);
                },
            }
            k = k + 1;
        }
        assert(streng@.take(k as int) =~= streng@);
        proof {
            lemma_sifre_av_some(streng@);
            lov_sifre_av(streng@);
        }
        Ok(tall)
    }
}

proof fn lemma_forste_ugyldige_entydig(tegn: Seq<char>, i: int)
    requires
        0 <= i < tegn.len(),
        sifferverdi(tegn[i]) is None,
        forall|j: int| 0 <= j < i ==> sifferverdi(#[trigger] tegn[j]) is Some,
    ensures
        forste_ugyldige(tegn) == i,
{
    let k = forste_ugyldige(tegn);
    if k != i {
        if k < i {
            assert(sifferverdi(tegn[k]) is Some);
        } else {
            assert(sifferverdi(tegn[i]) is Some);
        }
    }
}

proof fn lemma_sifre_av_none(tegn: Seq<char>, i: int)
    requires
        0 <= i < tegn.len(),
        sifferverdi(tegn[i]) is None,
    ensures
        sifre_av(tegn) is None,
    decreases tegn.len(),
{
    if i < tegn.len() - 1 {
        assert(tegn.drop_last()[i] == tegn[i]);
        lemma_sifre_av_none(tegn.drop_last(), i);
    }
}


/// Verdien av et siffer foran en liste av sifre.
pub proof fn lemma_verdi_foran(d: u32, t: Seq<u32>)
    ensures
        verdi(seq![d] + t) == d * pot10(t.len() as int) + verdi(t),
    decreases t.len(),
{
    let u = seq![d] + t;
    if t.len() == 0 {
        assert(u.drop_last() =~= Seq::<u32>::empty());
        assert(verdi(u) == verdi(u.drop_last()) * 10 + u.last());
    } else {
        assert(u.drop_last() =~= seq![d] + t.drop_last());
        assert(u.last() == t.last());
        lemma_verdi_foran(d, t.drop_last());
        let p = pot10(t.len() - 1);
        assert(pot10(t.len() as int) == 10 * p);
        assert((d * p + verdi(t.drop_last())) * 10 + t.last() == d * (10 * p) + (verdi(t.drop_last()) * 10 + t.last())) by (nonlinear_arith);
    }
}

/// Et tall med gyldige sifre er mindre enn 10 opphøyd i antall sifre.
pub proof fn lemma_verdi_grense(s: Seq<u32>)
    requires
        gyldige_sifre(s),
    ensures
        0 <= verdi(s) < pot10(s.len() as int),
    decreases s.len(),
{
    if s.len() > 0 {
        assert(gyldige_sifre(s.drop_last())) by {
            assert forall|i: int| 0 <= i < s.drop_last().len() implies #[trigger] s.drop_last()[i] <= 9 by {
                assert(s.drop_last()[i] == s[i]);
            }
        }
        lemma_verdi_grense(s.drop_last());
        assert(s[s.len() - 1] <= 9);
    }
}

/// De `k` siste sifrene.
pub open spec fn hale(s: Seq<u32>, k: int) -> Seq<u32> {
    s.subrange(s.len() - k, s.len() as int)
}

proof fn lemma_hale_steg(s: Seq<u32>, k: int)
    requires
        0 <= k < s.len(),
    ensures
        verdi(hale(s, k + 1)) == s[s.len() - 1 - k] * pot10(k) + verdi(hale(s, k)),
{
    assert(hale(s, k + 1) =~= seq![s[s.len() - 1 - k]] + hale(s, k));
    lemma_verdi_foran(s[s.len() - 1 - k], hale(s, k));
}

proof fn lemma_pot10_positiv(k: int)
    ensures
        pot10(k) >= 1,
    decreases k,
{
    if k > 0 {
        lemma_pot10_positiv(k - 1);
    }
}

/// Et tall er de høyeste sifrene ganger 10 opphøyd i `k` pluss de `k` laveste.
proof fn lemma_hale_rest(s: Seq<u32>, k: int)
    requires
        0 <= k <= s.len(),
    ensures
        verdi(s) == verdi(s.take(s.len() - k)) * pot10(k) + verdi(hale(s, k)),
    decreases k,
{
    if k == 0 {
        assert(s.take(s.len() as int) =~= s);
        assert(hale(s, 0) =~= Seq::<u32>::empty());
    } else {
        lemma_hale_rest(s, k - 1);
        lemma_hale_steg(s, k - 1);
        let f = s.take(s.len() - k);
        let g = s.take(s.len() - k + 1);
        assert(g.drop_last() =~= f);
        assert(verdi(g) == verdi(f) * 10 + s[s.len() - k]);
        let p = pot10(k - 1);
        assert(pot10(k) == 10 * p);
        assert((verdi(f) * 10 + s[s.len() - k]) * p == verdi(f) * (10 * p) + s[s.len() - k] * p) by (nonlinear_arith);
    }
}

proof fn lemma_nuller_foran(t: Seq<u32>)
    ensures
        verdi(seq![0u32] + t) == verdi(t),
{
    lemma_verdi_foran(0, t);
}

impl Tall {
    /// Summen av to tall. Den har like mange sifre som det lengste, og ett til
    /// foran når det blir en mente ut av det høyeste sifferet.
    pub fn add(self, rhs: Tall) -> (sum: Tall)
        requires
            self.er_gyldig(),
            rhs.er_gyldig(),
        ensures
            sum.er_gyldig(),
            verdi(sum@) == verdi(self@) + verdi(rhs@),
            ({
                let m = if self@.len() > rhs@.len() { self@.len() } else { rhs@.len() };
                sum@.len() == if verdi(self@) + verdi(rhs@) >= pot10(m as int) { m + 1 } else { m + 0 }
            }),
    {
        let mut sum: Tall = Tall::new();
        let (lengste, mut korteste) = if self.sifre.len() > rhs.sifre.len() {
            (self, rhs)
        } else {
            (rhs, self)
        };
        let ghost kort0 = korteste@;
        while korteste.sifre.len() < lengste.sifre.len()
            invariant
                korteste.er_gyldig(),
                korteste@.len() <= lengste@.len(),
                verdi(korteste@) == verdi(kort0),
            decreases lengste@.len() - korteste@.len(),
        {
            proof {
                lemma_nuller_foran(korteste@);
            }
            korteste.sett_inn_foran(0);
        }
        let n = lengste.sifre.len();
        let mut mente: u32 = 0;
        let mut k: usize = 0;
        proof {
            lemma_pot10_positiv(0);
            assert(hale(lengste@, 0) =~= Seq::<u32>::empty());
            assert(hale(korteste@, 0) =~= Seq::<u32>::empty());
        }
        while k < n
            invariant
                n == lengste@.len(),
                n == korteste@.len(),
                lengste.er_gyldig(),
                korteste.er_gyldig(),
                sum.er_gyldig(),
                k <= n,
                sum@.len() == k,
                mente <= 1,
                verdi(hale(lengste@, k as int)) + verdi(hale(korteste@, k as int)) == mente * pot10(k as int) + verdi(sum@),
            decreases n - k,
        {
            let i = n - 1 - k;
            let a = lengste.sifre[i];
            let b = korteste.sifre[i];
            let verdisum = a + b + mente;
            proof {
                lemma_hale_steg(lengste@, k as int);
                lemma_hale_steg(korteste@, k as int);
                lemma_verdi_foran(verdisum % 10, sum@);
                let p = pot10(k as int);
                assert(pot10(k + 1) == 10 * p);
                assert(a * p + b * p + mente * p == (verdisum % 10) * p + (verdisum / 10) * (10 * p)) by (nonlinear_arith)
                    requires verdisum == a + b + mente;
            }
            sum.sett_inn_foran(verdisum % 10);
            mente = verdisum / 10;
            k = k + 1;
        }
        proof {
            assert(hale(lengste@, n as int) =~= lengste@);
            assert(hale(korteste@, n as int) =~= korteste@);
            lemma_verdi_grense(sum@);
            lemma_verdi_foran(mente, sum@);
        }
        if mente > 0 {
            sum.sett_inn_foran(mente);
        }
        sum
    }

    /// Differansen mellom to tall, med like mange sifre som `self`. Bare de
    /// laveste sifrene i `rhs` brukes når den er lengre, og et lån ut av det
    /// høyeste sifferet forsvinner, så differansen regnes modulo 10 opphøyd i
    /// antall sifre.
    pub fn sub(self, rhs: Tall) -> (diff: Tall)
        requires
            self.er_gyldig(),
            rhs.er_gyldig(),
        ensures
            diff.er_gyldig(),
            diff@.len() == self@.len(),
            verdi(diff@) == (verdi(self@) - verdi(rhs@)) % pot10(self@.len() as int),
    {
        let mut diff = Tall::new();
        let mut rhs_kopi = rhs;
        let ghost b0 = rhs_kopi@;
        while rhs_kopi.sifre.len() < self.sifre.len()
            invariant
                rhs_kopi.er_gyldig(),
                verdi(rhs_kopi@) == verdi(b0),
            decreases self@.len() - rhs_kopi@.len(),
        {
            proof {
                lemma_nuller_foran(rhs_kopi@);
            }
            rhs_kopi.sett_inn_foran(0);
        }
        let n = self.sifre.len();
        let r = rhs_kopi.sifre.len();
        let mut laan: i32 = 0;
        let mut k: usize = 0;
        proof {
            lemma_pot10_positiv(0);
            assert(hale(self@, 0) =~= Seq::<u32>::empty());
            assert(hale(rhs_kopi@, 0) =~= Seq::<u32>::empty());
        }
        while k < n
            invariant
                n == self@.len(),
                r == rhs_kopi@.len(),
                n <= r,
                self.er_gyldig(),
                rhs_kopi.er_gyldig(),
                diff.er_gyldig(),
                k <= n,
                diff@.len() == k,
                0 <= laan <= 1,
                verdi(hale(self@, k as int)) - verdi(hale(rhs_kopi@, k as int)) == verdi(diff@) - laan * pot10(k as int),
            decreases n - k,
        {
            let a = self.sifre[n - 1 - k];
            let b = rhs_kopi.sifre[r - 1 - k];
            let verdidiff: i32 = a as i32 - b as i32 - laan;
            let ghost l0 = laan;
            let siffer: u32 = if verdidiff < 0 {
                laan = 1;
                (10 + verdidiff) as u32
            } else {
                laan = 0;
                verdidiff as u32
            };
            proof {
                lemma_hale_steg(self@, k as int);
                lemma_hale_steg(rhs_kopi@, k as int);
                lemma_verdi_foran(siffer, diff@);
                let p = pot10(k as int);
                assert(pot10(k + 1) == 10 * p);
                assert(a * p - b * p - l0 * p == siffer * p - laan * (10 * p)) by (nonlinear_arith)
                    requires siffer - 10 * laan == a - b - l0;
            }
            diff.sett_inn_foran(siffer);
            k = k + 1;
        }
        proof {
            assert(hale(self@, n as int) =~= self@);
            lemma_verdi_grense(diff@);
            lemma_hale_rest(rhs_kopi@, n as int);
            let p = pot10(n as int);
            let q = verdi(rhs_kopi@.take(r - n));
            let bh = verdi(hale(rhs_kopi@, n as int));
            assert(verdi(self@) - verdi(rhs@) == verdi(diff@) + (0 - laan - q) * p) by (nonlinear_arith)
                requires verdi(self@) - bh == verdi(diff@) - laan * p, verdi(rhs@) == q * p + bh;
            crate::huffman::lemma_divmod(verdi(self@) - verdi(rhs@), p, 0 - laan - q, verdi(diff@));
        }
        diff
    }
}

} // verus!
