//! LZ77-komprimering med blokker: en ukomprimert blokk er en positiv 16-bits
//! lengde (stor-endian) fulgt av så mange bytes, og en komprimert blokk er en
//! negativ 16-bits avstand bakover fulgt av én byte med lengden som skal kopieres.
use vstd::prelude::*;

verus! {

/// Lengden på felles løp i `data` fra `hopp + k` og `slutt + k`, der kilden
/// må ligge før `slutt` og løpet er på høyst 255 bytes.
pub open spec fn treff_fra(data: Seq<u8>, hopp: int, slutt: int, k: int) -> int
    decreases 255 - k,
{
    if k < 255 && 0 <= hopp + k && hopp + k < slutt && slutt + k < data.len() && data[hopp
        + k] == data[slutt + k] {
        treff_fra(data, hopp, slutt, k + 1)
    } else {
        k
    }
}

/// Lengden på treffet mellom bytene fra `hopp` og bytene fra `slutt`.
pub open spec fn treff(data: Seq<u8>, hopp: int, slutt: int) -> int {
    treff_fra(data, hopp, slutt, 0)
}

/// Første posisjon det søkes fra når treff for posisjon `posisjon` letes etter.
pub open spec fn sokestart(posisjon: int) -> int {
    if posisjon > 255 {
        posisjon - 255
    } else {
        0
    }
}

/// Det beste treffet blant kildene `start .. h` for `posisjon`, som
/// `(avstand bakover, lengde)`: det lengste, og blant like lange det første
/// (altså det lengst bak).
pub open spec fn beste_til(data: Seq<u8>, posisjon: int, start: int, h: int) -> (int, int)
    decreases h - start,
{
    if h <= start {
        (0, 0)
    } else {
        let forrige = beste_til(data, posisjon, start, h - 1);
        let m = treff(data, h - 1, posisjon);
        if m > forrige.1 {
            (posisjon - (h - 1), m)
        } else {
            forrige
        }
    }
}

/// Det beste treffet for `posisjon`: `(avstand bakover, lengde)`.
pub open spec fn beste(data: Seq<u8>, posisjon: int) -> (int, int) {
    beste_til(data, posisjon, sokestart(posisjon), posisjon)
}

/// Første posisjon fra og med `p` der en ukomprimert blokk må slutte:
/// slutten av dataen, eller en posisjon med treff på minst fire bytes.
pub open spec fn literal_slutt(data: Seq<u8>, p: int) -> int
    decreases data.len() - p,
{
    if p >= data.len() || beste(data, p).1 >= 4 {
        p
    } else {
        literal_slutt(data, p + 1)
    }
}

/// To bytes i stor-endian rekkefølge for et 16-bits bitmønster `u`.
pub open spec fn stor_endian(u: int) -> Seq<u8> {
    seq![(u / 256) as u8, (u % 256) as u8]
}

/// Hodet til en ukomprimert blokk med `n` bytes (lengden avkortet til 16 bits).
pub open spec fn lengdehode(n: int) -> Seq<u8> {
    stor_endian(n % 65536)
}

/// Hodet til en komprimert blokk med avstand `d` bakover (`-d` som 16 bits).
pub open spec fn hopphode(d: int) -> Seq<u8> {
    stor_endian(65536 - d)
}

/// Det `komprimer` skriver for dataen fra og med `posisjon`.
pub open spec fn lz_komp(data: Seq<u8>, posisjon: int) -> Seq<u8>
    decreases data.len() - posisjon,
{
    if posisjon < 0 || posisjon >= data.len() {
        seq![]
    } else {
        let b = beste(data, posisjon);
        proof {
            lemma_beste(data, posisjon);
        }
        if b.1 >= 4 {
            hopphode(b.0) + seq![b.1 as u8] + lz_komp(data, posisjon + b.1)
        } else {
            let q = literal_slutt(data, posisjon + 1);
            proof {
                lemma_literal_slutt(data, posisjon + 1);
            }
            lengdehode(q - posisjon) + data.subrange(posisjon, q) + lz_komp(data, q)
        }
    }
}

/// Alle ukomprimerte blokker `komprimer` lager fra og med `posisjon` er
/// kortere enn 32768 bytes, så lengden deres får plass i hodet.
pub open spec fn literaler_korte(data: Seq<u8>, posisjon: int) -> bool
    decreases data.len() - posisjon,
{
    if posisjon < 0 || posisjon >= data.len() {
        true
    } else {
        let b = beste(data, posisjon);
        proof {
            lemma_beste(data, posisjon);
        }
        if b.1 >= 4 {
            literaler_korte(data, posisjon + b.1)
        } else {
            let q = literal_slutt(data, posisjon + 1);
            proof {
                lemma_literal_slutt(data, posisjon + 1);
            }
            q - posisjon < 32768 && literaler_korte(data, q)
        }
    }
}

/// Utfallet av å dekomprimere.
pub enum LzUtfall {
    /// Dekomprimeringen gikk gjennom, med denne dataen.
    Ferdig(Seq<u8>),
    /// Dataen sluttet midt i en blokk.
    Feil,
    /// Dataen ber om en kopi fra før starten av resultatet, fra avstand 0,
    /// eller har avstanden -32768, som ikke har noen absoluttverdi i 16 bits.
    Panikk,
}

/// Kopierer `l` bytes, én om gangen, fra `hopp` bytes bak slutten av `ut`.
pub open spec fn kopier(ut: Seq<u8>, hopp: int, l: int) -> Seq<u8>
    decreases l,
{
    if l <= 0 {
        ut
    } else {
        kopier(ut.push(ut[ut.len() - hopp]), hopp, l - 1)
    }
}

/// Tolker resten av komprimert data, med `ut` allerede dekomprimert.
pub open spec fn lz_dekod(rest: Seq<u8>, ut: Seq<u8>) -> LzUtfall
    decreases rest.len(),
{
    if rest.len() == 0 {
        LzUtfall::Ferdig(ut)
    } else if rest.len() < 2 {
        LzUtfall::Feil
    } else {
        let h = rest[0] * 256 + rest[1];
        if 1 <= h <= 32767 {
            if rest.len() < 2 + h {
                LzUtfall::Feil
            } else {
                lz_dekod(rest.skip(2 + h), ut + rest.subrange(2, 2 + h))
            }
        } else if rest.len() < 3 {
            LzUtfall::Feil
        } else if h == 32768 {
            LzUtfall::Panikk
        } else {
            let hopp = if h == 0 {
                0
            } else {
                65536 - h
            };
            let l = rest[2] as int;
            if l > 0 && (hopp == 0 || hopp > ut.len()) {
                LzUtfall::Panikk
            } else {
                lz_dekod(rest.skip(3), kopier(ut, hopp, l))
            }
        }
    }
}

/// Meldingen `dekomprimer` gir når dataen slutter midt i en blokk.
pub open spec fn feilmelding() -> Seq<char> {
    "En uventet feil oppsto ved dekomprimering"@
}

proof fn lemma_treff_fra(data: Seq<u8>, hopp: int, slutt: int, k: int)
    requires
        0 <= k <= 255,
    ensures
        k <= treff_fra(data, hopp, slutt, k) <= 255,
        treff_fra(data, hopp, slutt, k) > k ==> 0 <= hopp + k && hopp + treff_fra(data, hopp, slutt, k) <= slutt
            && slutt + treff_fra(data, hopp, slutt, k) <= data.len(),
        forall|j: int|
            k <= j < treff_fra(data, hopp, slutt, k) ==> #[trigger] data[hopp + j] == data[slutt + j],
    decreases 255 - k,
{
    if k < 255 && 0 <= hopp + k && hopp + k < slutt && slutt + k < data.len() && data[hopp + k]
        == data[slutt + k] {
        lemma_treff_fra(data, hopp, slutt, k + 1);
    }
}

/// Egenskapene til et treff: lengden er høyst 255, kilden ligger før
/// `slutt`, og bytene er like.
pub proof fn lemma_treff(data: Seq<u8>, hopp: int, slutt: int)
    ensures
        0 <= treff(data, hopp, slutt) <= 255,
        treff(data, hopp, slutt) > 0 ==> 0 <= hopp && hopp + treff(data, hopp, slutt) <= slutt
            && slutt + treff(data, hopp, slutt) <= data.len(),
        forall|j: int| 0 <= j < treff(data, hopp, slutt) ==> #[trigger] data[hopp + j] == data[slutt + j],
{
    lemma_treff_fra(data, hopp, slutt, 0);
}

proof fn lemma_beste_til(data: Seq<u8>, posisjon: int, start: int, h: int)
    requires
        0 <= start,
    ensures
        0 <= beste_til(data, posisjon, start, h).1 <= 255,
        beste_til(data, posisjon, start, h).1 == 0 ==> beste_til(data, posisjon, start, h).0 == 0,
        beste_til(data, posisjon, start, h).1 > 0 ==> {
            let d = beste_til(data, posisjon, start, h).0;
            &&& start <= posisjon - d < h
            &&& treff(data, posisjon - d, posisjon) == beste_til(data, posisjon, start, h).1
        },
    decreases h - start,
{
    if h > start {
        lemma_beste_til(data, posisjon, start, h - 1);
        lemma_treff(data, h - 1, posisjon);
    }
}

/// Egenskapene til det beste treffet: avstanden er mellom 1 og 255 og ikke
/// lenger bak enn starten, og treffet finnes der.
pub proof fn lemma_beste(data: Seq<u8>, posisjon: int)
    requires
        0 <= posisjon,
    ensures
        0 <= beste(data, posisjon).1 <= 255,
        beste(data, posisjon).1 == 0 ==> beste(data, posisjon).0 == 0,
        beste(data, posisjon).1 > 0 ==> {
            let d = beste(data, posisjon).0;
            &&& 1 <= d <= 255
            &&& d <= posisjon
            &&& posisjon + beste(data, posisjon).1 <= data.len()
            &&& forall|j: int|
                0 <= j < beste(data, posisjon).1 ==> #[trigger] data[posisjon - d + j] == data[posisjon + j]
        },
{
    lemma_beste_til(data, posisjon, sokestart(posisjon), posisjon);
    if beste(data, posisjon).1 > 0 {
        let d = beste(data, posisjon).0;
        lemma_treff(data, posisjon - d, posisjon);
        assert forall|j: int| 0 <= j < beste(data, posisjon).1 implies #[trigger] data[posisjon - d + j]
            == data[posisjon + j] by {
            assert(data[(posisjon - d) + j] == data[posisjon + j]);
        }
    }
}

/// `literal_slutt` ligger mellom `p` og slutten av dataen, og ingen posisjon
/// før den har et treff på fire bytes.
pub proof fn lemma_literal_slutt(data: Seq<u8>, p: int)
    ensures
        literal_slutt(data, p) >= p,
        p <= data.len() ==> literal_slutt(data, p) <= data.len(),
        literal_slutt(data, p) >= data.len() || beste(data, literal_slutt(data, p)).1 >= 4,
        forall|r: int|
            p <= r < literal_slutt(data, p) ==> r < data.len() && #[trigger] beste(data, r).1 < 4,
    decreases data.len() - p,
{
    if !(p >= data.len() || beste(data, p).1 >= 4) {
        lemma_literal_slutt(data, p + 1);
        assert(literal_slutt(data, p) == literal_slutt(data, p + 1));
    } else {
        assert(literal_slutt(data, p) == p);
    }
}

proof fn lemma_kopier(data: Seq<u8>, p: int, d: int, l: int)
    requires
        1 <= d <= p,
        0 <= l,
        p + l <= data.len(),
        forall|j: int| 0 <= j < l ==> #[trigger] data[p - d + j] == data[p + j],
    ensures
        kopier(data.take(p), d, l) == data.take(p + l),
    decreases l,
{
    if l > 0 {
        let ut = data.take(p);
        assert(ut[ut.len() - d] == data[p - d]);
        assert(data[p - d + 0] == data[p + 0]);
        assert(ut.push(ut[ut.len() - d]) =~= data.take(p + 1));
        assert forall|j: int| 0 <= j < l - 1 implies #[trigger] data[(p + 1) - d + j] == data[(p + 1)
            + j] by {
            assert(data[p - d + (j + 1)] == data[p + (j + 1)]);
        }
        lemma_kopier(data, p + 1, d, l - 1);
    }
}

proof fn lemma_komp_dekod(data: Seq<u8>, posisjon: int)
    requires
        0 <= posisjon <= data.len(),
        literaler_korte(data, posisjon),
    ensures
        lz_dekod(lz_komp(data, posisjon), data.take(posisjon)) == LzUtfall::Ferdig(data),
    decreases data.len() - posisjon,
{
    if posisjon == data.len() {
        assert(data.take(posisjon) =~= data);
    } else {
        let b = beste(data, posisjon);
        lemma_beste(data, posisjon);
        let e = lz_komp(data, posisjon);
        if b.1 >= 4 {
            let rest = lz_komp(data, posisjon + b.1);
            assert(e =~= hopphode(b.0) + seq![b.1 as u8] + rest);
            let h = e[0] * 256 + e[1];
            assert(h == 65536 - b.0);
            assert(e.skip(3) =~= rest);
            lemma_kopier(data, posisjon, b.0, b.1);
            lemma_komp_dekod(data, posisjon + b.1);
        } else {
            let q = literal_slutt(data, posisjon + 1);
            lemma_literal_slutt(data, posisjon + 1);
            let n = q - posisjon;
            let rest = lz_komp(data, q);
            assert(e =~= lengdehode(n) + data.subrange(posisjon, q) + rest);
            let h = e[0] * 256 + e[1];
            assert(h == n);
            assert(e.skip(2 + h) =~= rest);
            assert(e.subrange(2, 2 + h) =~= data.subrange(posisjon, q));
            assert(data.take(posisjon) + data.subrange(posisjon, q) =~= data.take(q));
            lemma_komp_dekod(data, q);
        }
    }
}

/// Dekomprimering gir tilbake dataen som ble komprimert, så lenge ingen
/// ukomprimert blokk er på 32768 bytes eller mer (da får ikke lengden plass i
/// det 16-bits hodet).
pub proof fn lz77_tur_retur(data: Seq<u8>)
    requires
        literaler_korte(data, 0),
    ensures
        lz_dekod(lz_komp(data, 0), seq![]) == LzUtfall::Ferdig(data),
{
    assert(data.take(0) =~= seq![]);
    lemma_komp_dekod(data, 0);
}

/// Data kortere enn 32768 bytes har bare korte ukomprimerte blokker.
pub proof fn lemma_kort_data_korte_literaler(data: Seq<u8>, posisjon: int)
    requires
        data.len() < 32768,
        0 <= posisjon,
    ensures
        literaler_korte(data, posisjon),
    decreases data.len() - posisjon,
{
    if posisjon < data.len() {
        let b = beste(data, posisjon);
        lemma_beste(data, posisjon);
        if b.1 >= 4 {
            lemma_kort_data_korte_literaler(data, posisjon + b.1);
        } else {
            let q = literal_slutt(data, posisjon + 1);
            lemma_literal_slutt(data, posisjon + 1);
            lemma_kort_data_korte_literaler(data, q);
        }
    }
}

/// Finner det lengste treffet for `posisjon` blant de 255 foregående
/// posisjonene. Gir `(-avstand, lengde)`; blant like lange treff velges det
/// som ligger lengst bak.
pub fn finn_lengste_treff(data: &[u8], posisjon: usize) -> (res: (i16, u8))
    ensures
        res.0 as int == -beste(data@, posisjon as int).0,
        res.1 as int == beste(data@, posisjon as int).1,
{
    let mut beste_hopp: i16 = 0;
    let mut beste_lengde: u8 = 0;
    let start: usize = if posisjon > 255 {
        posisjon - 255
    } else {
        0
    };
    let mut hopp: usize = start;
    proof {
        lemma_beste_til(data@, posisjon as int, start as int, start as int);
    }
    while hopp < posisjon
        invariant
            start == sokestart(posisjon as int),
            start <= hopp <= posisjon,
            beste_hopp as int == beste_til(data@, posisjon as int, start as int, hopp as int).0,
            beste_lengde as int == beste_til(data@, posisjon as int, start as int, hopp as int).1,
            0 <= beste_hopp <= 255,
        decreases posisjon - hopp,
    {
        let len = matcher(data, hopp, posisjon);
        proof {
            lemma_beste_til(data@, posisjon as int, start as int, hopp as int + 1);
            lemma_beste_til(data@, posisjon as int, start as int, hopp as int);
        }
        if len > beste_lengde {
            beste_hopp = (posisjon - hopp) as i16;
            beste_lengde = len;
        }
        hopp = hopp + 1;
    }
    (-beste_hopp, beste_lengde)
}

/// Lengden på treffet mellom bytene fra `hopp` og bytene fra `slutt`: hvor
/// mange bytes på rad som er like, uten at kilden når `slutt` og uten å gå
/// forbi slutten av dataen, høyst 255.
pub fn matcher(data: &[u8], hopp: usize, slutt: usize) -> (lengde: u8)
    ensures
        lengde as int == treff(data@, hopp as int, slutt as int),
{
    let mut hopp = hopp;
    let mut posisjon = slutt;
    let mut lengde: u8 = 0;
    let ghost h0 = hopp as int;
    while hopp < posisjon && posisjon < data.len() && lengde < 255 && hopp < slutt && data[hopp]
        == data[posisjon]
        invariant
            hopp as int == h0 + lengde,
            posisjon as int == slutt + lengde,
            lengde <= 255,
            treff_fra(data@, h0, slutt as int, lengde as int) == treff(data@, h0, slutt as int),
        decreases 255 - lengde,
    {
        hopp = hopp + 1;
        posisjon = posisjon + 1;
        lengde = lengde + 1;
    }
    lengde
}

/// Skriver `u` som to bytes i stor-endian rekkefølge.
fn skriv_stor_endian(ut: &mut Vec<u8>, u: u32)
    requires
        u < 65536,
    ensures
        final(ut)@ == old(ut)@ + stor_endian(u as int),
{
    ut.push((u / 256) as u8);
    ut.push((u % 256) as u8);
    assert(final(ut)@ =~= old(ut)@ + stor_endian(u as int));
}

/// Komprimerer dataen med LZ77: gjentatte løp på minst fire bytes blir
/// erstattet med en henvisning bakover, resten skrives i ukomprimerte blokker.
pub fn komprimer(data: &[u8]) -> (komprimert: Vec<u8>)
    ensures
        komprimert@ == lz_komp(data@, 0),
{
    let mut komprimert: Vec<u8> = Vec::new();
    let mut posisjon: usize = 0;
    let mut ukomprimert: Vec<u8> = Vec::new();
    while posisjon < data.len()
        invariant
            posisjon <= data@.len(),
            ukomprimert@.len() == 0,
            komprimert@ + lz_komp(data@, posisjon as int) == lz_komp(data@, 0),
        decreases data@.len() - posisjon,
    {
        let ghost p0 = posisjon as int;
        let (mut hopp, mut lengde) = finn_lengste_treff(data, posisjon);
        proof {
            lemma_beste(data@, p0);
        }
        if lengde < 4 {
            ukomprimert.push(data[posisjon]);
            posisjon = posisjon + 1;
            let treff = finn_lengste_treff(data, posisjon);
            hopp = treff.0;
            lengde = treff.1;
            proof {
                lemma_literal_slutt(data@, p0 + 1);
            }
            while lengde < 4 && posisjon < data.len()
                invariant
                    0 <= p0 < posisjon <= data@.len(),
                    ukomprimert@ == data@.subrange(p0, posisjon as int),
                    literal_slutt(data@, posisjon as int) == literal_slutt(data@, p0 + 1),
                    hopp as int == -beste(data@, posisjon as int).0,
                    lengde as int == beste(data@, posisjon as int).1,
                decreases data@.len() - posisjon,
            {
                let ghost u0 = ukomprimert@;
                let x = data[posisjon];
                ukomprimert.push(x);
                assert(ukomprimert@ == u0.push(data@[posisjon as int]));
                assert(ukomprimert@ =~= data@.subrange(p0, posisjon as int + 1));
                posisjon = posisjon + 1;
                let treff = finn_lengste_treff(data, posisjon);
                hopp = treff.0;
                lengde = treff.1;
            }
            let ghost q = posisjon as int;
            proof {
                lemma_literal_slutt(data@, q);
                assert(literal_slutt(data@, q) == q);
                assert(lz_komp(data@, p0) == lengdehode(q - p0) + data@.subrange(p0, q) + lz_komp(
                    data@,
                    q,
                ));
            }
            let n = ukomprimert.len();
            skriv_stor_endian(&mut komprimert, (n % 65536) as u32);
            komprimert.append(&mut ukomprimert);
            proof {
                lemma_beste(data@, q);
            }
            if lengde > 3 {
                let avstand: u32 = (-(hopp as i32)) as u32;
                skriv_stor_endian(&mut komprimert, 65536 - avstand);
                komprimert.push(lengde);
                assert(lz_komp(data@, q) == hopphode(avstand as int) + seq![lengde] + lz_komp(
                    data@,
                    q + lengde,
                ));
            }
            posisjon = posisjon + lengde as usize;
            assert(komprimert@ + lz_komp(data@, posisjon as int) =~= lz_komp(data@, 0));
        } else {
            let avstand: u32 = (-(hopp as i32)) as u32;
            skriv_stor_endian(&mut komprimert, 65536 - avstand);
            komprimert.push(lengde);
            posisjon = posisjon + lengde as usize;
            assert(komprimert@ + lz_komp(data@, posisjon as int) =~= lz_komp(data@, 0));
        }
    }
    assert(lz_komp(data@, posisjon as int) =~= seq![]);
    assert(komprimert@ =~= komprimert@ + lz_komp(data@, posisjon as int));
    komprimert
}

/// Dekomprimerer data laget av `komprimer`. Gir feilmeldingen når dataen
/// slutter midt i en blokk.
pub fn dekomprimer(data: &[u8]) -> (res: Result<Vec<u8>, String>)
    requires
        lz_dekod(data@, seq![]) != LzUtfall::Panikk,
    ensures
        match lz_dekod(data@, seq![]) {
            LzUtfall::Ferdig(ut) => res is Ok && res->Ok_0@ == ut,
            _ => res is Err && res->Err_0@ == feilmelding(),
        },
{
    let mut dekomprimert: Vec<u8> = Vec::new();
    let mut posisjon: usize = 0;
    assert(data@.skip(0) =~= data@);
    while posisjon < data.len()
        invariant
            posisjon <= data@.len(),
            lz_dekod(data@, seq![]) != LzUtfall::Panikk,
            lz_dekod(data@.skip(posisjon as int), dekomprimert@) == lz_dekod(data@, seq![]),
        decreases data@.len() - posisjon,
    {
        let ghost rest = data@.skip(posisjon as int);
        if data.len() - posisjon < 2 {
            return Err(String::from_str("En uventet feil oppsto ved dekomprimering"));
        }
        let hode: u32 = data[posisjon] as u32 * 256 + data[posisjon + 1] as u32;
        assert(rest[0] == data@[posisjon as int] && rest[1] == data@[posisjon + 1]);
        assert(hode == rest[0] * 256 + rest[1]);
        let ghost ut_start = dekomprimert@;
        posisjon = posisjon + 2;
        if 1 <= hode && hode <= 32767 {
            let n = hode as usize;
            if data.len() - posisjon < n {
                return Err(String::from_str("En uventet feil oppsto ved dekomprimering"));
            }
            let ghost ut0 = dekomprimert@;
            let mut k: usize = 0;
            while k < n
                invariant
                    posisjon + n <= data@.len(),
                    data@.len() <= usize::MAX,
                    k <= n,
                    dekomprimert@ == ut0 + data@.subrange(posisjon as int, posisjon + k),
                decreases n - k,
            {
                assert(posisjon + k < data@.len());
                dekomprimert.push(data[posisjon + k]);
                assert(dekomprimert@ =~= ut0 + data@.subrange(posisjon as int, posisjon + k + 1));
                k = k + 1;
            }
            assert(rest.skip(2 + hode) =~= data@.skip(posisjon + n));
            assert(rest.subrange(2, 2 + hode) =~= data@.subrange(posisjon as int, posisjon + n));
            assert(lz_dekod(rest, ut_start) == lz_dekod(rest.skip(2 + hode), ut_start + rest.subrange(2, 2 + hode)));
            posisjon = posisjon + n;
        } else {
            if data.len() - posisjon < 1 {
                return Err(String::from_str("En uventet feil oppsto ved dekomprimering"));
            }
            let blokklengde = data[posisjon] as usize;
            assert(rest[2] == data@[posisjon as int]);
            posisjon = posisjon + 1;
            let hopp: usize = if hode == 0 {
                0
            } else {
                (65536 - hode) as usize
            };
            let ghost ut0 = dekomprimert@;
            let mut k: usize = 0;
            while k < blokklengde
                invariant
                    k <= blokklengde,
                    blokklengde > 0 ==> 1 <= hopp <= ut0.len(),
                    kopier(dekomprimert@, hopp as int, blokklengde - k) == kopier(ut0, hopp as int, blokklengde as int),
                    dekomprimert@.len() == ut0.len() + k,
                decreases blokklengde - k,
            {
                let x = dekomprimert[dekomprimert.len() - hopp];
                dekomprimert.push(x);
                k = k + 1;
            }
            assert(rest.skip(3) =~= data@.skip(posisjon as int));
            assert(lz_dekod(rest, ut_start) == lz_dekod(rest.skip(3), kopier(ut_start, hopp as int, blokklengde as int)));
            assert(kopier(dekomprimert@, hopp as int, 0) == dekomprimert@);
        }
    }
    assert(data@.skip(posisjon as int) =~= seq![]);
    Ok(dekomprimert)
}

/// Om dekomprimering av `rest`, med `lengde` bytes alt dekomprimert, får
/// panikk: det avgjøres av lengdene alene, ikke av bytene som kopieres.
pub open spec fn lz_panikk(rest: Seq<u8>, lengde: int) -> bool
    decreases rest.len(),
{
    if rest.len() < 2 {
        false
    } else {
        let h = rest[0] * 256 + rest[1];
        if 1 <= h <= 32767 {
            if rest.len() < 2 + h {
                false
            } else {
                lz_panikk(rest.skip(2 + h), lengde + h)
            }
        } else if rest.len() < 3 {
            false
        } else if h == 32768 {
            true
        } else {
            let hopp = if h == 0 {
                0
            } else {
                65536 - h
            };
            let l = rest[2] as int;
            if l > 0 && (hopp == 0 || hopp > lengde) {
                true
            } else {
                lz_panikk(rest.skip(3), lengde + l)
            }
        }
    }
}

/// Å kopiere `l` bytes gjør resultatet `l` bytes lengre.
proof fn lemma_kopier_lengde(ut: Seq<u8>, hopp: int, l: int)
    ensures
        kopier(ut, hopp, l).len() == ut.len() + if l > 0 { l } else { 0 },
    decreases l,
{
    if l > 0 {
        lemma_kopier_lengde(ut.push(ut[ut.len() - hopp]), hopp, l - 1);
    }
}

/// Panikk ved dekomprimering er det `lz_panikk` sier.
proof fn lemma_panikk(rest: Seq<u8>, ut: Seq<u8>)
    ensures
        (lz_dekod(rest, ut) == LzUtfall::Panikk) == lz_panikk(rest, ut.len() as int),
    decreases rest.len(),
{
    if rest.len() >= 2 {
        let h = rest[0] * 256 + rest[1];
        if 1 <= h <= 32767 {
            if rest.len() >= 2 + h {
                lemma_panikk(rest.skip(2 + h), ut + rest.subrange(2, 2 + h));
            }
        } else if rest.len() >= 3 && h != 32768 {
            let hopp = if h == 0 {
                0
            } else {
                65536 - h
            };
            let l = rest[2] as int;
            if !(l > 0 && (hopp == 0 || hopp > ut.len())) {
                lemma_kopier_lengde(ut, hopp, l);
                lemma_panikk(rest.skip(3), kopier(ut, hopp, l));
            }
        }
    }
}

/// Om `dekomprimer` kan kjøres på dataen uten panikk.
pub fn kan_dekomprimeres(data: &[u8]) -> (res: bool)
    ensures
        res == (lz_dekod(data@, seq![]) != LzUtfall::Panikk),
{
    proof {
        lemma_panikk(data@, seq![]);
    }
    let mut lengde: u128 = 0;
    let mut posisjon: usize = 0;
    assert(data@.skip(0) =~= data@);
    while posisjon < data.len()
        invariant
            posisjon <= data@.len(),
            lengde <= 255 * posisjon,
            (lz_dekod(data@, seq![]) == LzUtfall::Panikk) == lz_panikk(data@, 0),
            lz_panikk(data@.skip(posisjon as int), lengde as int) == lz_panikk(data@, 0),
        decreases data@.len() - posisjon,
    {
        let ghost rest = data@.skip(posisjon as int);
        if data.len() - posisjon < 2 {
            return true;
        }
        let hode: u32 = data[posisjon] as u32 * 256 + data[posisjon + 1] as u32;
        assert(rest[0] == data@[posisjon as int] && rest[1] == data@[posisjon + 1]);
        if 1 <= hode && hode <= 32767 {
            let n = hode as usize;
            if data.len() - posisjon - 2 < n {
                return true;
            }
            assert(rest.skip(2 + hode) =~= data@.skip(posisjon + 2 + n));
            lengde = lengde + hode as u128;
            posisjon = posisjon + 2 + n;
        } else {
            if data.len() - posisjon < 3 {
                return true;
            }
            if hode == 32768 {
                return false;
            }
            assert(rest[2] == data@[posisjon + 2]);
            let hopp: u128 = if hode == 0 {
                0
            } else {
                (65536 - hode) as u128
            };
            let l = data[posisjon + 2] as u128;
            if l > 0 && (hopp == 0 || hopp > lengde) {
                return false;
            }
            assert(rest.skip(3) =~= data@.skip(posisjon + 3));
            lengde = lengde + l;
            posisjon = posisjon + 3;
        }
    }
    assert(data@.skip(posisjon as int) =~= seq![]);
    true
}

} // verus!
