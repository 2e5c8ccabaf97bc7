//! Telling av hvor mange ganger hver byte forekommer i data, med bytene i
//! stigende rekkefølge.
use vstd::prelude::*;

verus! {

/// En byte og hvor mange ganger den forekommer.
#[derive(Debug)]
pub struct ByteFrekvens {
    pub byte: u8,
    pub frekvens: u32,
}

impl ByteFrekvens {
    /// En byte som ikke er talt ennå.
    pub fn ny(byte: u8) -> (res: Self)
        ensures
            res.byte == byte,
            res.frekvens == 0,
    {
        Self { byte, frekvens: 0 }
    }

    /// Teller én forekomst til.
    pub fn ok(&mut self)
        requires
            old(self).frekvens < u32::MAX,
        ensures
            final(self).byte == old(self).byte,
            final(self).frekvens == old(self).frekvens + 1,
    {
        self.frekvens = self.frekvens + 1;
    }
}

/// Hvor mange ganger `b` forekommer i `s`.
pub open spec fn antall(s: Seq<u8>, b: int) -> nat
    decreases s.len(),
{
    if s.len() == 0 {
        0
    } else {
        antall(s.drop_last(), b) + if s.last() == b { 1nat } else { 0nat }
    }
}

/// Den største byten i `s`.
pub open spec fn storste(s: Seq<u8>) -> int
    decreases s.len(),
{
    if s.len() == 0 {
        -1
    } else {
        let m = storste(s.drop_last());
        if s.last() > m { s.last() as int } else { m }
    }
}

/// Bytene under `b` som forekommer i `s`, i stigende rekkefølge, med antall.
pub open spec fn frekvenser_under(s: Seq<u8>, b: int) -> Seq<(u8, u32)>
    decreases b,
{
    if b <= 0 {
        Seq::empty()
    } else {
        let f = frekvenser_under(s, b - 1);
        if antall(s, b - 1) > 0 { f.push(((b - 1) as u8, antall(s, b - 1) as u32)) } else { f }
    }
}

/// Frekvensene `frekvenser` gir: hver byte som forekommer, i stigende
/// rekkefølge med antall, unntatt den største.
pub open spec fn frekvenser_spec(s: Seq<u8>) -> Seq<(u8, u32)> {
    frekvenser_under(s, storste(s))
}

/// Frekvensene som par av byte og antall.
pub open spec fn som_par(f: Seq<ByteFrekvens>) -> Seq<(u8, u32)> {
    f.map_values(|x: ByteFrekvens| (x.byte, x.frekvens))
}

/// Den største byten forekommer, og ingen byte over den.
pub proof fn lemma_storste(s: Seq<u8>, b: int)
    ensures
        s.len() > 0 ==> 0 <= storste(s) < 256 && antall(s, storste(s)) > 0,
        s.len() == 0 ==> storste(s) == -1,
        b > storste(s) ==> antall(s, b) == 0,
    decreases s.len(),
{
    if s.len() > 0 {
        lemma_storste(s.drop_last(), b);
        lemma_storste(s.drop_last(), storste(s));
    }
}

/// Tellingen av `s` etter at `x` er lagt til.
pub proof fn lemma_antall_push(s: Seq<u8>, x: u8, b: int)
    ensures
        antall(s.push(x), b) == antall(s, b) + if x == b { 1nat } else { 0nat },
{
    assert(s.push(x).drop_last() =~= s);
}

/// Ingen byte forekommer oftere enn det er bytes.
pub proof fn lemma_antall_grense(s: Seq<u8>, b: int)
    ensures
        antall(s, b) <= s.len(),
    decreases s.len(),
{
    if s.len() > 0 {
        lemma_antall_grense(s.drop_last(), b);
    }
}

/// Teller bytene i dataene og gir dem i stigende rekkefølge med antall,
/// unntatt den største byten.
pub fn frekvenser(data: &[u8]) -> (res: Vec<ByteFrekvens>)
    requires
        data@.len() > 0,
        forall|b: int| 0 <= b < 256 ==> #[trigger] antall(data@, b) <= u32::MAX,
    ensures
        som_par(res@) == frekvenser_spec(data@),
{
    let mut tellere: Vec<u32> = Vec::new();
    let mut b: usize = 0;
    while b < 256
        invariant
            b <= 256,
            tellere@ == Seq::new(b as nat, |i: int| 0u32),
        decreases 256 - b,
    {
        tellere.push(0);
        b = b + 1;
    }
    let mut storst: u8 = data[0];
    let mut i: usize = 0;
    let lengde = data.len();
    proof {
        assert(data@.take(0) =~= Seq::<u8>::empty());
    }
    while i < lengde
        invariant
            lengde == data@.len(),
            lengde > 0,
            i <= lengde,
            tellere@.len() == 256,
            forall|b: int| 0 <= b < 256 ==> #[trigger] antall(data@, b) <= u32::MAX,
            forall|b: int| 0 <= b < 256 ==> #[trigger] tellere@[b] == antall(data@.take(i as int), b),
            i > 0 ==> storst == storste(data@.take(i as int)),
            i == 0 ==> storst == data@[0],
        decreases lengde - i,
    {
        let x = data[i];
        proof {
            assert(data@.take(i + 1) =~= data@.take(i as int).push(x));
            assert(data@.take(i + 1).drop_last() =~= data@.take(i as int));
            assert(data@.take(i + 1).last() == x);
            lemma_antall_push(data@.take(i as int), x, x as int);
            lemma_antall_voksende(data@, i + 1, x as int);
        }
        let t = tellere[x as usize];
        tellere.set(x as usize, t + 1);
        if x > storst {
            storst = x;
        }
        proof {
            assert forall|b: int| 0 <= b < 256 implies #[trigger] tellere@[b] == antall(data@.take(i + 1), b) by {
                lemma_antall_push(data@.take(i as int), x, b);
            }
            let forrige = data@.take(i as int);
            let neste = data@.take(i + 1);
            assert(neste.drop_last() =~= forrige);
            assert(neste.last() == x);
            if i == 0 {
                assert(forrige =~= Seq::<u8>::empty());
                assert(storste(forrige) == -1);
            }
            assert(storste(neste) == (if x > storste(forrige) { x as int } else { storste(forrige) }));
        }
        i = i + 1;
    }
    proof {
        assert(data@.take(lengde as int) =~= data@);
    }
    let mut res: Vec<ByteFrekvens> = Vec::new();
    let mut b: u8 = 0;
    while b < storst
        invariant
            b <= storst,
            tellere@.len() == 256,
            forall|c: int| 0 <= c < 256 ==> #[trigger] tellere@[c] == antall(data@, c),
            som_par(res@) == frekvenser_under(data@, b as int),
        decreases storst - b,
    {
        let t = tellere[b as usize];
        if t > 0 {
            res.push(ByteFrekvens { byte: b, frekvens: t });
        }
        proof {
            assert(som_par(res@) =~= frekvenser_under(data@, b + 1));
        }
        b = b + 1;
    }
    res
}

/// Antallet i et prefiks er ikke større enn i hele.
pub proof fn lemma_antall_voksende(s: Seq<u8>, n: int, b: int)
    requires
        0 <= n <= s.len(),
    ensures
        antall(s.take(n), b) <= antall(s, b),
    decreases s.len(),
{
    if n < s.len() {
        assert(s.take(n) =~= s.drop_last().take(n));
        lemma_antall_voksende(s.drop_last(), n, b);
    } else {
        assert(s.take(n) =~= s);
    }
}

/// Det er ikke flere frekvenser under `b` enn `b`.
pub proof fn lemma_frekvenser_under_lengde(s: Seq<u8>, b: int)
    ensures
        frekvenser_under(s, b).len() <= if b < 0 { 0 } else { b },
    decreases b,
{
    if b > 0 {
        lemma_frekvenser_under_lengde(s, b - 1);
    }
}

/// Bytter plass på elementene `i` og `j`.
pub open spec fn bytt<T>(s: Seq<T>, i: int, j: int) -> Seq<T> {
    s.update(i, s[j]).update(j, s[i])
}

/// Flytter paret i posisjon `hull` nedover mot `slutt` så lenge et barn har
/// lavere frekvens, og velger det høyre barnet når barna har lik frekvens:
/// slik en kø der lavere frekvens ordnes som større, flytter et element ned.
pub open spec fn sift_ned(s: Seq<(u8, u32)>, hull: int, slutt: int) -> Seq<(u8, u32)>
    decreases slutt - hull,
{
    let barn = 2 * hull + 1;
    if hull < 0 {
        s
    } else if barn + 2 <= slutt {
        let c = if s[barn].1 >= s[barn + 1].1 {
            barn + 1
        } else {
            barn
        };
        if s[hull].1 <= s[c].1 {
            s
        } else {
            sift_ned(bytt(s, hull, c), c, slutt)
        }
    } else if barn + 1 == slutt && s[hull].1 > s[barn].1 {
        bytt(s, hull, barn)
    } else {
        s
    }
}

/// Ordner køen fra og med posisjon `n - 1` ned til 0.
pub open spec fn ordne_fra(s: Seq<(u8, u32)>, n: int) -> Seq<(u8, u32)>
    decreases n,
{
    if n <= 0 {
        s
    } else {
        ordne_fra(sift_ned(s, n - 1, s.len() as int), n - 1)
    }
}

/// Køen frekvensene ordnes i, med lavest frekvens først, i den rekkefølgen
/// elementene ligger i køen.
pub open spec fn ko_spec(s: Seq<(u8, u32)>) -> Seq<(u8, u32)> {
    ordne_fra(s, (s.len() / 2) as int)
}

proof fn lemma_sift_ned_lengde(s: Seq<(u8, u32)>, hull: int, slutt: int)
    requires
        slutt <= s.len(),
    ensures
        sift_ned(s, hull, slutt).len() == s.len(),
    decreases slutt - hull,
{
    let barn = 2 * hull + 1;
    if hull >= 0 && barn + 2 <= slutt {
        let c = if s[barn].1 >= s[barn + 1].1 { barn + 1 } else { barn };
        if s[hull].1 > s[c].1 {
            lemma_sift_ned_lengde(bytt(s, hull, c), c, slutt);
        }
    }
}

fn bytt_frekvenser(ko: &mut Vec<ByteFrekvens>, i: usize, j: usize)
    requires
        i < old(ko)@.len(),
        j < old(ko)@.len(),
        i != j,
    ensures
        final(ko)@.len() == old(ko)@.len(),
        som_par(final(ko)@) == bytt(som_par(old(ko)@), i as int, j as int),
{
    let mut tmp = ByteFrekvens { byte: 0, frekvens: 0 };
    ko.set_and_swap(i, &mut tmp);
    ko.set_and_swap(j, &mut tmp);
    ko.set_and_swap(i, &mut tmp);
    assert(som_par(ko@) =~= bytt(som_par(old(ko)@), i as int, j as int));
}

fn sift_ned_exec(ko: &mut Vec<ByteFrekvens>, pos: usize, slutt: usize)
    requires
        pos < slutt <= old(ko)@.len() <= 256,
    ensures
        final(ko)@.len() == old(ko)@.len(),
        som_par(final(ko)@) == sift_ned(som_par(old(ko)@), pos as int, slutt as int),
{
    let mut hull = pos;
    let mut barn = 2 * hull + 1;
    while barn + 2 <= slutt
        invariant
            hull < slutt <= ko@.len() <= 256,
            ko@.len() == old(ko)@.len(),
            barn == 2 * hull + 1,
            sift_ned(som_par(ko@), hull as int, slutt as int) == sift_ned(som_par(old(ko)@), pos as int, slutt as int),
        decreases slutt - hull,
    {
        if ko[barn].frekvens >= ko[barn + 1].frekvens {
            barn = barn + 1;
        }
        if ko[hull].frekvens <= ko[barn].frekvens {
            return;
        }
        bytt_frekvenser(ko, hull, barn);
        hull = barn;
        barn = 2 * hull + 1;
    }
    if barn + 1 == slutt && ko[hull].frekvens > ko[barn].frekvens {
        bytt_frekvenser(ko, hull, barn);
    }
}

/// Frekvensene ordnet i køen `komprimer` bygger av dem, i den rekkefølgen
/// elementene ligger i køen (lavest frekvens først).
pub fn frekvensko(data: &[u8]) -> (res: Vec<ByteFrekvens>)
    requires
        data@.len() > 0,
        forall|b: int| 0 <= b < 256 ==> #[trigger] antall(data@, b) <= u32::MAX,
    ensures
        som_par(res@) == ko_spec(frekvenser_spec(data@)),
{
    let mut ko = frekvenser(data);
    proof {
        lemma_storste(data@, 0);
        lemma_frekvenser_under_lengde(data@, storste(data@));
    }
    let len = ko.len();
    let ghost start = som_par(ko@);
    let mut n = len / 2;
    while n > 0
        invariant
            ko@.len() == len,
            len <= 256,
            n <= len / 2,
            start == frekvenser_spec(data@),
            start.len() == len,
            ordne_fra(som_par(ko@), n as int) == ko_spec(start),
        decreases n,
    {
        n = n - 1;
        proof {
            lemma_sift_ned_lengde(som_par(ko@), n as int, len as int);
        }
        sift_ned_exec(&mut ko, n, len);
    }
    ko
}

/// Teller frekvensene i dataene. Ingen kode er laget ennå, så resultatet er
/// tomt.
pub fn komprimer(data: &[u8]) -> (res: Vec<u8>)
    requires
        data@.len() > 0,
        forall|b: int| 0 <= b < 256 ==> #[trigger] antall(data@, b) <= u32::MAX,
    ensures
        res@.len() == 0,
{
    let komprimert: Vec<u8> = Vec::new();
    let _frekvenser = frekvenser(data);
    komprimert
}

} // verus!
