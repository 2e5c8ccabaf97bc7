//! Huffman-koding av bytes. Den komprimerte dataen består av lengden på
//! frekvenstabellen (8 bytes), tabellen (5 bytes per byteverdi), antall bits
//! (8 bytes) og bitene pakket i bytes med den første biten øverst.
use vstd::prelude::*;
use vstd::pervasive::VecAdditionalExecFns;

verus! {

/// En byteverdi og hvor mange ganger den forekommer.
#[derive(Debug, Clone, Copy)]
pub struct ByteFrekvens {
    pub byte: u8,
    pub frekvens: u32,
}

/// Fire bytes i stor-endian rekkefølge for et 32-bits tall.
pub open spec fn stor_endian32(x: u32) -> Seq<u8> {
    seq![
        (x / 16777216) as u8,
        ((x / 65536) % 256) as u8,
        ((x / 256) % 256) as u8,
        (x % 256) as u8,
    ]
}

/// Tallet fire bytes i stor-endian rekkefølge står for.
pub open spec fn fra_stor_endian32(b: Seq<u8>) -> int {
    b[0] * 16777216 + b[1] * 65536 + b[2] * 256 + b[3]
}

/// Åtte bytes i stor-endian rekkefølge for et 64-bits tall.
pub open spec fn stor_endian64(x: int) -> Seq<u8> {
    seq![
        ((x / 0x100000000000000) % 256) as u8,
        ((x / 0x1000000000000) % 256) as u8,
        ((x / 0x10000000000) % 256) as u8,
        ((x / 0x100000000) % 256) as u8,
        ((x / 0x1000000) % 256) as u8,
        ((x / 0x10000) % 256) as u8,
        ((x / 0x100) % 256) as u8,
        (x % 256) as u8,
    ]
}

/// Tallet åtte bytes i stor-endian rekkefølge står for.
pub open spec fn fra_stor_endian64(b: Seq<u8>) -> int {
    b[0] * 0x100000000000000 + b[1] * 0x1000000000000 + b[2] * 0x10000000000 + b[3]
        * 0x100000000 + b[4] * 0x1000000 + b[5] * 0x10000 + b[6] * 0x100 + b[7]
}

/// Bytene én oppføring i frekvenstabellen lagres som.
pub open spec fn frekvens_bytes(f: ByteFrekvens) -> Seq<u8> {
    stor_endian32(f.frekvens) + seq![f.byte]
}

impl ByteFrekvens {
    /// En byteverdi som ikke er sett ennå.
    pub fn ny(byte: u8) -> (res: Self)
        ensures
            res.byte == byte,
            res.frekvens == 0,
    {
        Self { byte, frekvens: 0 }
    }

    /// Teller én forekomst til.
    pub fn ok(&mut self)
        requires
            old(self).frekvens < u32::MAX,
        ensures
            final(self).byte == old(self).byte,
            final(self).frekvens == old(self).frekvens + 1,
    {
        self.frekvens = self.frekvens + 1;
    }

    /// Frekvensen i stor-endian rekkefølge fulgt av byteverdien.
    pub fn til_bytes(&self) -> (res: [u8; 5])
        ensures
            res@ == frekvens_bytes(*self),
    {
        let f = self.frekvens;
        let res: [u8; 5] = [
            (f / 16777216) as u8,
            ((f / 65536) % 256) as u8,
            ((f / 256) % 256) as u8,
            (f % 256) as u8,
            self.byte,
        ];
        assert(res@ =~= frekvens_bytes(*self));
        res
    }

    /// Leser en oppføring skrevet av `til_bytes`.
    pub fn fra_bytes(bytes: [u8; 5]) -> (res: Self)
        ensures
            res.byte == bytes@[4],
            res.frekvens == fra_stor_endian32(bytes@),
    {
        let f: u32 = bytes[0] as u32 * 16777216 + bytes[1] as u32 * 65536 + bytes[2] as u32 * 256
            + bytes[3] as u32;
        Self { byte: bytes[4], frekvens: f }
    }
}

/// Å lese en oppføring som er skrevet ut gir samme oppføring tilbake.
pub proof fn frekvens_tur_retur(f: ByteFrekvens)
    ensures
        frekvens_bytes(f)[4] == f.byte,
        fra_stor_endian32(frekvens_bytes(f)) == f.frekvens,
{
    let x = f.frekvens as int;
    let b = frekvens_bytes(f);
    assert(x == (x / 256) * 256 + x % 256) by (nonlinear_arith);
    assert(x / 256 == (x / 65536) * 256 + (x / 256) % 256) by {
        vstd::arithmetic::div_mod::lemma_div_denominator(x, 256, 256);
        vstd::arithmetic::div_mod::lemma_fundamental_div_mod(x / 256, 256);
    }
    assert(x / 65536 == (x / 16777216) * 256 + (x / 65536) % 256) by {
        vstd::arithmetic::div_mod::lemma_div_denominator(x, 65536, 256);
        vstd::arithmetic::div_mod::lemma_fundamental_div_mod(x / 65536, 256);
    }
    assert(x / 16777216 < 256) by {
        vstd::arithmetic::div_mod::lemma_div_is_ordered(x, 4294967295, 16777216);
    }
}

/// Kvotient og rest ved divisjon når de er kjent.
pub proof fn lemma_divmod(x: int, d: int, q: int, r: int)
    requires
        d > 0,
        0 <= r < d,
        x == q * d + r,
    ensures
        x / d == q,
        x % d == r,
{
    vstd::arithmetic::div_mod::lemma_fundamental_div_mod_converse_div(x, d, q, r);
    vstd::arithmetic::div_mod::lemma_fundamental_div_mod_converse_mod(x, d, q, r);
}

/// Fire bytes i stor-endian rekkefølge gir tilbake de samme fire bytene.
pub proof fn lemma_stor_endian32(b: Seq<u8>)
    requires
        b.len() >= 4,
    ensures
        stor_endian32(fra_stor_endian32(b) as u32) =~= b.take(4),
{
    let x = fra_stor_endian32(b);
    lemma_divmod(x, 16777216, b[0] as int, b[1] * 65536 + b[2] * 256 + b[3]);
    lemma_divmod(x, 65536, b[0] * 256 + b[1], b[2] * 256 + b[3]);
    lemma_divmod(b[0] * 256 + b[1], 256, b[0] as int, b[1] as int);
    lemma_divmod(x, 256, b[0] * 65536 + b[1] * 256 + b[2], b[3] as int);
    lemma_divmod(b[0] * 65536 + b[1] * 256 + b[2], 256, b[0] * 256 + b[1], b[2] as int);
}

/// Å skrive ut en oppføring som er lest gir de samme fem bytene tilbake.
pub proof fn bytes_tur_retur(b: Seq<u8>)
    requires
        b.len() == 5,
    ensures
        frekvens_bytes(ByteFrekvens { byte: b[4], frekvens: fra_stor_endian32(b) as u32 }) =~= b,
{
    lemma_stor_endian32(b);
}

/// Retningen et steg i treet tar.
#[derive(Clone, Copy, Debug)]
pub enum Hopp {
    Venstre,
    Hoyre,
}

/// En node i et Huffman-tre. Løvnodene har en verdi; de indre nodene har to barn.
#[derive(Debug)]
pub struct Node {
    pub frekvens: u32,
    pub verdi: Option<u8>,
    pub venstre: Option<Box<Node>>,
    pub hoyre: Option<Box<Node>>,
}

/// Om `finn_node` finner verdien i treet, og stien den legger til.
pub open spec fn finn(t: Node, verdi: u8) -> (bool, Seq<Hopp>)
    decreases t,
{
    let her = t.verdi == Some(verdi);
    let v = match t.venstre {
        Some(b) => {
            let r = finn(*b, verdi);
            if r.0 {
                (true, seq![Hopp::Venstre] + r.1)
            } else {
                (false, Seq::<Hopp>::empty())
            }
        },
        None => (false, Seq::<Hopp>::empty()),
    };
    let h = match t.hoyre {
        Some(b) => {
            let r = finn(*b, verdi);
            if r.0 {
                (true, seq![Hopp::Hoyre] + r.1)
            } else {
                (false, Seq::<Hopp>::empty())
            }
        },
        None => (false, Seq::<Hopp>::empty()),
    };
    (her || v.0 || h.0, v.1 + h.1)
}

/// Et fullt tre: løvnodene har en verdi og ingen barn, de indre nodene har
/// ingen verdi og to barn.
pub open spec fn fullt(t: Node) -> bool
    decreases t,
{
    match (t.venstre, t.hoyre) {
        (None, None) => t.verdi is Some,
        (Some(v), Some(h)) => t.verdi is None && fullt(*v) && fullt(*h),
        _ => false,
    }
}

/// Antall noder i treet med verdien `verdi`.
pub open spec fn antall(t: Node, verdi: u8) -> nat
    decreases t,
{
    (if t.verdi == Some(verdi) {
        1nat
    } else {
        0nat
    }) + match t.venstre {
        Some(b) => antall(*b, verdi),
        None => 0,
    } + match t.hoyre {
        Some(b) => antall(*b, verdi),
        None => 0,
    }
}

impl Node {
    /// En indre node med to barn.
    pub fn ny(frekvens: u32, verdi: Option<u8>, venstre: Box<Node>, hoyre: Box<Node>) -> (res: Self)
        ensures
            res == (Node { frekvens, verdi, venstre: Some(venstre), hoyre: Some(hoyre) }),
    {
        Self { frekvens, verdi: verdi, venstre: Some(venstre), hoyre: Some(hoyre) }
    }

    /// En løvnode for en oppføring i frekvenstabellen.
    pub fn fra_frekvens(bytefrekvens: &ByteFrekvens) -> (res: Self)
        ensures
            res == (Node {
                frekvens: bytefrekvens.frekvens,
                verdi: Some(bytefrekvens.byte),
                venstre: None,
                hoyre: None,
            }),
    {
        Self { frekvens: bytefrekvens.frekvens, verdi: Some(bytefrekvens.byte), venstre: None, hoyre: None }
    }

    /// Leter etter verdien i treet og legger stien dit til `sti`. Gir om
    /// verdien ble funnet.
    pub fn finn_node(&self, verdi: u8, sti: &mut Vec<Hopp>) -> (res: bool)
        ensures
            res == finn(*self, verdi).0,
            final(sti)@ == old(sti)@ + finn(*self, verdi).1,
        decreases *self,
    {
        let mut res: bool = false;
        let ghost s0 = sti@;
        if let Some(v) = self.verdi {
            if v == verdi {
                res = true;
            }
        }
        match &self.venstre {
            Some(venstre) => {
                sti.push(Hopp::Venstre);
                if venstre.finn_node(verdi, sti) {
                    res = true;
                } else {
                    sti.pop();
                }
            },
            None => {},
        }
        let ghost s1 = sti@;
        assert(s1 =~= s0 + finn(*self, verdi).1.take(0) + match self.venstre {
            Some(b) => if finn(*b, verdi).0 { seq![Hopp::Venstre] + finn(*b, verdi).1 } else { seq![] },
            None => seq![],
        });
        match &self.hoyre {
            Some(hoyre) => {
                sti.push(Hopp::Hoyre);
                if hoyre.finn_node(verdi, sti) {
                    res = true;
                } else {
                    sti.pop();
                }
            },
            None => {},
        }
        assert(sti@ =~= old(sti)@ + finn(*self, verdi).1);
        res
    }
}


/// Bytter plass på elementene `i` og `j`.
pub open spec fn bytt(s: Seq<Node>, i: int, j: int) -> Seq<Node> {
    s.update(i, s[j]).update(j, s[i])
}

/// Summen av `f` over alle trærne i køen.
pub open spec fn sum_vekt(s: Seq<Node>, f: spec_fn(Node) -> int) -> int
    decreases s.len(),
{
    if s.len() == 0 {
        0
    } else {
        sum_vekt(s.drop_last(), f) + f(s.last())
    }
}

/// `t` har de samme trærne som `s`, muligens i en annen rekkefølge.
pub open spec fn samme_traer(s: Seq<Node>, t: Seq<Node>) -> bool {
    &&& s.len() == t.len()
    &&& forall|f: spec_fn(Node) -> int| #[trigger] sum_vekt(t, f) == sum_vekt(s, f)
}

/// Køen flytter elementet fra posisjon `hull` nedover mot slutten (før
/// `slutt`) så lenge et barn har lavere frekvens, og velger det høyre barnet
/// når barna har lik frekvens.
pub open spec fn sift_ned(s: Seq<Node>, hull: int, slutt: int) -> Seq<Node>
    decreases slutt - hull,
{
    let barn = 2 * hull + 1;
    if hull < 0 {
        s
    } else if barn + 2 <= slutt {
        let c = if s[barn].frekvens >= s[barn + 1].frekvens {
            barn + 1
        } else {
            barn
        };
        if s[hull].frekvens <= s[c].frekvens {
            s
        } else {
            sift_ned(bytt(s, hull, c), c, slutt)
        }
    } else if barn + 1 == slutt && s[hull].frekvens > s[barn].frekvens {
        bytt(s, hull, barn)
    } else {
        s
    }
}

/// Flytter elementet fra `hull` helt ned til bunnen langs barna med lavest
/// frekvens. Gir køen og posisjonen elementet endte på.
pub open spec fn til_bunn(s: Seq<Node>, hull: int, slutt: int) -> (Seq<Node>, int)
    decreases slutt - hull,
{
    let barn = 2 * hull + 1;
    if hull < 0 {
        (s, hull)
    } else if barn + 2 <= slutt {
        let c = if s[barn].frekvens >= s[barn + 1].frekvens {
            barn + 1
        } else {
            barn
        };
        til_bunn(bytt(s, hull, c), c, slutt)
    } else if barn + 1 == slutt {
        (bytt(s, hull, barn), barn)
    } else {
        (s, hull)
    }
}

/// Flytter elementet fra `pos` oppover så lenge forelderen har høyere
/// frekvens, men ikke forbi `start`.
pub open spec fn sift_opp(s: Seq<Node>, start: int, pos: int) -> Seq<Node>
    decreases pos,
{
    if pos > start && pos > 0 {
        let forelder = (pos - 1) / 2;
        if s[pos].frekvens >= s[forelder].frekvens {
            s
        } else {
            sift_opp(bytt(s, pos, forelder), start, forelder)
        }
    } else {
        s
    }
}

/// Ordner køen fra og med posisjon `n - 1` ned til 0.
pub open spec fn ordne_fra(s: Seq<Node>, n: int) -> Seq<Node>
    decreases n,
{
    if n <= 0 {
        s
    } else {
        ordne_fra(sift_ned(s, n - 1, s.len() as int), n - 1)
    }
}

/// Gjør en liste av trær til en prioritetskø med lavest frekvens først.
pub open spec fn ordne(s: Seq<Node>) -> Seq<Node> {
    ordne_fra(s, (s.len() / 2) as int)
}

/// Tar ut treet med lavest frekvens. Gir treet (om køen ikke var tom) og køen etterpå.
pub open spec fn ta_ut(s: Seq<Node>) -> (Option<Node>, Seq<Node>) {
    if s.len() == 0 {
        (None, s)
    } else if s.len() == 1 {
        (Some(s[0]), s.drop_last())
    } else {
        let t = s.drop_last().update(0, s.last());
        let b = til_bunn(t, 0, t.len() as int);
        (Some(s[0]), sift_opp(b.0, 0, b.1))
    }
}

/// Legger et tre inn i køen.
pub open spec fn legg_inn(s: Seq<Node>, x: Node) -> Seq<Node> {
    sift_opp(s.push(x), 0, s.len() as int)
}

/// Den indre noden over to trær.
pub open spec fn kombiner(a: Node, b: Node) -> Node {
    Node {
        frekvens: (a.frekvens + b.frekvens) as u32,
        verdi: None,
        venstre: Some(Box::new(a)),
        hoyre: Some(Box::new(b)),
    }
}

/// Slår sammen de to trærne med lavest frekvens til ett, til bare ett tre er igjen.
pub open spec fn slaa_sammen(s: Seq<Node>) -> Seq<Node>
    decreases s.len(),
{
    if s.len() > 1 {
        let a = ta_ut(s);
        let b = ta_ut(a.1);
        proof {
            lemma_ta_ut(s);
            lemma_ta_ut(a.1);
            lemma_legg_inn(b.1, kombiner(a.0.unwrap(), b.0.unwrap()));
        }
        slaa_sammen(legg_inn(b.1, kombiner(a.0.unwrap(), b.0.unwrap())))
    } else {
        s
    }
}

/// Løvnodene for en frekvenstabell, i samme rekkefølge.
pub open spec fn lovnoder(tabell: Seq<ByteFrekvens>) -> Seq<Node> {
    tabell.map_values(
        |f: ByteFrekvens| Node { frekvens: f.frekvens, verdi: Some(f.byte), venstre: None, hoyre: None },
    )
}

/// Huffman-treet `konstruer_tre` bygger for en frekvenstabell.
pub open spec fn huffman_tre(tabell: Seq<ByteFrekvens>) -> Node {
    slaa_sammen(ordne(lovnoder(tabell)))[0]
}

/// Summen av frekvensene i tabellen.
pub open spec fn frekvenssum(tabell: Seq<ByteFrekvens>) -> int
    decreases tabell.len(),
{
    if tabell.len() == 0 {
        0
    } else {
        frekvenssum(tabell.drop_last()) + tabell.last().frekvens
    }
}

/// Å bytte ut ett tre endrer summen med forskjellen mellom dem.
pub proof fn lemma_sum_vekt_update(s: Seq<Node>, i: int, x: Node, f: spec_fn(Node) -> int)
    requires
        0 <= i < s.len(),
    ensures
        sum_vekt(s.update(i, x), f) == sum_vekt(s, f) - f(s[i]) + f(x),
    decreases s.len(),
{
    let t = s.update(i, x);
    if i == s.len() - 1 {
        assert(t.drop_last() =~= s.drop_last());
    } else {
        assert(t.drop_last() =~= s.drop_last().update(i, x));
        lemma_sum_vekt_update(s.drop_last(), i, x, f);
    }
}

/// Å bytte to trær beholder de samme trærne.
pub proof fn lemma_bytt(s: Seq<Node>, i: int, j: int)
    requires
        0 <= i < s.len(),
        0 <= j < s.len(),
    ensures
        samme_traer(s, bytt(s, i, j)),
{
    assert forall|f: spec_fn(Node) -> int| #[trigger] sum_vekt(bytt(s, i, j), f) == sum_vekt(s, f) by {
        lemma_sum_vekt_update(s, i, s[j], f);
        lemma_sum_vekt_update(s.update(i, s[j]), j, s[i], f);
    }
}

/// Å flytte et tre ned i køen beholder de samme trærne.
pub proof fn lemma_sift_ned(s: Seq<Node>, hull: int, slutt: int)
    requires
        slutt <= s.len(),
    ensures
        samme_traer(s, sift_ned(s, hull, slutt)),
    decreases slutt - hull,
{
    let barn = 2 * hull + 1;
    if hull < 0 {
    } else if barn + 2 <= slutt {
        let c = if s[barn].frekvens >= s[barn + 1].frekvens {
            barn + 1
        } else {
            barn
        };
        if s[hull].frekvens > s[c].frekvens {
            lemma_bytt(s, hull, c);
            lemma_sift_ned(bytt(s, hull, c), c, slutt);
        }
    } else if barn + 1 == slutt && s[hull].frekvens > s[barn].frekvens {
        lemma_bytt(s, hull, barn);
    }
}

/// Å flytte et hull til bunnen av køen beholder de samme trærne, og hullet
/// havner innenfor køen.
pub proof fn lemma_til_bunn(s: Seq<Node>, hull: int, slutt: int)
    requires
        slutt <= s.len(),
        0 <= hull < slutt,
    ensures
        samme_traer(s, til_bunn(s, hull, slutt).0),
        hull <= til_bunn(s, hull, slutt).1 < slutt,
    decreases slutt - hull,
{
    let barn = 2 * hull + 1;
    if barn + 2 <= slutt {
        let c = if s[barn].frekvens >= s[barn + 1].frekvens {
            barn + 1
        } else {
            barn
        };
        lemma_bytt(s, hull, c);
        lemma_til_bunn(bytt(s, hull, c), c, slutt);
    } else if barn + 1 == slutt {
        lemma_bytt(s, hull, barn);
    }
}

/// Å flytte et tre opp i køen beholder de samme trærne.
pub proof fn lemma_sift_opp(s: Seq<Node>, start: int, pos: int)
    requires
        pos < s.len(),
    ensures
        samme_traer(s, sift_opp(s, start, pos)),
    decreases pos,
{
    if pos > start && pos > 0 {
        let forelder = (pos - 1) / 2;
        if s[pos].frekvens < s[forelder].frekvens {
            lemma_bytt(s, pos, forelder);
            lemma_sift_opp(bytt(s, pos, forelder), start, forelder);
        }
    }
}

/// Å ordne køen beholder de samme trærne.
pub proof fn lemma_ordne_fra(s: Seq<Node>, n: int)
    ensures
        samme_traer(s, ordne_fra(s, n)),
    decreases n,
{
    if n > 0 {
        lemma_sift_ned(s, n - 1, s.len() as int);
        lemma_ordne_fra(sift_ned(s, n - 1, s.len() as int), n - 1);
    }
}

/// Å ta ut roten gir den første og beholder resten av trærne.
pub proof fn lemma_ta_ut(s: Seq<Node>)
    ensures
        s.len() == 0 ==> ta_ut(s).0 is None && ta_ut(s).1 == s,
        s.len() > 0 ==> {
            &&& ta_ut(s).0 == Some(s[0])
            &&& ta_ut(s).1.len() == s.len() - 1
            &&& forall|f: spec_fn(Node) -> int| #[trigger] sum_vekt(ta_ut(s).1, f) + f(s[0]) == sum_vekt(s, f)
        },
{
    if s.len() == 1 {
        assert forall|f: spec_fn(Node) -> int| #[trigger] sum_vekt(ta_ut(s).1, f) + f(s[0]) == sum_vekt(s, f) by {
            assert(s.drop_last().len() == 0);
        }
    } else if s.len() > 1 {
        let t = s.drop_last().update(0, s.last());
        lemma_til_bunn(t, 0, t.len() as int);
        let b = til_bunn(t, 0, t.len() as int);
        lemma_sift_opp(b.0, 0, b.1);
        assert forall|f: spec_fn(Node) -> int| #[trigger] sum_vekt(ta_ut(s).1, f) + f(s[0]) == sum_vekt(s, f) by {
            lemma_sum_vekt_update(s.drop_last(), 0, s.last(), f);
            assert(sum_vekt(b.0, f) == sum_vekt(t, f));
            assert(sum_vekt(ta_ut(s).1, f) == sum_vekt(b.0, f));
        }
    }
}

/// Å legge inn et tre gir ett tre mer.
pub proof fn lemma_legg_inn(s: Seq<Node>, x: Node)
    ensures
        legg_inn(s, x).len() == s.len() + 1,
        forall|f: spec_fn(Node) -> int| #[trigger] sum_vekt(legg_inn(s, x), f) == sum_vekt(s, f) + f(x),
{
    lemma_sift_opp(s.push(x), 0, s.len() as int);
    assert forall|f: spec_fn(Node) -> int| #[trigger] sum_vekt(legg_inn(s, x), f) == sum_vekt(s, f) + f(x) by {
        assert(s.push(x).drop_last() =~= s);
        assert(sum_vekt(legg_inn(s, x), f) == sum_vekt(s.push(x), f));
    }
}


/// 1 for et tre som ikke er fullt, ellers 0.
pub open spec fn ikke_full_vekt() -> spec_fn(Node) -> int {
    |x: Node| if fullt(x) { 0int } else { 1int }
}

/// Antall løvnoder med verdien `v` i et tre.
pub open spec fn antall_vekt(v: u8) -> spec_fn(Node) -> int {
    |x: Node| antall(x, v) as int
}

/// Frekvensen i roten av et tre.
pub open spec fn frekvens_vekt() -> spec_fn(Node) -> int {
    |x: Node| x.frekvens as int
}

/// En sum av verdier som ikke er negative, er ikke negativ og minst hver av dem.
pub proof fn lemma_sum_vekt_ikke_negativ(s: Seq<Node>, f: spec_fn(Node) -> int)
    requires
        forall|x: Node| #[trigger] f(x) >= 0,
    ensures
        sum_vekt(s, f) >= 0,
        forall|i: int| 0 <= i < s.len() ==> f(#[trigger] s[i]) <= sum_vekt(s, f),
    decreases s.len(),
{
    if s.len() > 0 {
        lemma_sum_vekt_ikke_negativ(s.drop_last(), f);
        assert forall|i: int| 0 <= i < s.len() implies f(#[trigger] s[i]) <= sum_vekt(s, f) by {
            if i < s.len() - 1 {
                assert(s[i] == s.drop_last()[i]);
            }
        }
    }
}

/// Summen over ett tre er verdien for det.
pub proof fn lemma_sum_vekt_en(s: Seq<Node>, f: spec_fn(Node) -> int)
    requires
        s.len() == 1,
    ensures
        sum_vekt(s, f) == f(s[0]),
{
    assert(s.drop_last().len() == 0);
    assert(sum_vekt(s.drop_last(), f) == 0);
    assert(s.last() == s[0]);
}

/// To fulle trær slått sammen er et fullt tre med verdiene fra begge.
pub proof fn lemma_kombiner(a: Node, b: Node)
    requires
        fullt(a),
        fullt(b),
    ensures
        fullt(kombiner(a, b)),
        forall|v: u8| #[trigger] antall(kombiner(a, b), v) == antall(a, v) + antall(b, v),
{
}

/// Å slå sammen trærne i køen gir ett fullt tre med de samme løvnodene,
/// og det er en indre node når køen hadde minst to trær.
pub proof fn lemma_slaa_sammen(s: Seq<Node>)
    requires
        s.len() >= 1,
        sum_vekt(s, ikke_full_vekt()) == 0,
        sum_vekt(s, frekvens_vekt()) <= u32::MAX,
    ensures
        slaa_sammen(s).len() == 1,
        fullt(slaa_sammen(s)[0]),
        slaa_sammen(s)[0].frekvens == sum_vekt(s, frekvens_vekt()),
        forall|v: u8| #[trigger] antall(slaa_sammen(s)[0], v) == sum_vekt(s, antall_vekt(v)),
        s.len() >= 2 ==> slaa_sammen(s)[0].venstre is Some,
    decreases s.len(),
{
    lemma_sum_vekt_ikke_negativ(s, ikke_full_vekt());
    lemma_sum_vekt_ikke_negativ(s, frekvens_vekt());
    if s.len() == 1 {
        lemma_sum_vekt_en(s, ikke_full_vekt());
        lemma_sum_vekt_en(s, frekvens_vekt());
        assert forall|v: u8| #[trigger] antall(slaa_sammen(s)[0], v) == sum_vekt(s, antall_vekt(v)) by {
            lemma_sum_vekt_en(s, antall_vekt(v));
        }
    } else {
        let a = ta_ut(s);
        lemma_ta_ut(s);
        let b = ta_ut(a.1);
        lemma_ta_ut(a.1);
        let x = a.0.unwrap();
        let y = b.0.unwrap();
        assert(ikke_full_vekt()(x) == 0);
        lemma_sum_vekt_ikke_negativ(a.1, ikke_full_vekt());
        assert(ikke_full_vekt()(y) == 0);
        lemma_sum_vekt_ikke_negativ(b.1, frekvens_vekt());
        lemma_sum_vekt_ikke_negativ(b.1, ikke_full_vekt());
        let k = kombiner(x, y);
        lemma_kombiner(x, y);
        assert(frekvens_vekt()(x) + frekvens_vekt()(y) + sum_vekt(b.1, frekvens_vekt()) == sum_vekt(s, frekvens_vekt()));
        assert(k.frekvens == x.frekvens + y.frekvens);
        let t = legg_inn(b.1, k);
        lemma_legg_inn(b.1, k);
        assert(sum_vekt(t, ikke_full_vekt()) == 0);
        assert(sum_vekt(t, frekvens_vekt()) == sum_vekt(s, frekvens_vekt()));
        lemma_slaa_sammen(t);
        assert forall|v: u8| #[trigger] antall(slaa_sammen(s)[0], v) == sum_vekt(s, antall_vekt(v)) by {
            assert(sum_vekt(t, antall_vekt(v)) == sum_vekt(b.1, antall_vekt(v)) + antall_vekt(v)(k));
            assert(sum_vekt(a.1, antall_vekt(v)) + antall_vekt(v)(x) == sum_vekt(s, antall_vekt(v)));
            assert(sum_vekt(b.1, antall_vekt(v)) + antall_vekt(v)(y) == sum_vekt(a.1, antall_vekt(v)));
        }
        if t.len() == 1 {
            assert(slaa_sammen(t) == t);
            lemma_sift_opp(b.1.push(k), 0, b.1.len() as int);
            assert(b.1.len() == 0);
            assert(t == sift_opp(seq![k], 0, 0));
            assert(t[0] == k);
        }
    }
}


/// Hvor mange oppføringer i tabellen som har byteverdien `v`.
pub open spec fn forekomster(tabell: Seq<ByteFrekvens>, v: u8) -> nat
    decreases tabell.len(),
{
    if tabell.len() == 0 {
        0
    } else {
        forekomster(tabell.drop_last(), v) + if tabell.last().byte == v {
            1nat
        } else {
            0nat
        }
    }
}

proof fn lemma_lovnoder(tabell: Seq<ByteFrekvens>)
    ensures
        lovnoder(tabell).len() == tabell.len(),
        sum_vekt(lovnoder(tabell), ikke_full_vekt()) == 0,
        sum_vekt(lovnoder(tabell), frekvens_vekt()) == frekvenssum(tabell),
        forall|v: u8| #[trigger] sum_vekt(lovnoder(tabell), antall_vekt(v)) == forekomster(tabell, v),
    decreases tabell.len(),
{
    if tabell.len() > 0 {
        lemma_lovnoder(tabell.drop_last());
        assert(lovnoder(tabell).drop_last() =~= lovnoder(tabell.drop_last()));
        let x = lovnoder(tabell).last();
        assert(fullt(x));
        assert forall|v: u8| #[trigger] sum_vekt(lovnoder(tabell), antall_vekt(v)) == forekomster(tabell, v) by {
            assert(sum_vekt(lovnoder(tabell.drop_last()), antall_vekt(v)) == forekomster(tabell.drop_last(), v));
        }
    }
}

/// Huffman-treet for en tabell med minst én oppføring og frekvenssum som får
/// plass i 32 bits er fullt, har én løvnode per oppføring, og er en indre
/// node når tabellen har minst to oppføringer.
pub proof fn lemma_huffman_tre(tabell: Seq<ByteFrekvens>)
    requires
        tabell.len() >= 1,
        frekvenssum(tabell) <= u32::MAX,
    ensures
        slaa_sammen(ordne(lovnoder(tabell))).len() == 1,
        fullt(huffman_tre(tabell)),
        huffman_tre(tabell).frekvens == frekvenssum(tabell),
        forall|v: u8| #[trigger] antall(huffman_tre(tabell), v) == forekomster(tabell, v),
        tabell.len() >= 2 ==> huffman_tre(tabell).venstre is Some,
{
    lemma_lovnoder(tabell);
    let l = lovnoder(tabell);
    lemma_ordne_fra(l, (l.len() / 2) as int);
    let o = ordne(l);
    assert(sum_vekt(o, ikke_full_vekt()) == 0);
    assert(sum_vekt(o, frekvens_vekt()) == frekvenssum(tabell));
    lemma_slaa_sammen(o);
    assert forall|v: u8| #[trigger] antall(huffman_tre(tabell), v) == forekomster(tabell, v) by {
        assert(sum_vekt(o, antall_vekt(v)) == sum_vekt(l, antall_vekt(v)));
    }
}

/// Bytter plass på to elementer i køen.
fn bytt_noder(ko: &mut Vec<Node>, i: usize, j: usize)
    requires
        i < old(ko)@.len(),
        j < old(ko)@.len(),
        i != j,
    ensures
        final(ko)@ == bytt(old(ko)@, i as int, j as int),
{
    let mut tmp = Node { frekvens: 0, verdi: None, venstre: None, hoyre: None };
    ko.set_and_swap(i, &mut tmp);
    ko.set_and_swap(j, &mut tmp);
    ko.set_and_swap(i, &mut tmp);
    assert(ko@ =~= bytt(old(ko)@, i as int, j as int));
}

/// Øvre grense for køstørrelsen, så indeksregningen ikke går over.
pub open spec fn ko_grense() -> int {
    (usize::MAX / 4) as int
}

fn sift_ned_exec(ko: &mut Vec<Node>, pos: usize, slutt: usize)
    requires
        pos < slutt <= old(ko)@.len() <= ko_grense(),
    ensures
        final(ko)@ == sift_ned(old(ko)@, pos as int, slutt as int),
{
    let mut hull = pos;
    let mut barn = 2 * hull + 1;
    while barn + 2 <= slutt
        invariant
            hull < slutt <= ko@.len() <= ko_grense(),
            barn == 2 * hull + 1,
            sift_ned(ko@, hull as int, slutt as int) == sift_ned(old(ko)@, pos as int, slutt as int),
        decreases slutt - hull,
    {
        if ko[barn].frekvens >= ko[barn + 1].frekvens {
            barn = barn + 1;
        }
        if ko[hull].frekvens <= ko[barn].frekvens {
            return;
        }
        bytt_noder(ko, hull, barn);
        hull = barn;
        barn = 2 * hull + 1;
    }
    if barn + 1 == slutt && ko[hull].frekvens > ko[barn].frekvens {
        bytt_noder(ko, hull, barn);
    }
}

fn sift_opp_exec(ko: &mut Vec<Node>, start: usize, pos: usize)
    requires
        pos < old(ko)@.len() <= ko_grense(),
    ensures
        final(ko)@ == sift_opp(old(ko)@, start as int, pos as int),
{
    let mut p = pos;
    while p > start && p > 0
        invariant
            p < ko@.len() <= ko_grense(),
            sift_opp(ko@, start as int, p as int) == sift_opp(old(ko)@, start as int, pos as int),
        decreases p,
    {
        let forelder = (p - 1) / 2;
        if ko[p].frekvens >= ko[forelder].frekvens {
            assert(sift_opp(ko@, start as int, p as int) == ko@);
            return;
        }
        bytt_noder(ko, p, forelder);
        p = forelder;
    }
}

fn til_bunn_exec(ko: &mut Vec<Node>, pos: usize)
    requires
        pos < old(ko)@.len() <= ko_grense(),
    ensures
        final(ko)@ == sift_opp(
            til_bunn(old(ko)@, pos as int, old(ko)@.len() as int).0,
            pos as int,
            til_bunn(old(ko)@, pos as int, old(ko)@.len() as int).1,
        ),
{
    let slutt = ko.len();
    let mut hull = pos;
    let mut barn = 2 * hull + 1;
    while barn + 2 <= slutt
        invariant
            slutt == ko@.len(),
            slutt == old(ko)@.len(),
            pos <= hull < slutt <= ko_grense(),
            barn == 2 * hull + 1,
            til_bunn(ko@, hull as int, slutt as int) == til_bunn(old(ko)@, pos as int, slutt as int),
        decreases slutt - hull,
    {
        if ko[barn].frekvens >= ko[barn + 1].frekvens {
            barn = barn + 1;
        }
        bytt_noder(ko, hull, barn);
        hull = barn;
        barn = 2 * hull + 1;
    }
    if barn + 1 == slutt {
        bytt_noder(ko, hull, barn);
        hull = barn;
    }
    sift_opp_exec(ko, pos, hull);
}

/// Gjør køen til en prioritetskø med lavest frekvens først.
fn ordne_exec(ko: &mut Vec<Node>)
    requires
        old(ko)@.len() <= ko_grense(),
    ensures
        final(ko)@ == ordne(old(ko)@),
{
    let len = ko.len();
    let mut n = len / 2;
    while n > 0
        invariant
            ko@.len() == len,
            len <= ko_grense(),
            n <= len / 2,
            ordne_fra(ko@, n as int) == ordne(old(ko)@),
        decreases n,
    {
        n = n - 1;
        proof {
            lemma_sift_ned(ko@, n as int, len as int);
        }
        sift_ned_exec(ko, n, len);
    }
}

/// Tar ut treet med lavest frekvens.
fn ta_ut_exec(ko: &mut Vec<Node>) -> (res: Option<Node>)
    requires
        old(ko)@.len() <= ko_grense(),
    ensures
        res == ta_ut(old(ko)@).0,
        final(ko)@ == ta_ut(old(ko)@).1,
{
    match ko.pop() {
        None => None,
        Some(mut item) => {
            if ko.len() > 0 {
                ko.set_and_swap(0, &mut item);
                til_bunn_exec(ko, 0);
            }
            Some(item)
        },
    }
}

/// Legger et tre inn i køen.
fn legg_inn_exec(ko: &mut Vec<Node>, x: Node)
    requires
        old(ko)@.len() < ko_grense(),
    ensures
        final(ko)@ == legg_inn(old(ko)@, x),
{
    let n = ko.len();
    ko.push(x);
    sift_opp_exec(ko, 0, n);
}


/// Lager én løvnode per oppføring i frekvenstabellen.
pub fn lag_noder(frekvenser: &Vec<ByteFrekvens>) -> (resultat: Vec<Node>)
    ensures
        resultat@ == lovnoder(frekvenser@),
{
    let mut resultat: Vec<Node> = Vec::new();
    let mut i: usize = 0;
    while i < frekvenser.len()
        invariant
            i <= frekvenser@.len(),
            resultat@ == lovnoder(frekvenser@.take(i as int)),
        decreases frekvenser@.len() - i,
    {
        resultat.push(Node::fra_frekvens(&frekvenser[i]));
        assert(frekvenser@.take(i + 1) =~= frekvenser@.take(i as int).push(frekvenser@[i as int]));
        assert(lovnoder(frekvenser@.take(i + 1)) =~= lovnoder(frekvenser@.take(i as int)).push(
            Node { frekvens: frekvenser@[i as int].frekvens, verdi: Some(frekvenser@[i as int].byte), venstre: None, hoyre: None },
        ));
        i = i + 1;
    }
    assert(frekvenser@.take(i as int) =~= frekvenser@);
    resultat
}

/// Bygger Huffman-treet: slår hele tiden sammen de to trærne med lavest
/// frekvens til ett tre, til bare roten er igjen.
pub fn konstruer_tre(frekvenstabell: Vec<ByteFrekvens>) -> (tre: Node)
    requires
        frekvenstabell@.len() >= 1,
        frekvenstabell@.len() <= ko_grense(),
        frekvenssum(frekvenstabell@) <= u32::MAX,
    ensures
        tre == huffman_tre(frekvenstabell@),
{
    let noder = lag_noder(&frekvenstabell);
    let mut ko = noder;
    ordne_exec(&mut ko);
    let ghost start = ko@;
    proof {
        lemma_huffman_tre(frekvenstabell@);
        lemma_lovnoder(frekvenstabell@);
        lemma_ordne_fra(lovnoder(frekvenstabell@), (frekvenstabell@.len() / 2) as int);
    }
    while ko.len() > 1
        invariant
            ko@.len() >= 1,
            ko@.len() <= ko_grense(),
            slaa_sammen(ko@) == slaa_sammen(start),
            start == ordne(lovnoder(frekvenstabell@)),
            sum_vekt(ko@, frekvens_vekt()) <= u32::MAX,
        decreases ko@.len(),
    {
        let ghost s = ko@;
        proof {
            lemma_ta_ut(s);
            lemma_ta_ut(ta_ut(s).1);
            lemma_sum_vekt_ikke_negativ(ta_ut(ta_ut(s).1).1, frekvens_vekt());
        }
        let venstre = ta_ut_exec(&mut ko).unwrap();
        let hoyre = ta_ut_exec(&mut ko).unwrap();
        assert(venstre.frekvens + hoyre.frekvens <= sum_vekt(s, frekvens_vekt()));
        let ny_node = Node::ny(venstre.frekvens + hoyre.frekvens, None, Box::new(venstre), Box::new(hoyre));
        assert(ny_node == kombiner(venstre, hoyre));
        proof {
            lemma_legg_inn(ko@, ny_node);
        }
        legg_inn_exec(&mut ko, ny_node);
    }
    let tre = ta_ut_exec(&mut ko).unwrap();
    tre
}

/// Hvor mange ganger byteverdien `b` forekommer i dataen.
pub open spec fn antall_i(data: Seq<u8>, b: u8) -> nat
    decreases data.len(),
{
    if data.len() == 0 {
        0
    } else {
        antall_i(data.drop_last(), b) + if data.last() == b {
            1nat
        } else {
            0nat
        }
    }
}

/// Frekvenstabellen for byteverdiene under `n`: de som forekommer, i stigende rekkefølge.
pub open spec fn tabell_under(data: Seq<u8>, n: int) -> Seq<ByteFrekvens>
    decreases n,
{
    if n <= 0 {
        seq![]
    } else if antall_i(data, (n - 1) as u8) > 0 {
        tabell_under(data, n - 1).push(ByteFrekvens { byte: (n - 1) as u8, frekvens: antall_i(data, (n - 1) as u8) as u32 })
    } else {
        tabell_under(data, n - 1)
    }
}

/// Frekvenstabellen `finn_frekvenser` lager: byteverdiene 0 til 254 som
/// forekommer, i stigende rekkefølge, med antall forekomster.
pub open spec fn frekvenstabell(data: Seq<u8>) -> Seq<ByteFrekvens> {
    tabell_under(data, 255)
}

/// Dataen `finn_frekvenser` kan telle: ingen byte med verdien 255, og
/// høyst `u32::MAX` bytes.
pub open spec fn kan_telles(data: Seq<u8>) -> bool {
    &&& data.len() <= u32::MAX
    &&& forall|i: int| 0 <= i < data.len() ==> #[trigger] data[i] != 255
}

proof fn lemma_antall_i_take(data: Seq<u8>, k: int, b: u8)
    requires
        0 <= k < data.len(),
    ensures
        antall_i(data.take(k + 1), b) == antall_i(data.take(k), b) + if data[k] == b { 1nat } else { 0nat },
        antall_i(data.take(k), b) <= k,
{
    assert(data.take(k + 1).drop_last() =~= data.take(k));
    lemma_antall_i_grense(data.take(k), b);
}

proof fn lemma_antall_i_grense(data: Seq<u8>, b: u8)
    ensures
        antall_i(data, b) <= data.len(),
    decreases data.len(),
{
    if data.len() > 0 {
        lemma_antall_i_grense(data.drop_last(), b);
    }
}

/// Teller hvor mange ganger hver byteverdi fra 0 til 254 forekommer, og
/// gir dem som forekommer, i stigende rekkefølge.
pub fn finn_frekvenser(data: &[u8]) -> (frekvenser: Vec<ByteFrekvens>)
    requires
        kan_telles(data@),
    ensures
        frekvenser@ == frekvenstabell(data@),
{
    let mut frekvenser: Vec<ByteFrekvens> = Vec::new();
    let mut alle_frekvenser: Vec<ByteFrekvens> = Vec::new();
    let mut byte: u8 = 0;
    while byte < 255
        invariant
            alle_frekvenser@.len() == byte,
            byte <= 255,
            forall|i: int| 0 <= i < byte ==> #[trigger] alle_frekvenser@[i] == (ByteFrekvens { byte: i as u8, frekvens: 0 }),
        decreases 255 - byte,
    {
        alle_frekvenser.push(ByteFrekvens::ny(byte));
        byte = byte + 1;
    }
    let mut k: usize = 0;
    while k < data.len()
        invariant
            kan_telles(data@),
            k <= data@.len(),
            alle_frekvenser@.len() == 255,
            forall|i: int| 0 <= i < 255 ==> #[trigger] alle_frekvenser@[i] == (ByteFrekvens {
                byte: i as u8,
                frekvens: antall_i(data@.take(k as int), i as u8) as u32,
            }),
        decreases data@.len() - k,
    {
        let b = data[k];
        assert(b != 255);
        proof {
            lemma_antall_i_take(data@, k as int, b);
        }
        let mut f = alle_frekvenser[b as usize];
        f.ok();
        alle_frekvenser.set(b as usize, f);
        proof {
            assert forall|i: int| 0 <= i < 255 implies #[trigger] alle_frekvenser@[i] == (ByteFrekvens {
                byte: i as u8,
                frekvens: antall_i(data@.take(k + 1), i as u8) as u32,
            }) by {
                lemma_antall_i_take(data@, k as int, i as u8);
            }
        }
        k = k + 1;
    }
    assert(data@.take(k as int) =~= data@);
    let mut i: usize = 0;
    while i < 255
        invariant
            i <= 255,
            alle_frekvenser@.len() == 255,
            forall|j: int| 0 <= j < 255 ==> #[trigger] alle_frekvenser@[j] == (ByteFrekvens {
                byte: j as u8,
                frekvens: antall_i(data@, j as u8) as u32,
            }),
            frekvenser@ == tabell_under(data@, i as int),
            data@.len() <= u32::MAX,
        decreases 255 - i,
    {
        let f = alle_frekvenser[i];
        proof {
            lemma_antall_i_grense(data@, i as u8);
        }
        if f.frekvens > 0 {
            frekvenser.push(f);
        }
        i = i + 1;
    }
    frekvenser
}


/// Antall bytes i dataen med verdi under `n`.
pub open spec fn antall_under(data: Seq<u8>, n: int) -> nat
    decreases data.len(),
{
    if data.len() == 0 {
        0
    } else {
        antall_under(data.drop_last(), n) + if (data.last() as int) < n {
            1nat
        } else {
            0nat
        }
    }
}

/// Summen av antall forekomster av byteverdiene under `n`.
pub open spec fn sum_antall(data: Seq<u8>, n: int) -> nat
    decreases n,
{
    if n <= 0 {
        0
    } else {
        sum_antall(data, n - 1) + antall_i(data, (n - 1) as u8)
    }
}

proof fn lemma_sum_antall_push(data: Seq<u8>, x: u8, n: int)
    requires
        0 <= n <= 256,
    ensures
        sum_antall(data.push(x), n) == sum_antall(data, n) + if (x as int) < n { 1nat } else { 0nat },
    decreases n,
{
    assert(data.push(x).drop_last() =~= data);
    if n > 0 {
        lemma_sum_antall_push(data, x, n - 1);
    }
}

proof fn lemma_sum_antall(data: Seq<u8>, n: int)
    requires
        0 <= n <= 256,
    ensures
        sum_antall(data, n) == antall_under(data, n),
    decreases data.len(),
{
    if data.len() == 0 {
        lemma_sum_antall_tom(data, n);
    } else {
        lemma_sum_antall(data.drop_last(), n);
        assert(data.drop_last().push(data.last()) =~= data);
        lemma_sum_antall_push(data.drop_last(), data.last(), n);
    }
}

proof fn lemma_sum_antall_tom(data: Seq<u8>, n: int)
    requires
        data.len() == 0,
    ensures
        sum_antall(data, n) == 0,
    decreases n,
{
    if n > 0 {
        lemma_sum_antall_tom(data, n - 1);
    }
}

proof fn lemma_antall_under_alle(data: Seq<u8>)
    requires
        forall|i: int| 0 <= i < data.len() ==> #[trigger] data[i] != 255,
    ensures
        antall_under(data, 255) == data.len(),
    decreases data.len(),
{
    if data.len() > 0 {
        assert forall|i: int| 0 <= i < data.drop_last().len() implies #[trigger] data.drop_last()[i] != 255 by {
            assert(data.drop_last()[i] == data[i]);
        }
        lemma_antall_under_alle(data.drop_last());
        assert(data[data.len() - 1] != 255);
    }
}

proof fn lemma_tabell_under(data: Seq<u8>, n: int)
    requires
        0 <= n <= 255,
        data.len() <= u32::MAX,
    ensures
        frekvenssum(tabell_under(data, n)) == sum_antall(data, n),
        tabell_under(data, n).len() <= n,
        forall|v: u8| #[trigger] forekomster(tabell_under(data, n), v) == if (v as int) < n && antall_i(data, v) > 0 { 1nat } else { 0nat },
    decreases n,
{
    if n > 0 {
        lemma_tabell_under(data, n - 1);
        lemma_antall_i_grense(data, (n - 1) as u8);
        let t = tabell_under(data, n);
        if antall_i(data, (n - 1) as u8) > 0 {
            assert(t.drop_last() =~= tabell_under(data, n - 1));
            assert forall|v: u8| #[trigger] forekomster(t, v) == if (v as int) < n && antall_i(data, v) > 0 { 1nat } else { 0nat } by {
                assert(forekomster(t, v) == forekomster(tabell_under(data, n - 1), v) + if t.last().byte == v { 1nat } else { 0nat });
            }
        }
    }
}

/// Egenskapene til frekvenstabellen: frekvensene summerer til lengden av
/// dataen, og hver byteverdi som forekommer har nøyaktig én oppføring.
pub proof fn lemma_frekvenstabell(data: Seq<u8>)
    requires
        kan_telles(data),
    ensures
        frekvenssum(frekvenstabell(data)) == data.len(),
        frekvenstabell(data).len() <= 255,
        forall|v: u8| #[trigger] forekomster(frekvenstabell(data), v) == if antall_i(data, v) > 0 { 1nat } else { 0nat },
        data.len() >= 1 ==> frekvenstabell(data).len() >= 1,
{
    lemma_tabell_under(data, 255);
    lemma_sum_antall(data, 255);
    lemma_antall_under_alle(data);
    assert forall|v: u8| #[trigger] forekomster(frekvenstabell(data), v) == if antall_i(data, v) > 0 { 1nat } else { 0nat } by {
        if v == 255 && antall_i(data, v) > 0 {
            lemma_ingen_255(data);
        }
    }
}

proof fn lemma_ingen_255(data: Seq<u8>)
    requires
        forall|i: int| 0 <= i < data.len() ==> #[trigger] data[i] != 255,
    ensures
        antall_i(data, 255) == 0,
    decreases data.len(),
{
    if data.len() > 0 {
        assert forall|i: int| 0 <= i < data.drop_last().len() implies #[trigger] data.drop_last()[i] != 255 by {
            assert(data.drop_last()[i] == data[i]);
        }
        lemma_ingen_255(data.drop_last());
        assert(data[data.len() - 1] != 255);
    }
}

/// Bytene frekvenstabellen lagres som.
pub open spec fn tabell_bytes(tabell: Seq<ByteFrekvens>) -> Seq<u8>
    decreases tabell.len(),
{
    if tabell.len() == 0 {
        seq![]
    } else {
        tabell_bytes(tabell.drop_last()) + frekvens_bytes(tabell.last())
    }
}

/// Stiene i treet til alle bytene i dataen, etter hverandre.
pub open spec fn stier(tre: Node, data: Seq<u8>) -> Seq<Hopp>
    decreases data.len(),
{
    if data.len() == 0 {
        seq![]
    } else {
        stier(tre, data.drop_last()) + finn(tre, data.last()).1
    }
}

/// Tallet stegene står for når venstre er 0 og høyre er 1, med det første steget høyest.
pub open spec fn horner(biter: Seq<Hopp>) -> int
    decreases biter.len(),
{
    if biter.len() == 0 {
        0
    } else {
        2 * horner(biter.drop_last()) + if biter.last() is Hoyre {
            1int
        } else {
            0int
        }
    }
}

/// 2 opphøyd i `k`.
pub open spec fn pot2(k: int) -> int
    decreases k,
{
    if k <= 0 {
        1
    } else {
        2 * pot2(k - 1)
    }
}

/// Stegene pakket i bytes: hver hele gruppe på åtte blir én byte med det
/// første steget øverst, og en siste gruppe på `k < 8` steg fyller de `k`
/// øverste bitene i en byte, med nuller under.
pub open spec fn pakk(biter: Seq<Hopp>) -> Seq<u8>
    decreases biter.len(),
{
    if biter.len() >= 8 {
        seq![horner(biter.take(8)) as u8] + pakk(biter.skip(8))
    } else if biter.len() == 0 {
        seq![]
    } else {
        seq![(horner(biter) * pot2(8 - biter.len())) as u8]
    }
}

/// Det `komprimer` skriver for dataen.
pub open spec fn huffman_komp(data: Seq<u8>) -> Seq<u8> {
    let tabell = frekvenstabell(data);
    let biter = stier(huffman_tre(tabell), data);
    stor_endian64(tabell.len() as int) + tabell_bytes(tabell) + stor_endian64(biter.len() as int) + pakk(biter)
}

/// Antall steg `komprimer` skriver for dataen.
pub open spec fn bitlengde(data: Seq<u8>) -> int {
    stier(huffman_tre(frekvenstabell(data)), data).len() as int
}

proof fn lemma_pakk_skjot(a: Seq<Hopp>, b: Seq<Hopp>)
    requires
        a.len() % 8 == 0,
    ensures
        pakk(a + b) == pakk(a) + pakk(b),
    decreases a.len(),
{
    if a.len() == 0 {
        assert(a + b =~= b);
    } else {
        assert((a + b).take(8) =~= a.take(8));
        assert((a + b).skip(8) =~= a.skip(8) + b);
        lemma_pakk_skjot(a.skip(8), b);
    }
}

proof fn lemma_horner_grense(biter: Seq<Hopp>)
    ensures
        0 <= horner(biter) < pot2(biter.len() as int),
    decreases biter.len(),
{
    if biter.len() > 0 {
        lemma_horner_grense(biter.drop_last());
    }
}

fn pot2_exec(k: u32) -> (p: u32)
    requires
        k <= 8,
    ensures
        p == pot2(k as int),
        p <= 256,
{
    let mut p: u32 = 1;
    let mut i: u32 = 0;
    proof {
        lemma_pot2_8();
    }
    while i < k
        invariant
            i <= k <= 8,
            p == pot2(i as int),
            p <= 256,
        decreases k - i,
    {
        proof {
            lemma_pot2_voksende(i as int + 1, 8);
            lemma_pot2_8();
        }
        p = p * 2;
        i = i + 1;
    }
    p
}

proof fn lemma_pot2_8()
    ensures
        pot2(7) == 128,
        pot2(8) == 256,
{
    reveal_with_fuel(pot2, 9);
}

proof fn lemma_pot2_voksende(a: int, b: int)
    requires
        0 <= a <= b,
    ensures
        1 <= pot2(a) <= pot2(b),
    decreases b,
{
    if b > a {
        lemma_pot2_voksende(a, b - 1);
    } else if a > 0 {
        lemma_pot2_voksende(a - 1, a - 1);
    }
}

/// Skriver `x` som åtte bytes i stor-endian rekkefølge.
fn skriv_u64(ut: &mut Vec<u8>, x: u64)
    ensures
        final(ut)@ == old(ut)@ + stor_endian64(x as int),
{
    ut.push(((x / 0x100000000000000) % 256) as u8);
    ut.push(((x / 0x1000000000000) % 256) as u8);
    ut.push(((x / 0x10000000000) % 256) as u8);
    ut.push(((x / 0x100000000) % 256) as u8);
    ut.push(((x / 0x1000000) % 256) as u8);
    ut.push(((x / 0x10000) % 256) as u8);
    ut.push(((x / 0x100) % 256) as u8);
    ut.push((x % 256) as u8);
    assert(final(ut)@ =~= old(ut)@ + stor_endian64(x as int));
}

/// Komprimerer dataen med Huffman-koding. Skriver frekvenstabellen først, så
/// stiene i treet til hver byte, pakket i bytes.
pub fn komprimer(data: &[u8]) -> (komprimert: Vec<u8>)
    requires
        data@.len() >= 1,
        kan_telles(data@),
    ensures
        komprimert@ == huffman_komp(data@),
{
    let mut komprimert: Vec<u8> = Vec::new();
    let frekvenstabell = finn_frekvenser(data);
    let ghost tabell = frekvenstabell@;
    proof {
        lemma_frekvenstabell(data@);
    }
    skriv_u64(&mut komprimert, frekvenstabell.len() as u64);
    let mut i: usize = 0;
    while i < frekvenstabell.len()
        invariant
            tabell == frekvenstabell@,
            i <= tabell.len(),
            komprimert@ == stor_endian64(tabell.len() as int) + tabell_bytes(tabell.take(i as int)),
        decreases tabell.len() - i,
    {
        let b = frekvenstabell[i].til_bytes();
        komprimert.push(b[0]);
        komprimert.push(b[1]);
        komprimert.push(b[2]);
        komprimert.push(b[3]);
        komprimert.push(b[4]);
        assert(tabell.take(i + 1).drop_last() =~= tabell.take(i as int));
        assert(komprimert@ =~= stor_endian64(tabell.len() as int) + tabell_bytes(tabell.take(i + 1)));
        i = i + 1;
    }
    assert(tabell.take(i as int) =~= tabell);
    let tre = konstruer_tre(frekvenstabell);
    let mut sti: Vec<Hopp> = Vec::new();
    let mut totalsti: Vec<Hopp> = Vec::new();
    let mut k: usize = 0;
    while k < data.len()
        invariant
            tre == huffman_tre(tabell),
            k <= data@.len(),
            sti@.len() == 0,
            totalsti@ == stier(tre, data@.take(k as int)),
        decreases data@.len() - k,
    {
        let byte = data[k];
        let _funnet = tre.finn_node(byte, &mut sti);
        totalsti.append(&mut sti);
        assert(data@.take(k + 1).drop_last() =~= data@.take(k as int));
        assert(totalsti@ =~= stier(tre, data@.take(k + 1)));
        k = k + 1;
    }
    assert(data@.take(k as int) =~= data@);
    let ghost biter = totalsti@;
    let ghost hode = komprimert@;
    skriv_u64(&mut komprimert, totalsti.len() as u64);
    pakk_exec(&mut komprimert, &totalsti);
    assert(komprimert@ =~= huffman_komp(data@));
    komprimert
}

/// Pakker stegene i bytes og legger dem til `ut`.
fn pakk_exec(ut: &mut Vec<u8>, totalsti: &Vec<Hopp>)
    ensures
        final(ut)@ == old(ut)@ + pakk(totalsti@),
{
    let ghost biter = totalsti@;
    let ghost forran = ut@;
    let mut buffer: u32 = 0;
    let mut teller: u32 = 0;
    let mut j: usize = 0;
    assert(biter.take(0) =~= seq![]);
    assert(pakk(seq![]) =~= seq![]);
    assert(ut@ =~= forran + pakk(biter.take(0)));
    proof {
        lemma_pot2_8();
    }
    while j < totalsti.len()
        invariant
            biter == totalsti@,
            j <= biter.len(),
            teller < 8,
            teller <= j,
            (j - teller) % 8 == 0,
            ut@ == forran + pakk(biter.take(j - teller)),
            buffer == horner(biter.subrange(j - teller, j as int)),
            buffer < pot2(teller as int),
            pot2(7) == 128,
            pot2(8) == 256,
        decreases biter.len() - j,
    {
        let ghost gammel = biter.subrange(j - teller, j as int);
        proof {
            lemma_pot2_voksende(teller as int, 7);
        }
        buffer = match totalsti[j] {
            Hopp::Venstre => buffer * 2,
            Hopp::Hoyre => buffer * 2 + 1,
        };
        teller = teller + 1;
        assert(biter.subrange(j + 1 - teller, j + 1) =~= gammel.push(biter[j as int]));
        assert(biter.subrange(j + 1 - teller, j + 1).drop_last() =~= gammel);
        assert(buffer == horner(biter.subrange(j + 1 - teller, j + 1)));
        if teller == 8 {
            let ghost start = j + 1 - 8;
            let ghost bit8 = biter.subrange(start, j + 1);
            assert(biter.take(j + 1) =~= biter.take(start) + bit8);
            proof {
                lemma_pakk_skjot(biter.take(start), bit8);
                assert(bit8.take(8) =~= bit8);
                assert(bit8.skip(8) =~= seq![]);
                assert(pakk(bit8) == seq![horner(bit8) as u8] + pakk(bit8.skip(8)));
                assert(pakk(bit8) =~= seq![horner(bit8) as u8]);
            }
            ut.push(buffer as u8);
            assert(ut@ =~= forran + pakk(biter.take(j + 1)));
            teller = 0;
            buffer = 0;
            assert(biter.subrange(j + 1, j + 1) =~= seq![]);
        }
        j = j + 1;
    }
    let ghost start = j - teller;
    let ghost rest = biter.subrange(start, j as int);
    assert(biter =~= biter.take(start) + rest);
    proof {
        lemma_pakk_skjot(biter.take(start), rest);
    }
    if teller != 0 {
        let q = pot2_exec(8 - teller);
        proof {
            lemma_pot2_voksende(teller as int, 7);
            lemma_pot2_sum(teller as int, 8 - teller);
        }
        assert(buffer * q < 256) by (nonlinear_arith)
            requires buffer < pot2(teller as int), pot2(teller as int) * q == 256, q >= 1;
        let siste = (buffer * q) as u8;
        assert(pakk(rest) == seq![(horner(rest) * pot2(8 - teller)) as u8]);
        ut.push(siste);
        assert(ut@ =~= forran + pakk(biter));
    } else {
        assert(rest =~= seq![]);
        assert(ut@ =~= forran + pakk(biter));
    }
}

proof fn lemma_pot2_sum(a: int, b: int)
    requires
        0 <= a,
        0 <= b,
    ensures
        pot2(a) * pot2(b) == pot2(a + b),
    decreases a,
{
    if a > 0 {
        lemma_pot2_sum(a - 1, b);
        assert(pot2(a) * pot2(b) == 2 * (pot2(a - 1) * pot2(b))) by (nonlinear_arith)
            requires pot2(a) == 2 * pot2(a - 1);
    }
}


/// Utfallet av å dekomprimere.
pub enum HuffmanUtfall {
    /// Dekomprimeringen gikk gjennom, med denne dataen.
    Ferdig(Seq<u8>),
    /// Dataen sluttet for tidlig.
    Feil,
    /// Tabellen er tom, frekvensene summerer til mer enn 32 bits rommer,
    /// eller treet er én løvnode mens dataen ber om steg i det.
    Panikk,
}

/// Frekvenstabellen med `n` oppføringer lest fra starten av `b`.
pub open spec fn les_tabell(b: Seq<u8>, n: int) -> Seq<ByteFrekvens>
    decreases n,
{
    if n <= 0 {
        seq![]
    } else {
        let s = 5 * (n - 1);
        les_tabell(b, n - 1).push(
            ByteFrekvens { byte: b[s + 4], frekvens: fra_stor_endian32(b.subrange(s, s + 4)) as u32 },
        )
    }
}

/// Tallet en bit i posisjon `j` (0 er den øverste) deler byten med.
pub open spec fn deler(j: int) -> int {
    if j == 0 {
        128
    } else if j == 1 {
        64
    } else if j == 2 {
        32
    } else if j == 3 {
        16
    } else if j == 4 {
        8
    } else if j == 5 {
        4
    } else if j == 6 {
        2
    } else {
        1
    }
}

/// Steg nummer `i` i bytene, med den øverste biten i hver byte først.
pub open spec fn steg_av(b: Seq<u8>, i: int) -> Hopp {
    if (b[i / 8] as int / deler(i % 8)) % 2 == 1 {
        Hopp::Hoyre
    } else {
        Hopp::Venstre
    }
}

/// De `m` første stegene i bytene.
pub open spec fn stegstrom(b: Seq<u8>, m: int) -> Seq<Hopp> {
    Seq::new(m as nat, |i: int| steg_av(b, i))
}

/// Følger stegene fra `node` i treet med rot `rot`, og skriver verdien hver
/// gang en node med verdi nås, for så å starte fra roten igjen.
pub open spec fn dekod_fra(rot: Node, node: Node, biter: Seq<Hopp>) -> Seq<u8>
    decreases biter.len(),
{
    if biter.len() == 0 {
        seq![]
    } else {
        let neste = match biter[0] {
            Hopp::Hoyre => *node.hoyre.unwrap(),
            Hopp::Venstre => *node.venstre.unwrap(),
        };
        match neste.verdi {
            Some(v) => seq![v] + dekod_fra(rot, rot, biter.drop_first()),
            None => dekod_fra(rot, neste, biter.drop_first()),
        }
    }
}

/// Det `dekomprimer` gir for dataen.
pub open spec fn huffman_dekod(data: Seq<u8>) -> HuffmanUtfall {
    if data.len() < 8 {
        HuffmanUtfall::Feil
    } else {
        let n = fra_stor_endian64(data.take(8));
        if data.len() < 8 + 5 * n {
            HuffmanUtfall::Feil
        } else {
            let tabell = les_tabell(data.skip(8), n);
            if n == 0 || frekvenssum(tabell) > u32::MAX {
                HuffmanUtfall::Panikk
            } else {
                let p = 8 + 5 * n;
                if data.len() < p + 8 {
                    HuffmanUtfall::Feil
                } else {
                    let m = fra_stor_endian64(data.subrange(p, p + 8));
                    let q = p + 8;
                    if data.len() < q + 1 {
                        HuffmanUtfall::Feil
                    } else if n == 1 && m > 0 {
                        HuffmanUtfall::Panikk
                    } else if data.len() < q + (m + 7) / 8 {
                        HuffmanUtfall::Feil
                    } else {
                        let tre = huffman_tre(tabell);
                        HuffmanUtfall::Ferdig(dekod_fra(tre, tre, stegstrom(data.skip(q), m)))
                    }
                }
            }
        }
    }
}

/// Leser åtte bytes i stor-endian rekkefølge fra `pos`.
fn les_u64(data: &[u8], pos: usize) -> (x: u64)
    requires
        pos + 8 <= data@.len(),
    ensures
        x as int == fra_stor_endian64(data@.subrange(pos as int, pos + 8)),
{
    let mut x: u64 = 0;
    let mut k: usize = 0;
    let ghost b = data@.subrange(pos as int, pos + 8);
    assert(data@.len() == data.len());
    while k < 8
        invariant
            k <= 8,
            data@.len() <= usize::MAX,
            pos + 8 <= data@.len(),
            b == data@.subrange(pos as int, pos + 8),
            x as int == les_delvis(b, k as int),
            x < pot256(k as int),
        decreases 8 - k,
    {
        proof {
            lemma_pot256(k as int);
        }
        x = x * 256 + data[pos + k] as u64;
        k = k + 1;
    }
    proof {
        lemma_les_delvis_8(b);
    }
    x
}

/// 256 opphøyd i `k`.
pub open spec fn pot256(k: int) -> int
    decreases k,
{
    if k <= 0 {
        1
    } else {
        256 * pot256(k - 1)
    }
}

/// Tallet de `k` første bytene står for i stor-endian rekkefølge.
pub open spec fn les_delvis(b: Seq<u8>, k: int) -> int
    decreases k,
{
    if k <= 0 {
        0
    } else {
        les_delvis(b, k - 1) * 256 + b[k - 1]
    }
}

proof fn lemma_pot256(k: int)
    requires
        0 <= k < 8,
    ensures
        pot256(k + 1) == 256 * pot256(k),
        pot256(k + 1) <= 0x1_0000_0000_0000_0000,
{
    reveal_with_fuel(pot256, 9);
    assert(pot256(8) == 0x1_0000_0000_0000_0000);
    lemma_pot256_voksende(k + 1);
}

proof fn lemma_pot256_voksende(k: int)
    requires
        0 <= k <= 8,
    ensures
        pot256(k) <= pot256(8),
    decreases 8 - k,
{
    if k < 8 {
        lemma_pot256_voksende(k + 1);
        assert(pot256(k + 1) == 256 * pot256(k));
        lemma_pot256_positiv(k);
    }
}

proof fn lemma_pot256_positiv(k: int)
    ensures
        pot256(k) >= 1,
    decreases k,
{
    if k > 0 {
        lemma_pot256_positiv(k - 1);
    }
}

proof fn lemma_les_delvis_8(b: Seq<u8>)
    requires
        b.len() == 8,
    ensures
        les_delvis(b, 8) == fra_stor_endian64(b),
{
    reveal_with_fuel(les_delvis, 9);
}

/// Biten i posisjon `j` (0 er den øverste) i byten.
fn bit_i_byte(byte: u8, j: u64) -> (res: bool)
    requires
        j < 8,
    ensures
        res == ((byte as int / deler(j as int)) % 2 == 1),
{
    let d: u8 = if j == 0 {
        128
    } else if j == 1 {
        64
    } else if j == 2 {
        32
    } else if j == 3 {
        16
    } else if j == 4 {
        8
    } else if j == 5 {
        4
    } else if j == 6 {
        2
    } else {
        1
    };
    (byte / d) % 2 == 1
}

/// Dekomprimerer data laget av `komprimer`. Gir feilmeldingen når dataen
/// slutter for tidlig.
pub fn dekomprimer(data: &[u8]) -> (res: Result<Vec<u8>, String>)
    requires
        huffman_dekod(data@) != HuffmanUtfall::Panikk,
    ensures
        match huffman_dekod(data@) {
            HuffmanUtfall::Ferdig(ut) => res is Ok && res->Ok_0@ == ut,
            _ => res is Err && res->Err_0@ == crate::lz77::feilmelding(),
        },
{
    let mut resultat: Vec<u8> = Vec::new();
    if data.len() < 8 {
        return Err(String::from_str("En uventet feil oppsto ved dekomprimering"));
    }
    let tabell_lengde = les_u64(data, 0);
    assert(data@.subrange(0, 8) =~= data@.take(8));
    let plass: u64 = ((data.len() - 8) / 5) as u64;
    if plass < tabell_lengde {
        return Err(String::from_str("En uventet feil oppsto ved dekomprimering"));
    }
    let n = tabell_lengde as usize;
    let mut frekvenstabell: Vec<ByteFrekvens> = Vec::new();
    let mut i: usize = 0;
    let ghost b = data@.skip(8);
    while i < n
        invariant
            n as int == fra_stor_endian64(data@.take(8)),
            8 + 5 * n <= data@.len(),
            data@.len() <= usize::MAX,
            b == data@.skip(8),
            i <= n,
            frekvenstabell@ == les_tabell(b, i as int),
            frekvenstabell@.len() == i,
        decreases n - i,
    {
        let s = 8 + 5 * i;
        let bytes: [u8; 5] = [data[s], data[s + 1], data[s + 2], data[s + 3], data[s + 4]];
        assert(bytes@ =~= b.subrange(5 * i, 5 * i + 5));
        assert(bytes@.take(4) =~= b.subrange(5 * i, 5 * i + 4));
        frekvenstabell.push(ByteFrekvens::fra_bytes(bytes));
        assert(frekvenstabell@ =~= les_tabell(b, i + 1));
        i = i + 1;
    }
    let ghost tabell = frekvenstabell@;
    assert(n <= usize::MAX / 5);
    if n == 0 {
        proof {
            assert(false);
        }
        return Err(String::from_str("En uventet feil oppsto ved dekomprimering"));
    }
    let mut posisjon: usize = 8 + 5 * n;
    if data.len() - posisjon < 8 {
        return Err(String::from_str("En uventet feil oppsto ved dekomprimering"));
    }
    let data_lengde = les_u64(data, posisjon);
    posisjon = posisjon + 8;
    if posisjon >= data.len() {
        return Err(String::from_str("En uventet feil oppsto ved dekomprimering"));
    }
    proof {
        lemma_huffman_tre(tabell);
    }
    let rotnode = konstruer_tre(frekvenstabell);
    let ghost q = posisjon as int;
    let ghost bytes = data@.skip(q);
    let ghost biter = stegstrom(bytes, data_lengde as int);
    let mut bytebuffer: u8 = 0;
    let mut bit_teller: u64 = 0;
    let mut node: &Node = &rotnode;
    assert(biter.subrange(0, data_lengde as int) =~= biter);
    assert(data@.subrange(8 + 5 * n, 8 + 5 * n + 8) == data@.subrange(q - 8, q));
    assert(huffman_dekod(data@) == (if (data@.len() as int) < q + (data_lengde as int + 7) / 8 {
        HuffmanUtfall::Feil
    } else {
        HuffmanUtfall::Ferdig(dekod_fra(rotnode, rotnode, biter))
    }));
    while bit_teller < data_lengde
        invariant
            rotnode == huffman_tre(tabell),
            fullt(rotnode),
            n >= 2 || data_lengde == 0,
            n >= 2 ==> rotnode.venstre is Some,
            fullt(*node),
            bit_teller < data_lengde ==> node.venstre is Some,
            0 <= q <= data@.len(),
            bytes == data@.skip(q),
            biter == stegstrom(bytes, data_lengde as int),
            bit_teller <= data_lengde,
            posisjon as int == q + (bit_teller + 7) / 8,
            posisjon <= data@.len(),
            bit_teller % 8 != 0 ==> bytebuffer == data@[posisjon - 1],
            huffman_dekod(data@) == (if (data@.len() as int) < q + (data_lengde as int + 7) / 8 {
                HuffmanUtfall::Feil
            } else {
                HuffmanUtfall::Ferdig(dekod_fra(rotnode, rotnode, biter))
            }),
            resultat@ + dekod_fra(rotnode, *node, biter.subrange(bit_teller as int, data_lengde as int))
                == dekod_fra(rotnode, rotnode, biter),
        decreases data_lengde - bit_teller,
    {
        if bit_teller % 8 == 0 {
            if posisjon >= data.len() {
                assert(bit_teller as int / 8 + 1 <= (data_lengde as int + 7) / 8);
                return Err(String::from_str("En uventet feil oppsto ved dekomprimering"));
            }
            bytebuffer = data[posisjon];
            posisjon = posisjon + 1;
        }
        assert(posisjon - 1 == q + bit_teller as int / 8);
        let ghost rest = biter.subrange(bit_teller as int, data_lengde as int);
        let bit = bit_i_byte(bytebuffer, bit_teller % 8);
        assert(rest[0] == biter[bit_teller as int]);
        assert(biter[bit_teller as int] == steg_av(bytes, bit_teller as int));
        assert(0 <= bit_teller as int / 8 < bytes.len());
        assert(bytes[bit_teller as int / 8] == data@[q + bit_teller as int / 8]);
        assert(bit <==> rest[0] is Hoyre);
        let ghost forrige = *node;
        let neste: &Node = if bit {
            match &node.hoyre {
                Some(h) => &**h,
                None => {
                    proof {
                        assert(false);
                    }
                    return Err(String::from_str("En uventet feil oppsto ved dekomprimering"));
                },
            }
        } else {
            match &node.venstre {
                Some(v) => &**v,
                None => {
                    proof {
                        assert(false);
                    }
                    return Err(String::from_str("En uventet feil oppsto ved dekomprimering"));
                },
            }
        };
        node = neste;
        bit_teller = bit_teller + 1;
        assert(rest.drop_first() =~= biter.subrange(bit_teller as int, data_lengde as int));
        assert(fullt(forrige));
        assert(fullt(*node));
        if let Some(verdi) = node.verdi {
            resultat.push(verdi);
            node = &rotnode;
        } else {
            assert(node.venstre is Some);
        }
    }
    assert(biter.subrange(bit_teller as int, data_lengde as int) =~= seq![]);
    Ok(resultat)
}


/// Summen av frekvensene vokser når flere oppføringer leses.
proof fn lemma_frekvenssum_voksende(b: Seq<u8>, k: int, l: int)
    requires
        0 <= k <= l,
    ensures
        frekvenssum(les_tabell(b, k)) <= frekvenssum(les_tabell(b, l)),
    decreases l - k,
{
    if k < l {
        lemma_frekvenssum_voksende(b, k, l - 1);
        assert(les_tabell(b, l).drop_last() =~= les_tabell(b, l - 1));
    }
}

/// Om `dekomprimer` kan kjøres på dataen uten panikk.
pub fn kan_dekomprimeres(data: &[u8]) -> (res: bool)
    ensures
        res == (huffman_dekod(data@) != HuffmanUtfall::Panikk),
{
    if data.len() < 8 {
        return true;
    }
    let tabell_lengde = les_u64(data, 0);
    assert(data@.subrange(0, 8) =~= data@.take(8));
    let plass: u64 = ((data.len() - 8) / 5) as u64;
    if plass < tabell_lengde {
        return true;
    }
    if tabell_lengde == 0 {
        return false;
    }
    let n = tabell_lengde as usize;
    let ghost b = data@.skip(8);
    let mut sum: u64 = 0;
    let mut i: usize = 0;
    while i < n
        invariant
            n as int == fra_stor_endian64(data@.take(8)),
            8 + 5 * n <= data@.len(),
            data@.len() <= usize::MAX,
            b == data@.skip(8),
            i <= n,
            sum == frekvenssum(les_tabell(b, i as int)),
            sum <= u32::MAX,
        decreases n - i,
    {
        let s = 8 + 5 * i;
        let bytes: [u8; 5] = [data[s], data[s + 1], data[s + 2], data[s + 3], data[s + 4]];
        assert(bytes@ =~= b.subrange(5 * i, 5 * i + 5));
        assert(bytes@.take(4) =~= b.subrange(5 * i, 5 * i + 4));
        let f = ByteFrekvens::fra_bytes(bytes);
        assert(les_tabell(b, i + 1).drop_last() =~= les_tabell(b, i as int));
        sum = sum + f.frekvens as u64;
        i = i + 1;
        if sum > u32::MAX as u64 {
            proof {
                lemma_frekvenssum_voksende(b, i as int, n as int);
            }
            return false;
        }
    }
    assert(n <= usize::MAX / 5);
    let p: usize = 8 + 5 * n;
    if data.len() - p < 8 {
        return true;
    }
    let data_lengde = les_u64(data, p);
    if data.len() - p - 8 < 1 {
        return true;
    }
    !(n == 1 && data_lengde > 0)
}

proof fn lemma_del_256(x: int, c: int)
    requires
        x >= 0,
        c > 0,
    ensures
        x / c == (x / (c * 256)) * 256 + (x / c) % 256,
        x / c >= 0,
{
    vstd::arithmetic::div_mod::lemma_div_denominator(x, c, 256);
    vstd::arithmetic::div_mod::lemma_fundamental_div_mod(x / c, 256);
    vstd::arithmetic::div_mod::lemma_div_pos_is_pos(x, c);
}

/// Åtte bytes skrevet i stor-endian rekkefølge leses tilbake som samme tall.
pub proof fn lemma_stor_endian64(x: int)
    requires
        0 <= x < 0x1_0000_0000_0000_0000,
    ensures
        fra_stor_endian64(stor_endian64(x)) == x,
        stor_endian64(x).len() == 8,
{
    lemma_del_256(x, 1);
    lemma_del_256(x, 0x100);
    lemma_del_256(x, 0x10000);
    lemma_del_256(x, 0x1000000);
    lemma_del_256(x, 0x100000000);
    lemma_del_256(x, 0x10000000000);
    lemma_del_256(x, 0x1000000000000);
    vstd::arithmetic::div_mod::lemma_fundamental_div_mod(x, 0x100000000000000);
    vstd::arithmetic::div_mod::lemma_mod_bound(x, 0x100000000000000);
    let y = x / 0x100000000000000;
    assert(y < 256);
    vstd::arithmetic::div_mod::lemma_small_mod(y as nat, 256);
    assert(x / 1 == x);
    let b = stor_endian64(x);
    assert(b[7] == x % 256);
}

proof fn lemma_tabell_bytes_len(tabell: Seq<ByteFrekvens>)
    ensures
        tabell_bytes(tabell).len() == 5 * tabell.len(),
    decreases tabell.len(),
{
    if tabell.len() > 0 {
        lemma_tabell_bytes_len(tabell.drop_last());
    }
}

proof fn lemma_les_tabell(b: Seq<u8>, tabell: Seq<ByteFrekvens>)
    requires
        b.len() >= 5 * tabell.len(),
        b.take(5 * tabell.len() as int) == tabell_bytes(tabell),
    ensures
        les_tabell(b, tabell.len() as int) == tabell,
    decreases tabell.len(),
{
    if tabell.len() > 0 {
        let n = tabell.len() as int;
        let s = 5 * (n - 1);
        lemma_tabell_bytes_len(tabell.drop_last());
        assert(b.take(s) =~= tabell_bytes(tabell).take(s));
        assert(tabell_bytes(tabell).take(s) =~= tabell_bytes(tabell.drop_last()));
        lemma_les_tabell(b, tabell.drop_last());
        let f = tabell.last();
        assert(b.subrange(s, s + 5) =~= frekvens_bytes(f)) by {
            assert forall|i: int| 0 <= i < 5 implies b.subrange(s, s + 5)[i] == frekvens_bytes(f)[i] by {
                assert(b[s + i] == b.take(5 * n)[s + i]);
            }
        }
        frekvens_tur_retur(f);
        assert(b.subrange(s, s + 4) =~= frekvens_bytes(f).take(4));
        assert(fra_stor_endian32(b.subrange(s, s + 4)) == fra_stor_endian32(frekvens_bytes(f)));
        assert(les_tabell(b, n) =~= tabell);
    }
}

proof fn lemma_horner_push(s: Seq<Hopp>, x: Hopp)
    ensures
        horner(s.push(x)) == 2 * horner(s) + if x is Hoyre { 1int } else { 0int },
{
    assert(s.push(x).drop_last() =~= s);
}

/// Biten i posisjon `j` av en byte satt sammen av åtte biter er bit nummer `j`.
proof fn lemma_biter_i_byte(b0: u8, b1: u8, b2: u8, b3: u8, b4: u8, b5: u8, b6: u8, b7: u8)
    by (bit_vector)
    requires
        b0 <= 1, b1 <= 1, b2 <= 1, b3 <= 1, b4 <= 1, b5 <= 1, b6 <= 1, b7 <= 1,
    ensures
        ((b0 * 128 + b1 * 64 + b2 * 32 + b3 * 16 + b4 * 8 + b5 * 4 + b6 * 2 + b7) / 128) % 2 == b0,
        ((b0 * 128 + b1 * 64 + b2 * 32 + b3 * 16 + b4 * 8 + b5 * 4 + b6 * 2 + b7) / 64) % 2 == b1,
        ((b0 * 128 + b1 * 64 + b2 * 32 + b3 * 16 + b4 * 8 + b5 * 4 + b6 * 2 + b7) / 32) % 2 == b2,
        ((b0 * 128 + b1 * 64 + b2 * 32 + b3 * 16 + b4 * 8 + b5 * 4 + b6 * 2 + b7) / 16) % 2 == b3,
        ((b0 * 128 + b1 * 64 + b2 * 32 + b3 * 16 + b4 * 8 + b5 * 4 + b6 * 2 + b7) / 8) % 2 == b4,
        ((b0 * 128 + b1 * 64 + b2 * 32 + b3 * 16 + b4 * 8 + b5 * 4 + b6 * 2 + b7) / 4) % 2 == b5,
        ((b0 * 128 + b1 * 64 + b2 * 32 + b3 * 16 + b4 * 8 + b5 * 4 + b6 * 2 + b7) / 2) % 2 == b6,
        ((b0 * 128 + b1 * 64 + b2 * 32 + b3 * 16 + b4 * 8 + b5 * 4 + b6 * 2 + b7) / 1) % 2 == b7,
{
}

/// 1 for høyre, 0 for venstre.
pub open spec fn bitverdi(h: Hopp) -> int {
    if h is Hoyre {
        1
    } else {
        0
    }
}

/// Byten åtte steg pakkes til gir stegene tilbake når bitene leses med den
/// øverste først.
proof fn lemma_en_byte(s: Seq<Hopp>, byte: int)
    requires
        s.len() == 8,
        byte == horner(s),
    ensures
        0 <= byte < 256,
        forall|j: int| 0 <= j < s.len() ==> (#[trigger] (byte / deler(j)) % 2 == 1) == (s[j] is Hoyre),
{
    let b = |j: int| if j < s.len() { bitverdi(s[j]) } else { 0 };
    assert(s.take(0) =~= Seq::<Hopp>::empty());
    lemma_horner_take(s, 0);
    lemma_horner_take(s, 1);
    lemma_horner_take(s, 2);
    lemma_horner_take(s, 3);
    lemma_horner_take(s, 4);
    lemma_horner_take(s, 5);
    lemma_horner_take(s, 6);
    lemma_horner_take(s, 7);
    assert(s.take(s.len() as int) =~= s);
    lemma_biter_i_byte(b(0) as u8, b(1) as u8, b(2) as u8, b(3) as u8, b(4) as u8, b(5) as u8, b(6) as u8, b(7) as u8);
    assert forall|j: int| 0 <= j < s.len() implies (#[trigger] (byte / deler(j)) % 2 == 1) == (s[j] is Hoyre) by {
        assert(b(j) == bitverdi(s[j]));
    }
}

/// Steg til venstre lagt til bakerst dobler tallet for hvert steg.
proof fn lemma_horner_nuller(s: Seq<Hopp>, k: nat)
    ensures
        horner(s + Seq::new(k, |i: int| Hopp::Venstre)) == horner(s) * pot2(k as int),
    decreases k,
{
    if k > 0 {
        let t = s + Seq::new(k, |i: int| Hopp::Venstre);
        let u = s + Seq::new((k - 1) as nat, |i: int| Hopp::Venstre);
        assert(t.drop_last() =~= u);
        lemma_horner_nuller(s, (k - 1) as nat);
        assert(horner(t) == 2 * horner(u));
        assert(2 * (horner(s) * pot2(k - 1)) == horner(s) * (2 * pot2(k - 1))) by (nonlinear_arith);
    }
}

/// Byten de `k` siste stegene pakkes til, med stegene i de `k` øverste
/// bitene, gir stegene tilbake når bitene leses med den øverste først.
proof fn lemma_delvis_byte(s: Seq<Hopp>, byte: int)
    requires
        1 <= s.len() <= 8,
        byte == horner(s) * pot2(8 - s.len()),
    ensures
        0 <= byte < 256,
        forall|j: int| 0 <= j < s.len() ==> (#[trigger] (byte / deler(j)) % 2 == 1) == (s[j] is Hoyre),
{
    let k = (8 - s.len()) as nat;
    let s8 = s + Seq::new(k, |i: int| Hopp::Venstre);
    lemma_horner_nuller(s, k);
    lemma_en_byte(s8, byte);
    assert forall|j: int| 0 <= j < s.len() implies (#[trigger] (byte / deler(j)) % 2 == 1) == (s[j] is Hoyre) by {
        assert(s8[j] == s[j]);
    }
}

proof fn lemma_horner_take(s: Seq<Hopp>, k: int)
    requires
        0 <= k < s.len(),
    ensures
        horner(s.take(k + 1)) == 2 * horner(s.take(k)) + bitverdi(s[k]),
{
    assert(s.take(k + 1) =~= s.take(k).push(s[k]));
    lemma_horner_push(s.take(k), s[k]);
}

proof fn lemma_pakk_lengde(biter: Seq<Hopp>)
    ensures
        pakk(biter).len() == biter.len() / 8 + if biter.len() % 8 > 0 { 1int } else { 0int },
    decreases biter.len(),
{
    if biter.len() >= 8 {
        lemma_pakk_lengde(biter.skip(8));
    }
}

/// Stegene pakket i bytes leses tilbake som de samme stegene.
proof fn lemma_pakk_stegstrom(biter: Seq<Hopp>)
    ensures
        stegstrom(pakk(biter), biter.len() as int) =~= biter,
    decreases biter.len(),
{
    let p = pakk(biter);
    lemma_pakk_lengde(biter);
    if biter.len() >= 8 {
        let resten = biter.skip(8);
        lemma_pakk_stegstrom(resten);
        lemma_pakk_lengde(resten);
        assert(p =~= seq![horner(biter.take(8)) as u8] + pakk(resten));
        let forste = biter.take(8);
        lemma_en_byte(forste, horner(forste));
        lemma_horner_grense(forste);
        assert forall|i: int| 0 <= i < biter.len() implies #[trigger] steg_av(p, i) == biter[i] by {
            if i < 8 {
                assert(p[0] == horner(forste) as u8);
                assert(forste[i] == biter[i]);
                assert(i / 8 == 0 && i % 8 == i);
            } else {
                assert(p.skip(1) =~= pakk(resten));
                assert((i - 8) / 8 == i / 8 - 1 && (i - 8) % 8 == i % 8);
                assert(steg_av(pakk(resten), i - 8) == resten[i - 8]);
                assert(p[i / 8] == pakk(resten)[(i - 8) / 8]);
            }
        }
    } else if biter.len() > 0 {
        let b = horner(biter) * pot2(8 - biter.len());
        lemma_delvis_byte(biter, b);
        assert forall|i: int| 0 <= i < biter.len() implies #[trigger] steg_av(p, i) == biter[i] by {
            assert(p[0] == b as u8);
            assert(i / 8 == 0 && i % 8 == i);
        }
    }
}

proof fn lemma_finn_uten(t: Node, v: u8)
    requires
        antall(t, v) == 0,
    ensures
        finn(t, v) == (false, Seq::<Hopp>::empty()),
    decreases t,
{
    if let Some(b) = t.venstre {
        lemma_finn_uten(*b, v);
    }
    if let Some(b) = t.hoyre {
        lemma_finn_uten(*b, v);
    }
    assert(finn(t, v).1 =~= Seq::<Hopp>::empty());
}

proof fn lemma_finn_med(t: Node, v: u8)
    requires
        antall(t, v) >= 1,
    ensures
        finn(t, v).0,
    decreases t,
{
    if t.verdi != Some(v) {
        match t.venstre {
            Some(b) => {
                if antall(*b, v) >= 1 {
                    lemma_finn_med(*b, v);
                } else {
                    match t.hoyre {
                        Some(c) => lemma_finn_med(*c, v),
                        None => {},
                    }
                }
            },
            None => {
                match t.hoyre {
                    Some(c) => lemma_finn_med(*c, v),
                    None => {},
                }
            },
        }
    }
}

/// Å følge stien `finn` gir til en verdi som finnes én gang i et fullt
/// tre, fra en indre node, skriver nettopp den verdien og starter fra roten igjen.
proof fn lemma_dekod_sti(rot: Node, t: Node, v: u8, rest: Seq<Hopp>)
    requires
        fullt(t),
        t.venstre is Some,
        antall(t, v) == 1,
    ensures
        dekod_fra(rot, t, finn(t, v).1 + rest) == seq![v] + dekod_fra(rot, rot, rest),
    decreases t,
{
    let l = *t.venstre.unwrap();
    let r = *t.hoyre.unwrap();
    assert(t.verdi is None);
    if antall(l, v) == 1 {
        lemma_finn_uten(r, v);
        lemma_finn_med(l, v);
        let p = finn(l, v).1;
        assert(finn(t, v).1 =~= seq![Hopp::Venstre] + p);
        let alle = finn(t, v).1 + rest;
        assert(alle[0] == Hopp::Venstre);
        assert(alle.drop_first() =~= p + rest);
        assert(fullt(l));
        if l.verdi is Some {
            assert(l.venstre is None);
            assert(l.hoyre is None);
            assert(antall(l, v) == if l.verdi == Some(v) { 1nat } else { 0nat });
            assert(l.verdi == Some(v));
            assert(p =~= Seq::<Hopp>::empty());
            assert(p + rest =~= rest);
        } else {
            lemma_dekod_sti(rot, l, v, rest);
        }
    } else {
        assert(antall(r, v) == 1);
        lemma_finn_uten(l, v);
        lemma_finn_med(r, v);
        let p = finn(r, v).1;
        assert(finn(t, v).1 =~= seq![Hopp::Hoyre] + p);
        let alle = finn(t, v).1 + rest;
        assert(alle[0] == Hopp::Hoyre);
        assert(alle.drop_first() =~= p + rest);
        assert(fullt(r));
        if r.verdi is Some {
            assert(r.venstre is None);
            assert(r.hoyre is None);
            assert(antall(r, v) == if r.verdi == Some(v) { 1nat } else { 0nat });
            assert(r.verdi == Some(v));
            assert(p =~= Seq::<Hopp>::empty());
            assert(p + rest =~= rest);
        } else {
            lemma_dekod_sti(rot, r, v, rest);
        }
    }
}

/// Stien til en verdi som står én gang i et fullt tre med barn, har minst
/// ett steg.
proof fn lemma_finn_ikke_tom(t: Node, v: u8)
    requires
        fullt(t),
        t.venstre is Some,
        antall(t, v) == 1,
    ensures
        finn(t, v).1.len() >= 1,
{
    let l = *t.venstre.unwrap();
    let r = *t.hoyre.unwrap();
    if antall(l, v) == 1 {
        lemma_finn_uten(r, v);
        lemma_finn_med(l, v);
        assert(finn(t, v).1 =~= seq![Hopp::Venstre] + finn(l, v).1);
    } else {
        lemma_finn_uten(l, v);
        lemma_finn_med(r, v);
        assert(finn(t, v).1 =~= seq![Hopp::Hoyre] + finn(r, v).1);
    }
}

proof fn lemma_dekod_stier(rot: Node, data: Seq<u8>, rest: Seq<Hopp>)
    requires
        fullt(rot),
        rot.venstre is Some,
        forall|i: int| 0 <= i < data.len() ==> antall(rot, #[trigger] data[i]) == 1,
    ensures
        dekod_fra(rot, rot, stier(rot, data) + rest) == data + dekod_fra(rot, rot, rest),
    decreases data.len(),
{
    if data.len() == 0 {
        assert(stier(rot, data) + rest =~= rest);
        assert(data + dekod_fra(rot, rot, rest) =~= dekod_fra(rot, rot, rest));
    } else {
        let d = data.drop_last();
        let x = data.last();
        assert(antall(rot, data[data.len() - 1]) == 1);
        assert forall|i: int| 0 <= i < d.len() implies antall(rot, #[trigger] d[i]) == 1 by {
            assert(d[i] == data[i]);
        }
        let p = finn(rot, x).1;
        assert(stier(rot, data) + rest =~= stier(rot, d) + (p + rest));
        lemma_dekod_stier(rot, d, p + rest);
        lemma_dekod_sti(rot, rot, x, rest);
        assert(d + (seq![x] + dekod_fra(rot, rot, rest)) =~= data + dekod_fra(rot, rot, rest));
    }
}

proof fn lemma_antall_i_positiv(data: Seq<u8>, i: int)
    requires
        0 <= i < data.len(),
    ensures
        antall_i(data, data[i]) > 0,
    decreases data.len(),
{
    if i < data.len() - 1 {
        lemma_antall_i_positiv(data.drop_last(), i);
        assert(data.drop_last()[i] == data[i]);
    }
}

proof fn lemma_dekod_oppbygning(e: Seq<u8>, n: int, tabell: Seq<ByteFrekvens>, m: int)
    requires
        e.len() >= 8,
        fra_stor_endian64(e.take(8)) == n,
        n >= 2,
        e.len() == 8 + 5 * n + 8 + (m + 7) / 8,
        m >= 1,
        les_tabell(e.skip(8), n) == tabell,
        frekvenssum(tabell) <= u32::MAX,
        fra_stor_endian64(e.subrange(8 + 5 * n, 8 + 5 * n + 8)) == m,
    ensures
        huffman_dekod(e) == HuffmanUtfall::Ferdig(
            dekod_fra(huffman_tre(tabell), huffman_tre(tabell), stegstrom(e.skip(8 + 5 * n + 8), m)),
        ),
{
}

proof fn lemma_fire_deler(a: Seq<u8>, t: Seq<u8>, b: Seq<u8>, p: Seq<u8>)
    requires
        a.len() == 8,
        b.len() == 8,
    ensures
        ({
            let e = a + t + b + p;
            &&& e.len() == 16 + t.len() + p.len()
            &&& e.take(8) == a
            &&& e.skip(8).take(t.len() as int) == t
            &&& e.subrange(8 + t.len() as int, 16 + t.len() as int) == b
            &&& e.skip(16 + t.len() as int) == p
        }),
{
    let e = a + t + b + p;
    assert(e.take(8) =~= a);
    assert(e.skip(8).take(t.len() as int) =~= t);
    assert(e.subrange(8 + t.len() as int, 16 + t.len() as int) =~= b);
    assert(e.skip(16 + t.len() as int) =~= p);
}

proof fn lemma_komp_deler(tabell: Seq<ByteFrekvens>, biter: Seq<Hopp>)
    requires
        tabell.len() <= 255,
        biter.len() < 0x1_0000_0000_0000_0000,
    ensures
        ({
            let n = tabell.len() as int;
            let m = biter.len() as int;
            let e = stor_endian64(n) + tabell_bytes(tabell) + stor_endian64(m) + pakk(biter);
            &&& e.len() == 8 + 5 * n + 8 + (m + 7) / 8
            &&& fra_stor_endian64(e.take(8)) == n
            &&& les_tabell(e.skip(8), n) == tabell
            &&& fra_stor_endian64(e.subrange(8 + 5 * n, 8 + 5 * n + 8)) == m
            &&& e.skip(8 + 5 * n + 8) == pakk(biter)
        }),
{
    let n = tabell.len() as int;
    let m = biter.len() as int;
    let tb = tabell_bytes(tabell);
    let pk = pakk(biter);
    lemma_stor_endian64(n);
    lemma_tabell_bytes_len(tabell);
    lemma_pakk_lengde(biter);
    let sn = stor_endian64(n);
    let sm = stor_endian64(m);
    lemma_fire_deler(sn, tb, sm, pk);
    let e = sn + tb + sm + pk;
    lemma_stor_endian64(m);
    lemma_les_tabell(e.skip(8), tabell);
}

/// Antall noder i treet.
pub open spec fn storrelse(t: Node) -> nat
    decreases t,
{
    1 + match t.venstre {
        Some(b) => storrelse(*b),
        None => 0,
    } + match t.hoyre {
        Some(b) => storrelse(*b),
        None => 0,
    }
}

/// Antall noder i et tre, som vekt.
pub open spec fn storrelse_vekt() -> spec_fn(Node) -> int {
    |x: Node| storrelse(x) as int
}

proof fn lemma_slaa_sammen_storrelse(s: Seq<Node>)
    requires
        s.len() >= 1,
        sum_vekt(s, ikke_full_vekt()) == 0,
        sum_vekt(s, frekvens_vekt()) <= u32::MAX,
    ensures
        storrelse(slaa_sammen(s)[0]) == sum_vekt(s, storrelse_vekt()) + s.len() - 1,
    decreases s.len(),
{
    lemma_sum_vekt_ikke_negativ(s, ikke_full_vekt());
    lemma_sum_vekt_ikke_negativ(s, frekvens_vekt());
    if s.len() == 1 {
        lemma_sum_vekt_en(s, storrelse_vekt());
    } else {
        let a = ta_ut(s);
        lemma_ta_ut(s);
        let b = ta_ut(a.1);
        lemma_ta_ut(a.1);
        let x = a.0.unwrap();
        let y = b.0.unwrap();
        assert(ikke_full_vekt()(x) == 0);
        lemma_sum_vekt_ikke_negativ(a.1, ikke_full_vekt());
        assert(ikke_full_vekt()(y) == 0);
        lemma_sum_vekt_ikke_negativ(b.1, frekvens_vekt());
        lemma_sum_vekt_ikke_negativ(b.1, ikke_full_vekt());
        let k = kombiner(x, y);
        lemma_kombiner(x, y);
        assert(frekvens_vekt()(x) + frekvens_vekt()(y) + sum_vekt(b.1, frekvens_vekt()) == sum_vekt(s, frekvens_vekt()));
        let t = legg_inn(b.1, k);
        lemma_legg_inn(b.1, k);
        assert(sum_vekt(t, ikke_full_vekt()) == 0);
        assert(sum_vekt(t, frekvens_vekt()) == sum_vekt(s, frekvens_vekt()));
        lemma_slaa_sammen_storrelse(t);
        assert(storrelse(k) == 1 + storrelse(x) + storrelse(y));
        assert(sum_vekt(t, storrelse_vekt()) == sum_vekt(b.1, storrelse_vekt()) + storrelse_vekt()(k));
        assert(sum_vekt(a.1, storrelse_vekt()) + storrelse_vekt()(x) == sum_vekt(s, storrelse_vekt()));
        assert(sum_vekt(b.1, storrelse_vekt()) + storrelse_vekt()(y) == sum_vekt(a.1, storrelse_vekt()));
    }
}

proof fn lemma_lovnoder_storrelse(tabell: Seq<ByteFrekvens>)
    ensures
        sum_vekt(lovnoder(tabell), storrelse_vekt()) == tabell.len(),
    decreases tabell.len(),
{
    if tabell.len() > 0 {
        lemma_lovnoder_storrelse(tabell.drop_last());
        assert(lovnoder(tabell).drop_last() =~= lovnoder(tabell.drop_last()));
    }
}

proof fn lemma_finn_lengde(t: Node, v: u8)
    ensures
        finn(t, v).1.len() + 1 <= storrelse(t),
    decreases t,
{
    if let Some(b) = t.venstre {
        lemma_finn_lengde(*b, v);
    }
    if let Some(b) = t.hoyre {
        lemma_finn_lengde(*b, v);
    }
}

proof fn lemma_stier_lengde(t: Node, data: Seq<u8>)
    ensures
        stier(t, data).len() <= data.len() * storrelse(t),
    decreases data.len(),
{
    if data.len() > 0 {
        lemma_stier_lengde(t, data.drop_last());
        lemma_finn_lengde(t, data.last());
        let k = storrelse(t) as int;
        let d = data.len() as int;
        assert((d - 1) * k + k == d * k) by (nonlinear_arith);
    }
}

/// Antall steg `komprimer` skriver får plass i 64 bits.
proof fn lemma_bitlengde_grense(data: Seq<u8>)
    requires
        data.len() >= 1,
        kan_telles(data),
    ensures
        bitlengde(data) < 0x1_0000_0000_0000_0000,
{
    let tabell = frekvenstabell(data);
    lemma_frekvenstabell(data);
    lemma_huffman_tre(tabell);
    let l = lovnoder(tabell);
    lemma_lovnoder(tabell);
    lemma_lovnoder_storrelse(tabell);
    lemma_ordne_fra(l, (l.len() / 2) as int);
    let o = ordne(l);
    assert(sum_vekt(o, storrelse_vekt()) == sum_vekt(l, storrelse_vekt()));
    lemma_slaa_sammen_storrelse(o);
    let tre = huffman_tre(tabell);
    assert(storrelse(tre) <= 510);
    lemma_stier_lengde(tre, data);
    let d = data.len() as int;
    let k = storrelse(tre) as int;
    assert(d * k <= 0x1_0000_0000 * 510) by (nonlinear_arith)
        requires 0 <= d <= 0x1_0000_0000, 0 <= k <= 510;
}

/// Dekomprimering gir tilbake dataen som ble komprimert, for all data som
/// kan telles og har minst to ulike byteverdier. (Med bare én byteverdi blir
/// treet et enkelt blad uten steg; da skrives ingen byte med steg, og
/// dekomprimeringen, som alltid leser én slik byte, gir feil.)
#[verifier::rlimit(40)]
pub proof fn huffman_tur_retur(data: Seq<u8>)
    requires
        data.len() >= 1,
        kan_telles(data),
        frekvenstabell(data).len() >= 2,
    ensures
        huffman_dekod(huffman_komp(data)) == HuffmanUtfall::Ferdig(data),
{
    let tabell = frekvenstabell(data);
    lemma_frekvenstabell(data);
    lemma_huffman_tre(tabell);
    let tre = huffman_tre(tabell);
    let biter = stier(tre, data);
    let n = tabell.len() as int;
    let m = biter.len() as int;
    lemma_bitlengde_grense(data);
    lemma_komp_deler(tabell, biter);
    let e = huffman_komp(data);
    assert forall|i: int| 0 <= i < data.len() implies antall(tre, #[trigger] data[i]) == 1 by {
        lemma_antall_i_positiv(data, i);
    }
    assert(antall(tre, data[data.len() - 1]) == 1);
    lemma_finn_ikke_tom(tre, data.last());
    assert(m >= 1);
    lemma_dekod_oppbygning(e, n, tabell, m);
    lemma_pakk_stegstrom(biter);
    lemma_dekod_stier(tre, data, seq![]);
    assert(biter + Seq::<Hopp>::empty() =~= biter);
    assert(data + dekod_fra(tre, tre, Seq::<Hopp>::empty()) =~= data);
}

} // verus!
