//! Korteste veier fra én node med Dijkstras algoritme over en liste av
//! vektede kanter, med en prioritetskø ordnet etter avstand.
use vstd::prelude::*;
use crate::avstand::{Avstand, Koelement, kortere, sum_avstand, kan_legges_sammen, kan_legges_sammen_exec};
use crate::minheap::bytt;
use crate::tekst::{TallPaLinje, les_tall, ord, les_tall_linje};
use crate::grafkomponenter::linjer_av;

verus! {

/// Flytter elementet i posisjon `fra` nedover så lenge barnet med kortest
/// avstand har kortere avstand enn det, og velger det venstre barnet ved
/// lik avstand.
pub open spec fn sorter_spec(s: Seq<Koelement>, fra: int) -> Seq<Koelement>
    decreases s.len() - fra,
{
    let m0 = 2 * fra + 1;
    if fra < 0 || m0 >= s.len() {
        s
    } else {
        let m = if m0 + 1 < s.len() && kortere(s[m0 + 1].avstand, s[m0].avstand) {
            m0 + 1
        } else {
            m0
        };
        if kortere(s[m].avstand, s[fra].avstand) {
            sorter_spec(bytt(s, fra, m), m)
        } else {
            s
        }
    }
}

/// Elementet `pop` gir, og køen etterpå: roten tas ut, det siste elementet
/// flyttes til roten og sorteres ned.
pub open spec fn pop_spec(s: Seq<Koelement>) -> (Option<Koelement>, Seq<Koelement>) {
    if s.len() == 0 {
        (None, s)
    } else if s.len() == 1 {
        (Some(s[0]), Seq::empty())
    } else {
        (Some(s[0]), sorter_spec(s.drop_last().update(0, s.last()), 0))
    }
}

/// Køen med hvert element for samme node som `ny` byttet ut med `ny`.
pub open spec fn erstatt(s: Seq<Koelement>, ny: Koelement) -> Seq<Koelement> {
    s.map_values(|e: Koelement| if e.node == ny.node { ny } else { e })
}

/// Noden har et element i køen.
pub open spec fn i_ko(s: Seq<Koelement>, node: int) -> bool {
    exists|k: int| 0 <= k < s.len() && #[trigger] s[k].node == node
}

/// Køen etter `sett_inn`: et element for samme node byttes ut, ellers legges
/// det nye til bakerst, og så sorteres roten ned.
pub open spec fn sett_inn_spec(s: Seq<Koelement>, ny: Koelement) -> Seq<Koelement> {
    if s.len() == 0 {
        seq![ny]
    } else {
        let r = erstatt(s, ny);
        let t = if i_ko(s, ny.node as int) { r } else { r.push(ny) };
        sorter_spec(t, 0)
    }
}

/// Ingen to elementer i køen er for samme node.
pub open spec fn unike_noder(s: Seq<Koelement>) -> bool {
    forall|i: int, j: int| 0 <= i < j < s.len() ==> #[trigger] s[i].node != #[trigger] s[j].node
}

/// Største kø, så indeksregningen ikke går over.
pub open spec fn ko_grense() -> int {
    (usize::MAX / 2 - 1) as int
}

/// Å bytte to elementer endrer ikke hvilke noder som er i køen.
pub proof fn lemma_bytt_noder(s: Seq<Koelement>, i: int, j: int, x: int)
    requires
        0 <= i < s.len(),
        0 <= j < s.len(),
    ensures
        bytt(s, i, j).len() == s.len(),
        i_ko(bytt(s, i, j), x) <==> i_ko(s, x),
        unike_noder(s) ==> unike_noder(bytt(s, i, j)),
{
    let t = bytt(s, i, j);
    if i_ko(s, x) {
        let k = choose|k: int| 0 <= k < s.len() && #[trigger] s[k].node == x;
        if k == i {
            assert(t[j].node == x);
        } else if k == j {
            assert(t[i].node == x);
        } else {
            assert(t[k].node == x);
        }
    }
    if i_ko(t, x) {
        let k = choose|k: int| 0 <= k < t.len() && #[trigger] t[k].node == x;
        if k == i {
            assert(s[j].node == x);
        } else if k == j {
            assert(s[i].node == x);
        } else {
            assert(s[k].node == x);
        }
    }
    if unike_noder(s) {
        assert forall|a: int, b: int| 0 <= a < b < t.len() implies #[trigger] t[a].node != #[trigger] t[b].node by {
            let a2 = if a == i { j } else if a == j { i } else { a };
            let b2 = if b == i { j } else if b == j { i } else { b };
            assert(t[a] == s[a2] && t[b] == s[b2]);
            if a2 < b2 {
                assert(s[a2].node != s[b2].node);
            } else {
                assert(s[b2].node != s[a2].node);
            }
        }
    }
}

/// Å sortere ned endrer ikke hvilke noder som er i køen.
pub proof fn lemma_sorter_noder(s: Seq<Koelement>, fra: int, x: int)
    ensures
        sorter_spec(s, fra).len() == s.len(),
        i_ko(sorter_spec(s, fra), x) <==> i_ko(s, x),
        unike_noder(s) ==> unike_noder(sorter_spec(s, fra)),
    decreases s.len() - fra,
{
    let m0 = 2 * fra + 1;
    if fra < 0 || m0 >= s.len() {
    } else {
        let m = if m0 + 1 < s.len() && kortere(s[m0 + 1].avstand, s[m0].avstand) {
            m0 + 1
        } else {
            m0
        };
        if kortere(s[m].avstand, s[fra].avstand) {
            lemma_bytt_noder(s, fra, m, x);
            lemma_sorter_noder(bytt(s, fra, m), m, x);
        }
    }
}

/// Noder i køen etter `pop`: alle som var der, unntatt den som ble tatt ut.
pub proof fn lemma_pop_noder(s: Seq<Koelement>, x: int)
    requires
        s.len() > 0,
        unike_noder(s),
    ensures
        pop_spec(s).1.len() == s.len() - 1,
        i_ko(pop_spec(s).1, x) <==> (i_ko(s, x) && x != s[0].node),
        unike_noder(pop_spec(s).1),
{
    if s.len() >= 2 {
        let t = s.drop_last().update(0, s.last());
        lemma_sorter_noder(t, 0, x);
        if i_ko(t, x) {
            let k = choose|k: int| 0 <= k < t.len() && #[trigger] t[k].node == x;
            if k == 0 {
                assert(s[s.len() - 1].node == x);
                assert(s[0].node != s[s.len() - 1].node);
            } else {
                assert(s[k].node == x);
                assert(s[0].node != s[k].node);
            }
        }
        if i_ko(s, x) && x != s[0].node {
            let k = choose|k: int| 0 <= k < s.len() && #[trigger] s[k].node == x;
            if k == s.len() - 1 {
                assert(t[0].node == x);
            } else {
                assert(t[k].node == x);
            }
        }
        assert forall|a: int, b: int| 0 <= a < b < t.len() implies #[trigger] t[a].node != #[trigger] t[b].node by {
            if a == 0 {
                assert(s[b].node != s[s.len() - 1].node);
            } else {
                assert(s[a].node != s[b].node);
            }
        }
    } else {
        if i_ko(s, x) {
            let k = choose|k: int| 0 <= k < s.len() && #[trigger] s[k].node == x;
        }
    }
}

/// Noder i køen etter `sett_inn`: alle som var der, og den nye.
pub proof fn lemma_sett_inn_noder(s: Seq<Koelement>, ny: Koelement, x: int)
    requires
        unike_noder(s),
    ensures
        i_ko(sett_inn_spec(s, ny), x) <==> (i_ko(s, x) || x == ny.node),
        unike_noder(sett_inn_spec(s, ny)),
        sett_inn_spec(s, ny).len() == s.len() + if i_ko(s, ny.node as int) { 0int } else { 1int },
{
    if s.len() == 0 {
        if i_ko(seq![ny], x) {
            let k = choose|k: int| 0 <= k < 1 && #[trigger] seq![ny][k].node == x;
        }
        if x == ny.node {
            assert(seq![ny][0].node == x);
        }
        if i_ko(s, ny.node as int) {
            let k = choose|k: int| 0 <= k < s.len() && #[trigger] s[k].node == ny.node;
        }
    } else {
        let r = erstatt(s, ny);
        let t = if i_ko(s, ny.node as int) { r } else { r.push(ny) };
        lemma_sorter_noder(t, 0, x);
        if i_ko(t, x) {
            let k = choose|k: int| 0 <= k < t.len() && #[trigger] t[k].node == x;
            if k < s.len() && s[k].node != ny.node {
                assert(r[k] == s[k]);
            }
        }
        if i_ko(s, x) {
            let k = choose|k: int| 0 <= k < s.len() && #[trigger] s[k].node == x;
            assert(t[k].node == x);
        }
        if x == ny.node {
            if i_ko(s, ny.node as int) {
                let k = choose|k: int| 0 <= k < s.len() && #[trigger] s[k].node == ny.node;
                assert(t[k] == ny);
            } else {
                assert(t[s.len() as int] == ny);
            }
        }
        assert forall|a: int, b: int| 0 <= a < b < t.len() implies #[trigger] t[a].node != #[trigger] t[b].node by {
            if b < s.len() {
                assert(s[a].node != s[b].node);
                if s[a].node == ny.node {
                    assert(t[a] == ny);
                    assert(t[b] == s[b]);
                } else if s[b].node == ny.node {
                    assert(t[b] == ny);
                    assert(t[a] == s[a]);
                } else {
                    assert(t[a] == s[a] && t[b] == s[b]);
                }
            } else {
                assert(!i_ko(s, ny.node as int));
                assert(t[b] == ny);
                if s[a].node == ny.node {
                    assert(i_ko(s, ny.node as int));
                }
                assert(t[a] == s[a]);
            }
        }
    }
}

/// En prioritetskø av køelementer, med kortest avstand ved roten.
pub struct MinHeap {
    noder: Vec<Koelement>,
}

impl View for MinHeap {
    type V = Seq<Koelement>;

    closed spec fn view(&self) -> Seq<Koelement> {
        self.noder@
    }
}

impl MinHeap {
    /// En tom kø.
    pub fn opprett() -> (res: Self)
        ensures
            res@ == Seq::<Koelement>::empty(),
    {
        Self { noder: Vec::new() }
    }

    /// Om køen er tom.
    pub fn er_tom(&self) -> (res: bool)
        ensures
            res == (self@.len() == 0),
    {
        self.noder.len() == 0
    }

    /// Antall elementer i køen.
    pub fn len(&self) -> (res: usize)
        ensures
            res == self@.len(),
    {
        self.noder.len()
    }

    fn til_venstre_for(indeks: usize) -> (res: usize)
        requires
            indeks <= ko_grense(),
        ensures
            res == 2 * indeks + 1,
    {
        2 * indeks + 1
    }

    fn sorter(&mut self, fra: usize)
        requires
            old(self)@.len() <= ko_grense(),
        ensures
            final(self)@ == sorter_spec(old(self)@, fra as int),
        decreases old(self)@.len() - fra,
    {
        if fra >= self.noder.len() {
            return;
        }
        let mut m = MinHeap::til_venstre_for(fra);
        if m < self.noder.len() {
            let h = m + 1;
            if h < self.noder.len() && self.noder[h] > self.noder[m] {
                m = h;
            }
            if self.noder[m] > self.noder[fra] {
                let a = self.noder[fra];
                let b = self.noder[m];
                self.noder.set(fra, b);
                self.noder.set(m, a);
                self.sorter(m);
            }
        }
    }

    /// Tar ut roten.
    pub fn pop(&mut self) -> (res: Option<Koelement>)
        requires
            old(self)@.len() <= ko_grense(),
        ensures
            res == pop_spec(old(self)@).0,
            final(self)@ == pop_spec(old(self)@).1,
    {
        if self.er_tom() {
            return None;
        } else if self.noder.len() == 1 {
            let x = self.noder.remove(0);
            assert(self@ =~= Seq::<Koelement>::empty());
            return Some(x);
        } else {
            let topp = self.noder[0];
            let siste = self.noder.remove(self.noder.len() - 1);
            self.noder.set(0, siste);
            self.sorter(0);
            Some(topp)
        }
    }

    /// Setter inn et element: finnes noden alt i køen, byttes elementet ut.
    pub fn sett_inn(&mut self, ny: Koelement)
        requires
            old(self)@.len() < ko_grense(),
        ensures
            final(self)@ == sett_inn_spec(old(self)@, ny),
    {
        if self.er_tom() {
            self.noder.push(ny);
            assert(self@ =~= seq![ny]);
            return;
        }
        let ghost s = self@;
        let mut inneholder = false;
        let mut nye: Vec<Koelement> = Vec::new();
        let mut i: usize = 0;
        while i < self.noder.len()
            invariant
                self@ == s,
                i <= s.len(),
                nye@ == erstatt(s, ny).take(i as int),
                inneholder == exists|k: int| 0 <= k < i && #[trigger] s[k].node == ny.node,
            decreases s.len() - i,
        {
            let e = self.noder[i];
            if e.node == ny.node {
                inneholder = true;
                nye.push(ny);
            } else {
                nye.push(e);
            }
            assert(nye@ =~= erstatt(s, ny).take(i + 1));
            i = i + 1;
        }
        assert(nye@ =~= erstatt(s, ny));
        self.noder = nye;
        if !inneholder {
            self.noder.push(ny);
        }
        self.sorter(0);
    }
}


/// Avslapper kantene fra nummer `e` og utover som går fra `u`, der `u` har
/// avstanden `d`: gir en kant en kortere avstand til noden den går til, får
/// noden den avstanden og `u` som forløper, og den settes inn i køen med den.
pub open spec fn slapp_av(
    k: Seq<Kant>,
    u: int,
    d: Avstand,
    e: int,
    avst: Seq<Avstand>,
    forl: Seq<Option<usize>>,
    ko: Seq<Koelement>,
) -> (Seq<Avstand>, Seq<Option<usize>>, Seq<Koelement>)
    decreases k.len() - e,
{
    if e < 0 || e >= k.len() {
        (avst, forl, ko)
    } else if k[e].fra == u && kortere(sum_avstand(d, k[e].vekt), avst[k[e].til as int]) {
        let ny = sum_avstand(d, k[e].vekt);
        let v = k[e].til;
        slapp_av(
            k,
            u,
            d,
            e + 1,
            avst.update(v as int, ny),
            forl.update(v as int, Some(u as usize)),
            sett_inn_spec(ko, Koelement { node: v, avstand: ny }),
        )
    } else {
        slapp_av(k, u, d, e + 1, avst, forl, ko)
    }
}

/// Ett steg i Dijkstras algoritme, på avstandene, forløperne og køen: ta ut
/// det første elementet i køen og avslapp kantene fra noden det gjelder.
/// Med tom kø skjer ingenting.
pub open spec fn dijkstra_steg(k: Seq<Kant>, z: (Seq<Avstand>, Seq<Option<usize>>, Seq<Koelement>)) -> (
    Seq<Avstand>,
    Seq<Option<usize>>,
    Seq<Koelement>,
) {
    match pop_spec(z.2).0 {
        None => z,
        Some(x) => slapp_av(k, x.node as int, z.0[x.node as int], 0, z.0, z.1, pop_spec(z.2).1),
    }
}

/// Tilstanden etter `t` steg.
pub open spec fn dijkstra_etter(k: Seq<Kant>, z: (Seq<Avstand>, Seq<Option<usize>>, Seq<Koelement>), t: nat) -> (
    Seq<Avstand>,
    Seq<Option<usize>>,
    Seq<Koelement>,
)
    decreases t,
{
    if t == 0 {
        z
    } else {
        dijkstra_steg(k, dijkstra_etter(k, z, (t - 1) as nat))
    }
}

/// Køen med de `i` første nodene satt inn i rekkefølge, med avstandene sine.
pub open spec fn fylt_ko(avst: Seq<Avstand>, i: int) -> Seq<Koelement>
    decreases i,
{
    if i <= 0 {
        Seq::empty()
    } else {
        sett_inn_spec(fylt_ko(avst, i - 1), Koelement { node: (i - 1) as usize, avstand: avst[i - 1] })
    }
}

/// Starttilstanden: `start` har avstand null og de andre uendelig, ingen har
/// forløper, og alle nodene er i køen.
pub open spec fn dijkstra_start(n: nat, start: int) -> (Seq<Avstand>, Seq<Option<usize>>, Seq<Koelement>) {
    let avst = Seq::new(n, |j: int| Avstand::Uendelig).update(start, Avstand::Verdi(0));
    (avst, Seq::new(n, |j: int| None::<usize>), fylt_ko(avst, n as int))
}

/// Avstandene og forløperne Dijkstras algoritme fra `start` ender med: de
/// den har når køen er tom.
pub open spec fn dijkstra_spec(k: Seq<Kant>, n: nat, start: int) -> (Seq<Avstand>, Seq<Option<usize>>) {
    let t = choose|t: nat| (#[trigger] dijkstra_etter(k, dijkstra_start(n, start), t)).2.len() == 0;
    let z = dijkstra_etter(k, dijkstra_start(n, start), t);
    (z.0, z.1)
}

/// Når køen er tom, endrer flere steg ingenting.
pub proof fn lemma_tom_ko_fast(
    k: Seq<Kant>,
    z: (Seq<Avstand>, Seq<Option<usize>>, Seq<Koelement>),
    t1: nat,
    t2: nat,
)
    requires
        dijkstra_etter(k, z, t1).2.len() == 0,
        t1 <= t2,
    ensures
        dijkstra_etter(k, z, t2) == dijkstra_etter(k, z, t1),
    decreases t2,
{
    if t2 > t1 {
        lemma_tom_ko_fast(k, z, t1, (t2 - 1) as nat);
    }
}

/// Er køen tom etter `t` steg, er det resultatet.
pub proof fn lemma_dijkstra_spec(k: Seq<Kant>, n: nat, start: int, t: nat)
    requires
        dijkstra_etter(k, dijkstra_start(n, start), t).2.len() == 0,
    ensures
        dijkstra_spec(k, n, start) == (
            dijkstra_etter(k, dijkstra_start(n, start), t).0,
            dijkstra_etter(k, dijkstra_start(n, start), t).1,
        ),
{
    let z0 = dijkstra_start(n, start);
    let t0 = choose|t: nat| (#[trigger] dijkstra_etter(k, z0, t)).2.len() == 0;
    assert(dijkstra_etter(k, z0, t0).2.len() == 0);
    if t0 <= t {
        lemma_tom_ko_fast(k, z0, t0, t);
    } else {
        lemma_tom_ko_fast(k, z0, t, t0);
    }
}

/// Ingen sum går over når noden først i køen tas ut: avstanden til den pluss
/// vekten av hver kant ut av den får plass i en `usize`.
pub open spec fn steg_uten_overflyt(k: Seq<Kant>, z: (Seq<Avstand>, Seq<Option<usize>>, Seq<Koelement>)) -> bool {
    match pop_spec(z.2).0 {
        None => true,
        Some(x) => forall|e: int| 0 <= e < k.len() && #[trigger] k[e].fra == x.node
            ==> kan_legges_sammen(z.0[x.node as int], k[e].vekt),
    }
}

/// Dijkstras algoritme fra `start` legger aldri sammen en avstand og en vekt
/// som ikke får plass i en `usize`.
pub open spec fn uten_overflyt(k: Seq<Kant>, n: nat, start: int) -> bool {
    forall|t: nat| steg_uten_overflyt(k, #[trigger] dijkstra_etter(k, dijkstra_start(n, start), t))
}

/// Det Dijkstras algoritme gir: hver endelig avstand er lengden av en vei dit
/// og ikke lengre enn noen vei dit, hver forløper ligger på en korteste vei,
/// og avstandene og forløperne er de algoritmen står med når køen er tom.
pub open spec fn dijkstra_resultat(
    k: Seq<Kant>,
    n: nat,
    start: int,
    avst: Seq<Avstand>,
    forl: Seq<Option<usize>>,
) -> bool {
    &&& avst.len() == n
    &&& forl.len() == n
    &&& avst[start] == Avstand::Verdi(0)
    &&& forl[start] == None::<usize>
    &&& forall|v: int| 0 <= v < n && (#[trigger] avst[v]) is Verdi ==>
        exists|p: Seq<int>| #[trigger] er_vei(k, start, v, p) && vei_lengde(k, p) == avst[v]->Verdi_0
    &&& forall|v: int, p: Seq<int>| 0 <= v < n && #[trigger] er_vei(k, start, v, p) ==>
        avst[v] is Verdi && avst[v]->Verdi_0 <= vei_lengde(k, p)
    &&& forall|v: int| 0 <= v < n && (#[trigger] forl[v]) is Some ==> {
        let u = forl[v]->Some_0;
        &&& u < n
        &&& avst[v] is Verdi
        &&& exists|e: int| 0 <= e < k.len() && #[trigger] k[e].fra == u && k[e].til == v
            && avst[v] == sum_avstand(avst[u as int], k[e].vekt)
    }
    &&& forall|v: int| 0 <= v < n && (#[trigger] forl[v]) is None ==> v == start || avst[v] == Avstand::Uendelig
    &&& (avst, forl) == dijkstra_spec(k, n, start)
}

/// En node i grafen.
pub struct Node {
    id: usize,
}

impl Node {
    /// En node med gitt id.
    pub fn opprett(id: usize) -> (res: Self)
        ensures
            res.id_spec() == id,
    {
        Self { id }
    }

    /// Id-en.
    pub closed spec fn id_spec(&self) -> usize {
        self.id
    }

    /// Id-en.
    pub fn id(&self) -> (res: usize)
        ensures
            res == self.id_spec(),
    {
        self.id
    }
}

/// En kant med vekt.
#[derive(Clone, Copy)]
pub struct Kant {
    pub fra: usize,
    pub til: usize,
    pub vekt: Avstand,
}

impl Kant {
    /// En kant fra `fra` til `til` med vekten `vekt`.
    pub fn opprett(fra: usize, til: usize, vekt: usize) -> (res: Self)
        ensures
            res == (Kant { fra, til, vekt: Avstand::Verdi(vekt) }),
    {
        Self { fra, til, vekt: Avstand::Verdi(vekt) }
    }
}

/// Vekten til en kant som tall.
pub open spec fn vekt_av(e: Kant) -> int {
    match e.vekt {
        Avstand::Verdi(w) => w as int,
        Avstand::Uendelig => 0,
    }
}

/// `p` er en vei av kanter fra `start` til `slutt`.
pub open spec fn er_vei(k: Seq<Kant>, start: int, slutt: int, p: Seq<int>) -> bool {
    if p.len() == 0 {
        start == slutt
    } else {
        &&& forall|i: int| 0 <= i < p.len() ==> 0 <= #[trigger] p[i] < k.len()
        &&& k[p[0]].fra == start
        &&& forall|i: int| 0 <= i < p.len() - 1 ==> k[#[trigger] p[i]].til == k[p[i + 1]].fra
        &&& k[p.last()].til == slutt
    }
}

/// Summen av vektene langs veien.
pub open spec fn vei_lengde(k: Seq<Kant>, p: Seq<int>) -> int
    decreases p.len(),
{
    if p.len() == 0 {
        0
    } else {
        vei_lengde(k, p.drop_last()) + vekt_av(k[p.last()])
    }
}

/// En vei og en kant videre gir en vei.
pub proof fn lemma_vei_videre(k: Seq<Kant>, start: int, v: int, p: Seq<int>, e: int)
    requires
        er_vei(k, start, v, p),
        0 <= e < k.len(),
        k[e].fra == v,
    ensures
        er_vei(k, start, k[e].til as int, p.push(e)),
        vei_lengde(k, p.push(e)) == vei_lengde(k, p) + vekt_av(k[e]),
{
    let q = p.push(e);
    assert(q.drop_last() =~= p);
    if p.len() > 0 {
        assert forall|i: int| 0 <= i < q.len() - 1 implies k[#[trigger] q[i]].til == k[q[i + 1]].fra by {
            if i < p.len() - 1 {
                assert(q[i] == p[i] && q[i + 1] == p[i + 1]);
            }
        }
    }
}

/// Kanten er avslappet: avstanden til enden er ikke lengre enn avstanden
/// til starten pluss vekten.
pub open spec fn avslappet(avst: Seq<Avstand>, e: Kant) -> bool {
    !kortere(sum_avstand(avst[e.fra as int], e.vekt), avst[e.til as int])
}

/// Antall uendelige avstander.
pub open spec fn antall_uendelige(s: Seq<Avstand>) -> nat
    decreases s.len(),
{
    if s.len() == 0 {
        0
    } else {
        antall_uendelige(s.drop_last()) + if s.last() == Avstand::Uendelig { 1nat } else { 0nat }
    }
}

/// Summen av de endelige avstandene.
pub open spec fn sum_endelige(s: Seq<Avstand>) -> nat
    decreases s.len(),
{
    if s.len() == 0 {
        0
    } else {
        sum_endelige(s.drop_last()) + match s.last() {
            Avstand::Verdi(d) => d as nat,
            Avstand::Uendelig => 0nat,
        }
    }
}

/// Å sette en avstand endrer tellingene bare for den ene plassen.
pub proof fn lemma_oppdater_avstand(s: Seq<Avstand>, v: int, d: usize)
    requires
        0 <= v < s.len(),
    ensures
        antall_uendelige(s.update(v, Avstand::Verdi(d))) + (if s[v] == Avstand::Uendelig { 1int } else { 0int })
            == antall_uendelige(s),
        sum_endelige(s.update(v, Avstand::Verdi(d))) + (match s[v] { Avstand::Verdi(x) => x as int, Avstand::Uendelig => 0int })
            == sum_endelige(s) + d,
        antall_uendelige(s) <= s.len(),
    decreases s.len(),
{
    let t = s.update(v, Avstand::Verdi(d));
    if v == s.len() - 1 {
        assert(t.drop_last() =~= s.drop_last());
        lemma_uendelige_grense(s.drop_last());
    } else {
        assert(t.drop_last() =~= s.drop_last().update(v, Avstand::Verdi(d)));
        lemma_oppdater_avstand(s.drop_last(), v, d);
    }
}

/// Det er ikke flere uendelige avstander enn avstander.
pub proof fn lemma_uendelige_grense(s: Seq<Avstand>)
    ensures
        antall_uendelige(s) <= s.len(),
    decreases s.len(),
{
    if s.len() > 0 {
        lemma_uendelige_grense(s.drop_last());
    }
}

/// En kø uten to elementer for samme node, med noder under `n`, har høyst
/// `n` elementer.
pub proof fn lemma_ko_lengde(s: Seq<Koelement>, n: int)
    requires
        unike_noder(s),
        forall|i: int| 0 <= i < s.len() ==> #[trigger] s[i].node < n,
        0 <= n,
    ensures
        s.len() <= n,
{
    let plasser = vstd::set_lib::set_int_range(0, s.len() as int);
    vstd::set_lib::lemma_int_range(0, s.len() as int);
    let f = |i: int| s[i].node as int;
    let noder = plasser.map(f);
    assert(vstd::relations::injective_on(f, plasser)) by {
        assert forall|a: int, b: int| plasser.contains(a) && plasser.contains(b) && #[trigger] f(a) == #[trigger] f(b)
            implies a == b by {
            if a < b {
                assert(s[a].node != s[b].node);
            } else if b < a {
                assert(s[b].node != s[a].node);
            }
        }
    }
    vstd::set_lib::lemma_map_size(plasser, noder, f);
    let tall = vstd::set_lib::set_int_range(0, n);
    vstd::set_lib::lemma_int_range(0, n);
    assert(noder.subset_of(tall)) by {
        assert forall|x: int| noder.contains(x) implies tall.contains(x) by {
            let i = choose|i: int| plasser.contains(i) && f(i) == x;
            assert(s[i].node < n);
        }
    }
    vstd::set_lib::lemma_len_subset(noder, tall);
}

/// Med alle kanter avslappet og avstand 0 til start er avstanden til hver
/// node ikke lengre enn noen vei dit.
pub proof fn lov_avslappet_gir_korteste(k: Seq<Kant>, avst: Seq<Avstand>, start: int, v: int, p: Seq<int>)
    requires
        0 <= start < avst.len(),
        avst[start] == Avstand::Verdi(0),
        forall|e: int| 0 <= e < k.len() ==> #[trigger] k[e].vekt is Verdi,
        forall|e: int| 0 <= e < k.len() ==> #[trigger] k[e].fra < avst.len() && k[e].til < avst.len(),
        forall|e: int| 0 <= e < k.len() ==> avslappet(avst, #[trigger] k[e]),
        er_vei(k, start, v, p),
    ensures
        avst[v] is Verdi,
        avst[v]->Verdi_0 <= vei_lengde(k, p),
    decreases p.len(),
{
    if p.len() > 0 {
        let e = p.last();
        let q = p.drop_last();
        let u = k[e].fra as int;
        assert(er_vei(k, start, u, q)) by {
            if q.len() > 0 {
                assert(k[q.last()].til == k[p[p.len() - 1]].fra) by {
                    assert(p[p.len() - 2] == q.last());
                }
                assert forall|i: int| 0 <= i < q.len() - 1 implies k[#[trigger] q[i]].til == k[q[i + 1]].fra by {
                    assert(q[i] == p[i] && q[i + 1] == p[i + 1]);
                }
            }
        }
        lov_avslappet_gir_korteste(k, avst, start, u, q);
        assert(avslappet(avst, k[e]));
    }
}

/// `u` kan stå som noden før `v`: en kant fra `u` til `v` gjør avstanden til
/// `v` minst like lang som avstanden til `u` pluss vekten.
pub open spec fn forloper_ok(k: Seq<Kant>, avst: Seq<Avstand>, v: int, u: int) -> bool {
    &&& 0 <= u < avst.len()
    &&& avst[v] is Verdi
    &&& exists|e: int| 0 <= e < k.len() && #[trigger] k[e].fra == u && k[e].til == v
        && kan_legges_sammen(avst[u], k[e].vekt) && !kortere(avst[v], sum_avstand(avst[u], k[e].vekt))
}

/// En liste av bare uendelige avstander.
pub proof fn lemma_alle_uendelige(n: nat)
    ensures
        antall_uendelige(Seq::new(n, |j: int| Avstand::Uendelig)) == n,
    decreases n,
{
    if n > 0 {
        lemma_alle_uendelige((n - 1) as nat);
        assert(Seq::new(n, |j: int| Avstand::Uendelig).drop_last() =~= Seq::new((n - 1) as nat, |j: int| Avstand::Uendelig));
    }
}

/// Avslappingen gir en vei til naboen med den nye avstanden.
pub proof fn lemma_avslapp_vei(k: Seq<Kant>, start: int, n: int, u: int, e: int, gammel: Seq<Avstand>, avst: Seq<Avstand>)
    requires
        0 <= e < k.len(),
        k[e].fra == u,
        0 <= u < n,
        0 <= k[e].til < n,
        gammel.len() == n,
        gammel[u] is Verdi,
        kan_legges_sammen(gammel[u], k[e].vekt),
        k[e].vekt is Verdi,
        avst == gammel.update(k[e].til as int, sum_avstand(gammel[u], k[e].vekt)),
        forall|v: int| 0 <= v < n && (#[trigger] gammel[v]) is Verdi ==>
            exists|p: Seq<int>| #[trigger] er_vei(k, start, v, p) && vei_lengde(k, p) == gammel[v]->Verdi_0,
    ensures
        forall|v: int| 0 <= v < n && (#[trigger] avst[v]) is Verdi ==>
            exists|p: Seq<int>| #[trigger] er_vei(k, start, v, p) && vei_lengde(k, p) == avst[v]->Verdi_0,
{
    let nabo = k[e].til as int;
    assert forall|v: int| 0 <= v < n && (#[trigger] avst[v]) is Verdi implies
        exists|p: Seq<int>| #[trigger] er_vei(k, start, v, p) && vei_lengde(k, p) == avst[v]->Verdi_0 by {
        if v == nabo {
            let p = choose|p: Seq<int>| #[trigger] er_vei(k, start, u, p) && vei_lengde(k, p) == gammel[u]->Verdi_0;
            lemma_vei_videre(k, start, u, p, e);
            assert(er_vei(k, start, v, p.push(e)));
        } else {
            assert(gammel[v] == avst[v]);
        }
    }
}

/// Avslappingen holder kantene avslappet.
pub proof fn lemma_avslapp_kanter(
    k: Seq<Kant>,
    u: int,
    e: int,
    gammel: Seq<Avstand>,
    avst: Seq<Avstand>,
    gammel_ko: Seq<Koelement>,
    ko: Seq<Koelement>,
)
    requires
        0 <= e < k.len(),
        k[e].fra == u,
        0 <= u < gammel.len(),
        0 <= k[e].til < gammel.len(),
        k[e].til != u,
        forall|f: int| 0 <= f < k.len() ==> #[trigger] k[f].fra < gammel.len() && k[f].til < gammel.len(),
        kortere(sum_avstand(gammel[u], k[e].vekt), gammel[k[e].til as int]),
        avst == gammel.update(k[e].til as int, sum_avstand(gammel[u], k[e].vekt)),
        forall|x: int| #[trigger] i_ko(ko, x) <==> (i_ko(gammel_ko, x) || x == k[e].til),
        forall|f: int| 0 <= f < k.len() && !i_ko(gammel_ko, k[f].fra as int) && k[f].fra != u ==> avslappet(gammel, #[trigger] k[f]),
        forall|f: int| 0 <= f < e && k[f].fra == u ==> avslappet(gammel, #[trigger] k[f]),
    ensures
        forall|f: int| 0 <= f < k.len() && !i_ko(ko, k[f].fra as int) && k[f].fra != u ==> avslappet(avst, #[trigger] k[f]),
        forall|f: int| 0 <= f < e + 1 && k[f].fra == u ==> avslappet(avst, #[trigger] k[f]),
{
    let nabo = k[e].til as int;
    assert forall|f: int| 0 <= f < k.len() && !i_ko(ko, k[f].fra as int) && k[f].fra != u implies
        avslappet(avst, #[trigger] k[f]) by {
        assert(avslappet(gammel, k[f]));
        assert(k[f].fra != nabo);
    }
    assert forall|f: int| 0 <= f < e + 1 && k[f].fra == u implies avslappet(avst, #[trigger] k[f]) by {
        if f < e {
            assert(avslappet(gammel, k[f]));
        }
    }
}

/// Avslappingen holder forløperne gyldige.
pub proof fn lemma_avslapp_forlopere(
    k: Seq<Kant>,
    n: int,
    start: int,
    u: int,
    e: int,
    gammel: Seq<Avstand>,
    avst: Seq<Avstand>,
    gammel_forl: Seq<Option<usize>>,
    forl: Seq<Option<usize>>,
)
    requires
        0 <= e < k.len(),
        k[e].fra == u,
        0 <= u < n,
        0 <= k[e].til < n,
        k[e].til != u,
        k[e].til != start,
        gammel.len() == n,
        gammel_forl.len() == n,
        kortere(sum_avstand(gammel[u], k[e].vekt), gammel[k[e].til as int]),
        avst == gammel.update(k[e].til as int, sum_avstand(gammel[u], k[e].vekt)),
        forl == gammel_forl.update(k[e].til as int, Some(u as usize)),
        forall|v: int| 0 <= v < n && (#[trigger] gammel_forl[v]) is Some ==> forloper_ok(k, gammel, v, gammel_forl[v]->Some_0 as int),
        forall|v: int| 0 <= v < n && (#[trigger] gammel_forl[v]) is None ==> v == start || gammel[v] == Avstand::Uendelig,
        forall|f: int| 0 <= f < k.len() ==> #[trigger] k[f].vekt is Verdi,
        kan_legges_sammen(gammel[u], k[e].vekt),
    ensures
        forall|v: int| 0 <= v < n && (#[trigger] forl[v]) is Some ==> forloper_ok(k, avst, v, forl[v]->Some_0 as int),
        forall|v: int| 0 <= v < n && (#[trigger] forl[v]) is None ==> v == start || avst[v] == Avstand::Uendelig,
{
    let nabo = k[e].til as int;
    assert forall|v: int| 0 <= v < n && (#[trigger] forl[v]) is Some implies
        forloper_ok(k, avst, v, forl[v]->Some_0 as int) by {
        if v == nabo {
            assert(k[e].fra == u && k[e].til == v && kan_legges_sammen(avst[u], k[e].vekt)
                && !kortere(avst[v], sum_avstand(avst[u], k[e].vekt)));
        } else {
            let x = gammel_forl[v]->Some_0 as int;
            assert(forloper_ok(k, gammel, v, x));
            let f = choose|f: int| 0 <= f < k.len() && #[trigger] k[f].fra == x && k[f].til == v
                && kan_legges_sammen(gammel[x], k[f].vekt) && !kortere(gammel[v], sum_avstand(gammel[x], k[f].vekt));
            assert(k[f].vekt is Verdi);
            if x == nabo {
                assert(gammel[x] is Verdi);
            }
            assert(k[f].fra == x && k[f].til == v && kan_legges_sammen(avst[x], k[f].vekt)
                && !kortere(avst[v], sum_avstand(avst[x], k[f].vekt)));
        }
    }
    assert forall|v: int| 0 <= v < n && (#[trigger] forl[v]) is None implies v == start || avst[v] == Avstand::Uendelig by {
        assert(v != nabo);
        assert(gammel_forl[v] is None);
    }
}

/// Én avslapping av kanten `e` ut av `u` holder på alt Dijkstras
/// algoritme vet om avstandene, forløperne og køen.
#[verifier::rlimit(60)]
pub proof fn lemma_avslapp(
    k: Seq<Kant>,
    n: int,
    start: int,
    u: int,
    e: int,
    gammel: Seq<Avstand>,
    avst: Seq<Avstand>,
    gammel_ko: Seq<Koelement>,
    ko: Seq<Koelement>,
    ny: Koelement,
    avstand_hit: Avstand,
    gammel_forl: Seq<Option<usize>>,
    forl: Seq<Option<usize>>,
    a0: nat,
    b0: nat,
    c0: nat,
)
    requires
        0 <= start < n,
        0 <= u < n,
        0 <= e < k.len(),
        k[e].fra == u,
        forall|f: int| 0 <= f < k.len() ==> #[trigger] k[f].fra < n && k[f].til < n,
        forall|f: int| 0 <= f < k.len() ==> #[trigger] k[f].vekt is Verdi,
        gammel.len() == n,
        gammel_forl.len() == n,
        gammel[u] == avstand_hit,
        gammel[start] == Avstand::Verdi(0),
        gammel_forl[start] == None::<usize>,
        unike_noder(gammel_ko),
        forall|i: int| 0 <= i < gammel_ko.len() ==> #[trigger] gammel_ko[i].node < n,
        forall|v: int| 0 <= v < n && (#[trigger] gammel[v]) is Verdi ==>
            exists|p: Seq<int>| #[trigger] er_vei(k, start, v, p) && vei_lengde(k, p) == gammel[v]->Verdi_0,
        forall|f: int| 0 <= f < k.len() && !i_ko(gammel_ko, k[f].fra as int) && k[f].fra != u ==> avslappet(gammel, #[trigger] k[f]),
        forall|f: int| 0 <= f < e && k[f].fra == u ==> avslappet(gammel, #[trigger] k[f]),
        forall|v: int| 0 <= v < n && (#[trigger] gammel_forl[v]) is Some ==> forloper_ok(k, gammel, v, gammel_forl[v]->Some_0 as int),
        forall|v: int| 0 <= v < n && (#[trigger] gammel_forl[v]) is None ==> v == start || gammel[v] == Avstand::Uendelig,
        antall_uendelige(gammel) < a0
            || (antall_uendelige(gammel) == a0 && sum_endelige(gammel) < b0)
            || (antall_uendelige(gammel) == a0 && sum_endelige(gammel) == b0 && gammel_ko.len() < c0),
        kan_legges_sammen(avstand_hit, k[e].vekt),
        kortere(sum_avstand(avstand_hit, k[e].vekt), gammel[k[e].til as int]),
        ny == (Koelement { node: k[e].til, avstand: sum_avstand(avstand_hit, k[e].vekt) }),
        avst == gammel.update(k[e].til as int, ny.avstand),
        forl == gammel_forl.update(k[e].til as int, Some(u as usize)),
        ko == sett_inn_spec(gammel_ko, ny),
    ensures
        avst.len() == n,
        forl.len() == n,
        avst[u] == avstand_hit,
        avst[start] == Avstand::Verdi(0),
        forl[start] == None::<usize>,
        unike_noder(ko),
        forall|i: int| 0 <= i < ko.len() ==> #[trigger] ko[i].node < n,
        forall|v: int| 0 <= v < n && (#[trigger] avst[v]) is Verdi ==>
            exists|p: Seq<int>| #[trigger] er_vei(k, start, v, p) && vei_lengde(k, p) == avst[v]->Verdi_0,
        forall|f: int| 0 <= f < k.len() && !i_ko(ko, k[f].fra as int) && k[f].fra != u ==> avslappet(avst, #[trigger] k[f]),
        forall|f: int| 0 <= f < e + 1 && k[f].fra == u ==> avslappet(avst, #[trigger] k[f]),
        forall|v: int| 0 <= v < n && (#[trigger] forl[v]) is Some ==> forloper_ok(k, avst, v, forl[v]->Some_0 as int),
        forall|v: int| 0 <= v < n && (#[trigger] forl[v]) is None ==> v == start || avst[v] == Avstand::Uendelig,
        antall_uendelige(avst) < a0
            || (antall_uendelige(avst) == a0 && sum_endelige(avst) < b0)
            || (antall_uendelige(avst) == a0 && sum_endelige(avst) == b0 && ko.len() < c0),
{
    let nabo = k[e].til as int;
    let hd = avstand_hit->Verdi_0;
    let we = vekt_av(k[e]);
    assert(avstand_hit is Verdi);
    assert(ny.avstand == Avstand::Verdi((hd + we) as usize));
    assert(nabo != u);
    assert(nabo != start);
    lemma_oppdater_avstand(gammel, nabo, (hd + we) as usize);
    lemma_avslapp_vei(k, start, n, u, e, gammel, avst);
    assert forall|x: int| #[trigger] i_ko(ko, x) <==> (i_ko(gammel_ko, x) || x == nabo) by {
        lemma_sett_inn_noder(gammel_ko, ny, x);
    }
    lemma_sett_inn_noder(gammel_ko, ny, 0);
    assert forall|i: int| 0 <= i < ko.len() implies #[trigger] ko[i].node < n by {
        assert(i_ko(ko, ko[i].node as int));
        if ko[i].node != nabo {
            let j = choose|j: int| 0 <= j < gammel_ko.len() && #[trigger] gammel_ko[j].node == ko[i].node;
        }
    }
    lemma_avslapp_kanter(k, u, e, gammel, avst, gammel_ko, ko);
    lemma_avslapp_forlopere(k, n, start, u, e, gammel, avst, gammel_forl, forl);
}

/// Alt Dijkstras algoritme vet om avstandene, forløperne og køen mellom to
/// steg: hver endelig avstand er lengden av en vei dit, og forløperne peker
/// langs kanter der summen fikk plass.
pub open spec fn tilstand(
    k: Seq<Kant>,
    n: int,
    start: int,
    avst: Seq<Avstand>,
    forl: Seq<Option<usize>>,
    ko: Seq<Koelement>,
) -> bool {
    &&& 0 <= start < n
    &&& forall|e: int| 0 <= e < k.len() ==> #[trigger] k[e].fra < n && k[e].til < n
    &&& forall|e: int| 0 <= e < k.len() ==> #[trigger] k[e].vekt is Verdi
    &&& avst.len() == n
    &&& forl.len() == n
    &&& avst[start] == Avstand::Verdi(0)
    &&& forl[start] == None::<usize>
    &&& unike_noder(ko)
    &&& forall|i: int| 0 <= i < ko.len() ==> #[trigger] ko[i].node < n
    &&& forall|v: int| 0 <= v < n && (#[trigger] avst[v]) is Verdi ==>
        exists|p: Seq<int>| #[trigger] er_vei(k, start, v, p) && vei_lengde(k, p) == avst[v]->Verdi_0
    &&& forall|v: int| 0 <= v < n && (#[trigger] forl[v]) is Some ==> forloper_ok(k, avst, v, forl[v]->Some_0 as int)
    &&& forall|v: int| 0 <= v < n && (#[trigger] forl[v]) is None ==> v == start || avst[v] == Avstand::Uendelig
}

/// Færre uendelige avstander, eller like mange og mindre sum, eller like
/// mye av begge og ikke lengre kø.
pub open spec fn mindre_eller_lik(avst: Seq<Avstand>, lengde: nat, gammel: Seq<Avstand>, gammel_lengde: nat) -> bool {
    ||| antall_uendelige(avst) < antall_uendelige(gammel)
    ||| (antall_uendelige(avst) == antall_uendelige(gammel) && sum_endelige(avst) < sum_endelige(gammel))
    ||| (antall_uendelige(avst) == antall_uendelige(gammel) && sum_endelige(avst) == sum_endelige(gammel)
        && lengde <= gammel_lengde)
}

/// Etter `pop` holder tilstanden fortsatt, og kanter ut av noder som ikke er
/// i køen, er avslappet, unntatt kantene ut av noden som ble tatt ut.
pub proof fn lemma_pop_tilstand(
    k: Seq<Kant>,
    n: int,
    start: int,
    avst: Seq<Avstand>,
    forl: Seq<Option<usize>>,
    s0: Seq<Koelement>,
    ko: Seq<Koelement>,
)
    requires
        tilstand(k, n, start, avst, forl, s0),
        s0.len() > 0,
        ko == pop_spec(s0).1,
        forall|f: int| 0 <= f < k.len() && !i_ko(s0, k[f].fra as int) ==> avslappet(avst, #[trigger] k[f]),
    ensures
        tilstand(k, n, start, avst, forl, ko),
        s0[0].node < n,
        ko.len() == s0.len() - 1,
        forall|f: int| 0 <= f < k.len() && !i_ko(ko, k[f].fra as int) && k[f].fra != s0[0].node
            ==> avslappet(avst, #[trigger] k[f]),
{
    lemma_pop_noder(s0, 0);
    assert forall|x: int| #[trigger] i_ko(ko, x) <==> (i_ko(s0, x) && x != s0[0].node) by {
        lemma_pop_noder(s0, x);
    }
    assert forall|i: int| 0 <= i < ko.len() implies #[trigger] ko[i].node < n by {
        assert(i_ko(ko, ko[i].node as int));
        let j = choose|j: int| 0 <= j < s0.len() && #[trigger] s0[j].node == ko[i].node;
    }
}

/// Når køen er tom, er alle kanter avslappet, avstandene de korteste, og
/// hver forløper ligger på en korteste vei.
/// Når køen er tom, er alle kanter avslappet, avstandene de korteste, og
/// hver forløper ligger på en korteste vei.
pub proof fn lemma_ferdig(
    k: Seq<Kant>,
    n: int,
    start: int,
    avst: Seq<Avstand>,
    forl: Seq<Option<usize>>,
    ko: Seq<Koelement>,
)
    requires
        tilstand(k, n, start, avst, forl, ko),
        ko.len() == 0,
        forall|f: int| 0 <= f < k.len() && !i_ko(ko, k[f].fra as int) ==> avslappet(avst, #[trigger] k[f]),
    ensures
        forall|v: int, p: Seq<int>| 0 <= v < n && #[trigger] er_vei(k, start, v, p) ==>
            avst[v] is Verdi && avst[v]->Verdi_0 <= vei_lengde(k, p),
        forall|v: int| 0 <= v < n && (#[trigger] forl[v]) is Some ==> {
            let u = forl[v]->Some_0;
            &&& u < n
            &&& avst[v] is Verdi
            &&& exists|e: int| 0 <= e < k.len() && #[trigger] k[e].fra == u && k[e].til == v
                && avst[v] == sum_avstand(avst[u as int], k[e].vekt)
        },
{
    assert forall|f: int| 0 <= f < k.len() implies avslappet(avst, #[trigger] k[f]) by {
        assert(!i_ko(ko, k[f].fra as int));
    }
    lemma_ferdig_korteste(k, n, start, avst);
    lemma_ferdig_forlopere(k, n, avst, forl);
}

/// Med alle kanter avslappet er avstandene ikke lengre enn noen vei.
pub proof fn lemma_ferdig_korteste(k: Seq<Kant>, n: int, start: int, avst: Seq<Avstand>)
    requires
        0 <= start < n,
        avst.len() == n,
        avst[start] == Avstand::Verdi(0),
        forall|e: int| 0 <= e < k.len() ==> #[trigger] k[e].vekt is Verdi,
        forall|e: int| 0 <= e < k.len() ==> #[trigger] k[e].fra < n && k[e].til < n,
        forall|f: int| 0 <= f < k.len() ==> avslappet(avst, #[trigger] k[f]),
    ensures
        forall|v: int, p: Seq<int>| 0 <= v < n && #[trigger] er_vei(k, start, v, p) ==>
            avst[v] is Verdi && avst[v]->Verdi_0 <= vei_lengde(k, p),
{
    assert forall|v: int, p: Seq<int>| 0 <= v < n && #[trigger] er_vei(k, start, v, p) implies
        avst[v] is Verdi && avst[v]->Verdi_0 <= vei_lengde(k, p) by {
        lov_avslappet_gir_korteste(k, avst, start, v, p);
    }
}

/// Med alle kanter avslappet ligger hver forløper på en korteste vei.
pub proof fn lemma_ferdig_forlopere(k: Seq<Kant>, n: int, avst: Seq<Avstand>, forl: Seq<Option<usize>>)
    requires
        avst.len() == n,
        forl.len() == n,
        forall|f: int| 0 <= f < k.len() ==> avslappet(avst, #[trigger] k[f]),
        forall|v: int| 0 <= v < n && (#[trigger] forl[v]) is Some ==> forloper_ok(k, avst, v, forl[v]->Some_0 as int),
    ensures
        forall|v: int| 0 <= v < n && (#[trigger] forl[v]) is Some ==> {
            let u = forl[v]->Some_0;
            &&& u < n
            &&& avst[v] is Verdi
            &&& exists|e: int| 0 <= e < k.len() && #[trigger] k[e].fra == u && k[e].til == v
                && avst[v] == sum_avstand(avst[u as int], k[e].vekt)
        },
{
    assert forall|v: int| 0 <= v < n && (#[trigger] forl[v]) is Some implies {
        let u = forl[v]->Some_0;
        &&& u < n
        &&& avst[v] is Verdi
        &&& exists|e: int| 0 <= e < k.len() && #[trigger] k[e].fra == u && k[e].til == v
            && avst[v] == sum_avstand(avst[u as int], k[e].vekt)
    } by {
        let u = forl[v]->Some_0;
        assert(forloper_ok(k, avst, v, u as int));
        let e = choose|e: int| 0 <= e < k.len() && #[trigger] k[e].fra == u && k[e].til == v
            && !kortere(avst[v], sum_avstand(avst[u as int], k[e].vekt));
        assert(avslappet(avst, k[e]));
    }
}

/// Antall noder og kanter fra første linje.
pub open spec fn les_forste(forste: Seq<char>) -> Result<(usize, usize), VektetGrafFeil> {
    match les_tall(ord(forste), 2, 0, Seq::empty()) {
        TallPaLinje::Tall(v) => Ok((v[0], v[1])),
        TallPaLinje::Mangler(_) => Err(VektetGrafFeil::ManglerTallForst),
        TallPaLinje::Ugyldig(i) => Err(if i == 0 { VektetGrafFeil::AntallNoder } else { VektetGrafFeil::AntallKanter }),
    }
}

/// Kantene fra linje `i` og utover, etter kantene i `kanter`; første linje
/// med feil stopper lesingen.
pub open spec fn les_kanter(linjer: Seq<Option<Seq<char>>>, n: usize, i: int, kanter: Seq<Kant>) -> Result<Seq<Kant>, VektetGrafFeil>
    decreases linjer.len() - i,
{
    if i >= linjer.len() {
        Ok(kanter)
    } else {
        match linjer[i] {
            None => les_kanter(linjer, n, i + 1, kanter),
            Some(l) => match les_tall(ord(l), 3, 0, Seq::empty()) {
                TallPaLinje::Mangler(_) => Err(VektetGrafFeil::ManglerTall { linjenummer: i as usize }),
                TallPaLinje::Ugyldig(j) => Err(if j < 2 {
                    VektetGrafFeil::Nodetall { linjenummer: i as usize }
                } else {
                    VektetGrafFeil::Vekt { linjenummer: i as usize }
                }),
                TallPaLinje::Tall(v) => if v[0] < n && v[1] < n {
                    les_kanter(linjer, n, i + 1, kanter.push(Kant { fra: v[0], til: v[1], vekt: Avstand::Verdi(v[2]) }))
                } else {
                    Err(VektetGrafFeil::UgyldigKant { fra: v[0], til: v[1], antall_noder: n })
                },
            },
        }
    }
}

/// Grafen en fil beskriver: antall noder og kantene, eller feilen i den.
pub open spec fn graf_fra_linjer(forste: Seq<char>, linjer: Seq<Option<Seq<char>>>) -> Result<(usize, Seq<Kant>), VektetGrafFeil> {
    match les_forste(forste) {
        Err(e) => Err(e),
        Ok((n, m)) => match les_kanter(linjer, n, 0, Seq::empty()) {
            Err(e) => Err(e),
            Ok(k) => if k.len() == m {
                Ok((n, k))
            } else {
                Err(VektetGrafFeil::AntallKanterStemmerIkke { forventet: m, lest: k.len() as usize })
            },
        },
    }
}

/// En graf med noder nummerert fra 0 og en liste av vektede kanter.
pub struct Graf {
    noder: Vec<Node>,
    kanter: Vec<Kant>,
}

/// Feil ved bygging av en graf med vektede kanter.
#[derive(Debug, PartialEq, Eq)]
pub enum VektetGrafFeil {
    /// Første linje mangler et av de to tallene.
    ManglerTallForst,
    /// Antall noder på første linje er ikke et tall.
    AntallNoder,
    /// Antall kanter på første linje er ikke et tall.
    AntallKanter,
    /// En kantlinje mangler et av de tre tallene.
    ManglerTall { linjenummer: usize },
    /// En kantlinje har noe som ikke er et nodetall.
    Nodetall { linjenummer: usize },
    /// En kantlinje har noe som ikke er en vekt.
    Vekt { linjenummer: usize },
    /// En kant går til eller fra en node som ikke finnes.
    UgyldigKant { fra: usize, til: usize, antall_noder: usize },
    /// Filen har et annet antall kanter enn første linje sier.
    AntallKanterStemmerIkke { forventet: usize, lest: usize },
}

impl Graf {
    /// Antall noder.
    pub closed spec fn antall_spec(&self) -> nat {
        self.noder@.len()
    }

    /// Kantene.
    pub closed spec fn kanter_spec(&self) -> Seq<Kant> {
        self.kanter@
    }

    /// Nodene har id lik plassen sin, og kantene går mellom noder som finnes.
    pub closed spec fn er_gyldig(&self) -> bool {
        &&& forall|i: int| 0 <= i < self.noder@.len() ==> (#[trigger] self.noder@[i]).id_spec() == i
        &&& forall|e: int| 0 <= e < self.kanter@.len() ==> #[trigger] self.kanter@[e].fra < self.noder@.len()
            && self.kanter@[e].til < self.noder@.len()
        &&& forall|e: int| 0 <= e < self.kanter@.len() ==> #[trigger] self.kanter@[e].vekt is Verdi
    }

    /// Egenskapene ved en gyldig graf.
    pub proof fn lemma_gyldig(&self)
        requires
            self.er_gyldig(),
        ensures
            forall|e: int| 0 <= e < self.kanter_spec().len() ==> #[trigger] self.kanter_spec()[e].fra < self.antall_spec()
                && self.kanter_spec()[e].til < self.antall_spec(),
            forall|e: int| 0 <= e < self.kanter_spec().len() ==> #[trigger] self.kanter_spec()[e].vekt is Verdi,
    {
        assert forall|e: int| 0 <= e < self.kanter_spec().len() implies #[trigger] self.kanter_spec()[e].fra < self.antall_spec()
            && self.kanter_spec()[e].til < self.antall_spec() by {
            assert(self.kanter@[e].fra < self.noder@.len());
        }
    }

    /// En graf med `kapasitet` noder og ingen kanter.
    pub fn opprett(kapasitet: usize) -> (res: Self)
        ensures
            res.er_gyldig(),
            res.antall_spec() == kapasitet,
            res.kanter_spec() == Seq::<Kant>::empty(),
    {
        let mut noder: Vec<Node> = Vec::new();
        let kanter: Vec<Kant> = Vec::new();
        let mut id: usize = 0;
        while id < kapasitet
            invariant
                id <= kapasitet,
                noder@.len() == id,
                forall|i: int| 0 <= i < id ==> (#[trigger] noder@[i]).id_spec() == i,
            decreases kapasitet - id,
        {
            noder.push(Node::opprett(id));
            id = id + 1;
        }
        Self { noder, kanter }
    }

    /// Antall noder.
    pub fn antall_noder(&self) -> (res: usize)
        ensures
            res == self.antall_spec(),
    {
        self.noder.len()
    }

    /// Legger til en kant om begge nodene finnes.
    pub fn ny_kant(&mut self, fra: usize, til: usize, vekt: usize) -> (res: Result<(), VektetGrafFeil>)
        ensures
            final(self).antall_spec() == old(self).antall_spec(),
            fra < old(self).antall_spec() && til < old(self).antall_spec() ==> {
                &&& res is Ok
                &&& final(self).kanter_spec() == old(self).kanter_spec().push(Kant { fra, til, vekt: Avstand::Verdi(vekt) })
            },
            !(fra < old(self).antall_spec() && til < old(self).antall_spec()) ==> {
                &&& res == Err::<(), VektetGrafFeil>(VektetGrafFeil::UgyldigKant { fra, til, antall_noder: old(self).antall_spec() as usize })
                &&& final(self).kanter_spec() == old(self).kanter_spec()
            },
            old(self).er_gyldig() ==> final(self).er_gyldig(),
    {
        if fra >= self.noder.len() || til >= self.noder.len() {
            Err(VektetGrafFeil::UgyldigKant { fra, til, antall_noder: self.noder.len() })
        } else {
            self.kanter.push(Kant::opprett(fra, til, vekt));
            Ok(())
        }
    }

    /// Slapper av alle kanter ut av `u`, og legger naboer som fikk kortere
    /// avstand inn i køen. Gir `false` og stopper om avstanden til `u` pluss
    /// vekten av en kant ut av `u` ikke får plass i en `usize`.
    #[verifier::rlimit(30)]
    fn slapp_av_kanter(
        &self,
        u: usize,
        avstander: &mut Vec<Avstand>,
        forlopere: &mut Vec<Option<usize>>,
        ko: &mut MinHeap,
        Ghost(start): Ghost<int>,
    ) -> (ok: bool)
        requires
            self.er_gyldig(),
            tilstand(self.kanter_spec(), self.antall_spec() as int, start, old(avstander)@, old(forlopere)@, old(ko)@),
            self.antall_spec() < ko_grense(),
            u < self.antall_spec(),
            forall|f: int| 0 <= f < self.kanter_spec().len() && !i_ko(old(ko)@, self.kanter_spec()[f].fra as int)
                && self.kanter_spec()[f].fra != u ==> avslappet(old(avstander)@, #[trigger] self.kanter_spec()[f]),
        ensures
            ok == (forall|f: int| 0 <= f < self.kanter_spec().len() && #[trigger] self.kanter_spec()[f].fra == u
                ==> kan_legges_sammen(old(avstander)@[u as int], self.kanter_spec()[f].vekt)),
            ok ==> tilstand(self.kanter_spec(), self.antall_spec() as int, start, final(avstander)@, final(forlopere)@, final(ko)@),
            ok ==> forall|f: int| 0 <= f < self.kanter_spec().len() && !i_ko(final(ko)@, self.kanter_spec()[f].fra as int)
                ==> avslappet(final(avstander)@, #[trigger] self.kanter_spec()[f]),
            ok ==> mindre_eller_lik(final(avstander)@, final(ko)@.len(), old(avstander)@, old(ko)@.len()),
            ok ==> (final(avstander)@, final(forlopere)@, final(ko)@) == slapp_av(
                self.kanter_spec(),
                u as int,
                old(avstander)@[u as int],
                0,
                old(avstander)@,
                old(forlopere)@,
                old(ko)@,
            ),
    {
        let ghost k = self.kanter@;
        let ghost n = self.antall_spec() as int;
        let avstand_hit = avstander[u];
        let ghost a_start = avstander@;
        let ghost f_start = forlopere@;
        let ghost q_start = ko@;
        let ghost a0 = antall_uendelige(avstander@);
        let ghost b0 = sum_endelige(avstander@);
        let ghost c0 = ko@.len();
        let mut e: usize = 0;
        while e < self.kanter.len()
            invariant
                self.er_gyldig(),
                k == self.kanter_spec(),
                n == self.antall_spec(),
                n < ko_grense(),
                u < n,
                e <= k.len(),
                a_start == old(avstander)@,
                a_start.len() == n,
                avstand_hit == a_start[u as int],
                tilstand(k, n, start, avstander@, forlopere@, ko@),
                avstander@[u as int] == avstand_hit,
                forall|f: int| 0 <= f < e && #[trigger] k[f].fra == u ==> kan_legges_sammen(avstand_hit, k[f].vekt),
                forall|f: int| 0 <= f < k.len() && !i_ko(ko@, k[f].fra as int) && k[f].fra != u ==> avslappet(avstander@, #[trigger] k[f]),
                forall|f: int| 0 <= f < e && k[f].fra == u ==> avslappet(avstander@, #[trigger] k[f]),
                antall_uendelige(avstander@) < a0
                    || (antall_uendelige(avstander@) == a0 && sum_endelige(avstander@) < b0)
                    || (antall_uendelige(avstander@) == a0 && sum_endelige(avstander@) == b0 && ko@.len() <= c0),
                slapp_av(k, u as int, avstand_hit, e as int, avstander@, forlopere@, ko@)
                    == slapp_av(k, u as int, avstand_hit, 0, a_start, f_start, q_start),
            decreases k.len() - e,
        {
            let kant = self.kanter[e];
            let ghost a_for = avstander@;
            let ghost f_for = forlopere@;
            let ghost q_for = ko@;
            assert(kant == k[e as int]);
            if kant.fra == u {
                let nabo = kant.til;
                if !kan_legges_sammen_exec(avstand_hit, kant.vekt) {
                    proof {
                        assert(self.kanter_spec()[e as int].fra == u
                            && !kan_legges_sammen(a_start[u as int], self.kanter_spec()[e as int].vekt));
                    }
                    return false;
                }
                let ny_avstand = avstand_hit + kant.vekt;
                if ny_avstand < avstander[nabo] {
                    let ghost gammel = avstander@;
                    let ghost gammel_ko = ko@;
                    let ghost gammel_forl = forlopere@;
                    let ghost d = ny_avstand->Verdi_0;
                    proof {
                        lemma_oppdater_avstand(gammel, nabo as int, d);
                        lemma_ko_lengde(ko@, n);
                    }
                    avstander.set(nabo, ny_avstand);
                    forlopere.set(nabo, Some(u));
                    let ny = Koelement { node: nabo, avstand: ny_avstand };
                    ko.sett_inn(ny);
                    proof {
                        lemma_avslapp(k, n, start, u as int, e as int, gammel, avstander@,
                            gammel_ko, ko@, ny, avstand_hit, gammel_forl, forlopere@, a0, b0, c0 + 1);
                        assert(slapp_av(k, u as int, avstand_hit, e as int, a_for, f_for, q_for)
                            == slapp_av(k, u as int, avstand_hit, e + 1, avstander@, forlopere@, ko@));
                    }
                } else {
                    assert(slapp_av(k, u as int, avstand_hit, e as int, a_for, f_for, q_for)
                        == slapp_av(k, u as int, avstand_hit, e + 1, avstander@, forlopere@, ko@));
                }
            } else {
                assert(slapp_av(k, u as int, avstand_hit, e as int, a_for, f_for, q_for)
                    == slapp_av(k, u as int, avstand_hit, e + 1, avstander@, forlopere@, ko@));
            }
            e = e + 1;
        }
        true
    }

    /// Dijkstras algoritme fra `start`: gir avstanden til hver node (uendelig
    /// for noder som ikke nås) og noden før den på en korteste vei, slik
    /// algoritmen står når køen er tom. Gir `None` når algoritmen underveis
    /// skulle legge sammen en avstand og en vekt som ikke får plass i en
    /// `usize`.
    pub fn dijkstra_sjekket(&self, start: usize) -> (res: Option<(Vec<Avstand>, Vec<Option<usize>>)>)
        requires
            self.er_gyldig(),
            start < self.antall_spec(),
            self.antall_spec() < ko_grense(),
        ensures
            res is Some <==> uten_overflyt(self.kanter_spec(), self.antall_spec(), start as int),
            res matches Some(r) ==> dijkstra_resultat(self.kanter_spec(), self.antall_spec(), start as int, r.0@, r.1@),
    {
        let n = self.noder.len();
        let ghost k = self.kanter@;
        proof {
            self.lemma_gyldig();
        }
        let mut avstander: Vec<Avstand> = Vec::new();
        let mut forlopere: Vec<Option<usize>> = Vec::new();
        let mut i: usize = 0;
        while i < n
            invariant
                i <= n,
                avstander@ == Seq::new(i as nat, |j: int| Avstand::Uendelig),
                forlopere@ == Seq::new(i as nat, |j: int| None::<usize>),
            decreases n - i,
        {
            avstander.push(Avstand::Uendelig);
            forlopere.push(None);
            i = i + 1;
        }
        avstander.set(start, Avstand::Verdi(0));
        let ghost a_start = avstander@;
        let mut ko = MinHeap::opprett();
        let mut node_id: usize = 0;
        while node_id < n
            invariant
                avstander@ == a_start,
                ko@ == fylt_ko(a_start, node_id as int),
                n == self.antall_spec(),
                n < ko_grense(),
                node_id <= n,
                avstander@.len() == n,
                unike_noder(ko@),
                ko@.len() == node_id,
                forall|x: int| #[trigger] i_ko(ko@, x) <==> 0 <= x < node_id,
            decreases n - node_id,
        {
            let ghost s = ko@;
            proof {
                lemma_sett_inn_noder(s, Koelement { node: node_id, avstand: avstander@[node_id as int] }, 0);
            }
            ko.sett_inn(Koelement { node: node_id, avstand: avstander[node_id] });
            proof {
                assert forall|x: int| #[trigger] i_ko(ko@, x) <==> 0 <= x < node_id + 1 by {
                    lemma_sett_inn_noder(s, Koelement { node: node_id, avstand: avstander@[node_id as int] }, x);
                }
            }
            node_id = node_id + 1;
        }
        proof {
            assert forall|i: int| 0 <= i < ko@.len() implies #[trigger] ko@[i].node < n by {
                assert(i_ko(ko@, ko@[i].node as int));
            }
            lemma_alle_uendelige(n as nat);
            lemma_oppdater_avstand(Seq::new(n as nat, |j: int| Avstand::Uendelig), start as int, 0);
            assert(er_vei(k, start as int, start as int, Seq::<int>::empty()));
            assert(tilstand(k, n as int, start as int, avstander@, forlopere@, ko@));
            assert(avstander@ =~= Seq::new(n as nat, |j: int| Avstand::Uendelig).update(start as int, Avstand::Verdi(0)));
            assert((avstander@, forlopere@, ko@) == dijkstra_etter(k, dijkstra_start(n as nat, start as int), 0));
        }
        let ghost z0 = dijkstra_start(n as nat, start as int);
        let ghost mut t: nat = 0;
        while !ko.er_tom()
            invariant
                z0 == dijkstra_start(n as nat, start as int),
                (avstander@, forlopere@, ko@) == dijkstra_etter(k, z0, t),
                forall|s: nat| s < t ==> steg_uten_overflyt(k, #[trigger] dijkstra_etter(k, z0, s)),
                self.er_gyldig(),
                k == self.kanter_spec(),
                n == self.antall_spec(),
                n < ko_grense(),
                tilstand(k, n as int, start as int, avstander@, forlopere@, ko@),
                forall|f: int| 0 <= f < k.len() && !i_ko(ko@, k[f].fra as int) ==> avslappet(avstander@, #[trigger] k[f]),
            decreases antall_uendelige(avstander@), sum_endelige(avstander@), ko@.len(),
        {
            proof {
                lemma_ko_lengde(ko@, n as int);
            }
            let ghost s0 = ko@;
            let ghost z = (avstander@, forlopere@, ko@);
            let element = ko.pop().unwrap();
            let u = element.node;
            proof {
                lemma_pop_tilstand(k, n as int, start as int, avstander@, forlopere@, s0, ko@);
            }
            let ok = self.slapp_av_kanter(u, &mut avstander, &mut forlopere, &mut ko, Ghost(start as int));
            if !ok {
                proof {
                    assert(!steg_uten_overflyt(k, dijkstra_etter(k, z0, t)));
                }
                return None;
            }
            proof {
                assert(steg_uten_overflyt(k, dijkstra_etter(k, z0, t)));
                assert((avstander@, forlopere@, ko@) == dijkstra_steg(k, z));
                t = t + 1;
            }
        }
        proof {
            lemma_ferdig(k, n as int, start as int, avstander@, forlopere@, ko@);
            lemma_dijkstra_spec(k, n as nat, start as int, t);
            assert forall|s: nat| steg_uten_overflyt(k, #[trigger] dijkstra_etter(k, z0, s)) by {
                if s >= t {
                    lemma_tom_ko_fast(k, z0, t, s);
                }
            }
        }
        Some((avstander, forlopere))
    }

    /// Dijkstras algoritme fra `start`: gir avstanden til hver node (uendelig
    /// for noder som ikke nås) og noden før den på en korteste vei, slik
    /// algoritmen står når køen er tom. Ingen sum algoritmen regner ut kan
    /// gå over.
    pub fn dijkstra(&self, start: usize) -> (res: (Vec<Avstand>, Vec<Option<usize>>))
        requires
            self.er_gyldig(),
            start < self.antall_spec(),
            self.antall_spec() < ko_grense(),
            uten_overflyt(self.kanter_spec(), self.antall_spec(), start as int),
        ensures
            res.0@.len() == self.antall_spec(),
            res.1@.len() == self.antall_spec(),
            res.0@[start as int] == Avstand::Verdi(0),
            res.1@[start as int] == None::<usize>,
            forall|v: int| 0 <= v < self.antall_spec() && (#[trigger] res.0@[v]) is Verdi ==>
                exists|p: Seq<int>| #[trigger] er_vei(self.kanter_spec(), start as int, v, p)
                    && vei_lengde(self.kanter_spec(), p) == res.0@[v]->Verdi_0,
            forall|v: int, p: Seq<int>| 0 <= v < self.antall_spec() && #[trigger] er_vei(self.kanter_spec(), start as int, v, p) ==>
                res.0@[v] is Verdi && res.0@[v]->Verdi_0 <= vei_lengde(self.kanter_spec(), p),
            forall|v: int| 0 <= v < self.antall_spec() && (#[trigger] res.1@[v]) is Some ==> {
                let u = res.1@[v]->Some_0;
                &&& u < self.antall_spec()
                &&& res.0@[v] is Verdi
                &&& exists|e: int| 0 <= e < self.kanter_spec().len() && #[trigger] self.kanter_spec()[e].fra == u
                    && self.kanter_spec()[e].til == v
                    && res.0@[v] == sum_avstand(res.0@[u as int], self.kanter_spec()[e].vekt)
            },
            forall|v: int| 0 <= v < self.antall_spec() && (#[trigger] res.1@[v]) is None ==>
                v == start || res.0@[v] == Avstand::Uendelig,
            (res.0@, res.1@) == dijkstra_spec(self.kanter_spec(), self.antall_spec(), start as int),
    {
        match self.dijkstra_sjekket(start) {
            Some(r) => r,
            None => {
                proof {
                    assert(false);
                }
                (Vec::new(), Vec::new())
            },
        }
    }


    /// Bygger grafen fra første linje (antall noder og kanter) og resten av
    /// linjene (én kant per linje: fra, til og vekt).
    pub fn fra_linjer(forste: &str, linjer: &Vec<Option<String>>) -> (res: Result<Self, VektetGrafFeil>)
        ensures
            match graf_fra_linjer(forste@, linjer_av(linjer@)) {
                Ok((n, k)) => res matches Ok(g) && g.antall_spec() == n && g.kanter_spec() == k && g.er_gyldig(),
                Err(e) => res == Err::<Graf, VektetGrafFeil>(e),
            },
    {
        let ghost ls = linjer_av(linjer@);
        let forste_tall = les_tall_linje(forste, 2);
        let (kapasitet, forventet_antall_kanter) = match forste_tall {
            Ok(v) => (v[0], v[1]),
            Err((i, mangler)) => {
                if mangler {
                    return Err(VektetGrafFeil::ManglerTallForst);
                } else if i == 0 {
                    return Err(VektetGrafFeil::AntallNoder);
                } else {
                    return Err(VektetGrafFeil::AntallKanter);
                }
            },
        };
        let mut graf = Graf::opprett(kapasitet);
        let mut lest_antall_kanter: usize = 0;
        let mut i: usize = 0;
        while i < linjer.len()
            invariant
                ls == linjer_av(linjer@),
                les_forste(forste@) == Ok::<(usize, usize), VektetGrafFeil>((kapasitet, forventet_antall_kanter)),
                i <= linjer@.len(),
                les_kanter(ls, kapasitet, i as int, graf.kanter_spec()) == les_kanter(ls, kapasitet, 0, Seq::empty()),
                graf.antall_spec() == kapasitet,
                graf.er_gyldig(),
                lest_antall_kanter == graf.kanter_spec().len(),
                lest_antall_kanter <= i,
            decreases linjer@.len() - i,
        {
            match &linjer[i] {
                Some(linje) => {
                    assert(ls[i as int] == Some(linje@));
                    let tall = les_tall_linje(linje.as_str(), 3);
                    match tall {
                        Ok(v) => {
                            let fra = v[0];
                            let til = v[1];
                            let vekt = v[2];
                            match graf.ny_kant(fra, til, vekt) {
                                Ok(_) => {
                                    lest_antall_kanter += 1;
                                },
                                Err(feil) => {
                                    return Err(feil);
                                },
                            }
                        },
                        Err((j, mangler)) => {
                            if mangler {
                                return Err(VektetGrafFeil::ManglerTall { linjenummer: i });
                            } else if j < 2 {
                                return Err(VektetGrafFeil::Nodetall { linjenummer: i });
                            } else {
                                return Err(VektetGrafFeil::Vekt { linjenummer: i });
                            }
                        },
                    }
                },
                None => {
                    assert(ls[i as int] is None);
                },
            }
            i = i + 1;
        }
        assert(les_kanter(ls, kapasitet, i as int, graf.kanter_spec()) == Ok::<Seq<Kant>, VektetGrafFeil>(graf.kanter_spec()));
        if lest_antall_kanter != forventet_antall_kanter {
            return Err(VektetGrafFeil::AntallKanterStemmerIkke { forventet: forventet_antall_kanter, lest: lest_antall_kanter });
        }
        Ok(graf)
    }
}
} // verus!
