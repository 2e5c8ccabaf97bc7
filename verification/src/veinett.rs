//! Veinett: noder med kanter som har kjøretid, og søk etter raskeste vei
//! mellom to noder med en prioritetskø og estimater for gjenstående tid.
use vstd::prelude::*;
use vstd::pervasive::VecAdditionalExecFns;
use vstd::std_specs::cmp::PartialEqSpecImpl;
use crate::avstand::{Avstand, kortere, sum_avstand, kan_legges_sammen, kan_legges_sammen_exec};
use crate::minheap::{MinHeap, Vektet, teller, samme_elementer, er_heap, heap_grense};
use crate::tekst::{TallPaLinje, les_tall, ord, les_tall_linje};
use crate::grafkomponenter::linjer_av;

verus! {

/// En kjøretid: et tall, eller uendelig for noder som ikke nås.
pub type Kjoretid = Avstand;

/// En node i køen med kjøretiden den ble lagt inn med.
#[derive(Debug, Clone, Copy)]
pub struct Koelement {
    pub kjoretid: Kjoretid,
    pub node: usize,
}

impl Vektet for Koelement {
    open spec fn vekt_spec(&self) -> usize {
        match self.kjoretid {
            Avstand::Verdi(v) => v,
            Avstand::Uendelig => usize::MAX,
        }
    }

    open spec fn med_vekt(&self, vekt: usize) -> Koelement {
        Koelement { kjoretid: Avstand::Verdi(vekt), node: self.node }
    }

    fn vekt(&self) -> (res: usize) {
        if let Avstand::Verdi(vekt) = self.kjoretid {
            vekt
        } else {
            usize::MAX
        }
    }

    fn sett_vekt(&mut self, vekt: usize) {
        self.kjoretid = Avstand::Verdi(vekt);
    }

    proof fn lemma_med_vekt(&self, vekt: usize) {
    }

    open spec fn foran(&self, annet: &Koelement) -> bool {
        kortere(self.kjoretid, annet.kjoretid)
    }

    fn er_foran(&self, annet: &Koelement) -> (res: bool) {
        self.kjoretid < annet.kjoretid
    }

    proof fn lemma_foran(&self, annet: &Koelement) {
    }
}

impl PartialEq for Koelement {
    fn eq(&self, other: &Koelement) -> (res: bool) {
        self.node == other.node
    }
}

impl PartialEqSpecImpl for Koelement {
    open spec fn obeys_eq_spec() -> bool {
        true
    }

    open spec fn eq_spec(&self, other: &Koelement) -> bool {
        self.node == other.node
    }
}

/// En kant med kjøretid.
#[derive(Clone, Copy)]
pub struct Kant {
    pub fra: usize,
    pub til: usize,
    pub kjoretid: Kjoretid,
}

impl Kant {
    /// En kant fra `fra` til `til` med kjøretiden `kjoretid`.
    pub fn opprett(fra: usize, til: usize, kjoretid: usize) -> (res: Self)
        ensures
            res == (Kant { fra, til, kjoretid: Avstand::Verdi(kjoretid) }),
    {
        Self { fra, til, kjoretid: Avstand::Verdi(kjoretid) }
    }
}

/// En node med kantene ut av den og et estimat for kjøretiden videre til
/// målet, når det er regnet ut.
pub struct Node {
    id: usize,
    kanter: Vec<Kant>,
    estimat: Option<Kjoretid>,
}

impl Node {
    /// En node uten kanter og uten estimat.
    pub fn opprett(id: usize) -> (res: Self)
        ensures
            res.id_spec() == id,
            res.kanter_spec() == Seq::<Kant>::empty(),
            res.estimat_spec() is None,
    {
        Self { id, kanter: Vec::new(), estimat: None }
    }

    /// Kantene ut av noden.
    pub closed spec fn kanter_spec(&self) -> Seq<Kant> {
        self.kanter@
    }

    /// Id-en.
    pub closed spec fn id_spec(&self) -> usize {
        self.id
    }

    /// Estimatet.
    pub closed spec fn estimat_spec(&self) -> Option<Kjoretid> {
        self.estimat
    }

    /// Id-en.
    pub fn id(&self) -> (res: usize)
        ensures
            res == self.id_spec(),
    {
        self.id
    }

    /// Estimatet.
    pub fn estimat(&self) -> (res: Option<Kjoretid>)
        ensures
            res == self.estimat_spec(),
    {
        self.estimat
    }

    /// Setter estimatet.
    pub fn sett_estimat(&mut self, estimat: Kjoretid)
        ensures
            final(self).estimat_spec() == Some(estimat),
            final(self).id_spec() == old(self).id_spec(),
            final(self).kanter_spec() == old(self).kanter_spec(),
    {
        self.estimat = Some(estimat);
    }

    /// Kantene ut av noden.
    pub fn kanter(&self) -> (res: &Vec<Kant>)
        ensures
            res@ == self.kanter_spec(),
    {
        &self.kanter
    }
}

/// Estimatet for en node: null når det ikke er regnet ut ennå.
pub open spec fn estimat_av(e: Option<Kjoretid>) -> Avstand {
    match e {
        Some(x) => x,
        None => Avstand::Verdi(0),
    }
}

/// Estimatene for alle nodene.
pub open spec fn estimater_av(noder: Seq<Node>) -> Seq<Avstand> {
    noder.map_values(|n: Node| estimat_av(n.estimat_spec()))
}

/// Tallverdien til en endelig avstand.
pub open spec fn tall(a: Avstand) -> int {
    match a {
        Avstand::Verdi(x) => x as int,
        Avstand::Uendelig => 0,
    }
}

/// Vekten søket bruker for en kant: kjøretiden pluss estimatet for noden
/// kanten går til.
pub open spec fn effektiv(e: Kant, est: Seq<Avstand>) -> int {
    tall(e.kjoretid) + tall(est[e.til as int])
}

/// Kjøretiden søket prøver for enden av kanten.
pub open spec fn forslag(kj: Seq<Avstand>, e: Kant, est: Seq<Avstand>) -> Avstand {
    sum_avstand(sum_avstand(kj[e.fra as int], e.kjoretid), est[e.til as int])
}

/// Forslaget for enden av kanten kan regnes ut: har noden kanten går fra
/// en kjøretid, går kanten til en node som finnes, og kjøretiden pluss
/// kjøretiden langs kanten og estimatet får plass i en `usize` (med
/// uendelig kjøretid legges ingenting sammen).
pub open spec fn forslag_passer(kj: Seq<Avstand>, e: Kant, est: Seq<Avstand>) -> bool {
    kj[e.fra as int] is Verdi ==> {
        &&& e.til < kj.len()
        &&& tall(kj[e.fra as int]) + effektiv(e, est) <= usize::MAX
    }
}

/// Kanten ligger i kantlisten til noden den går fra.
pub open spec fn i_graf(g: Seq<Seq<Kant>>, e: Kant) -> bool {
    &&& 0 <= e.fra < g.len()
    &&& exists|j: int| 0 <= j < g[e.fra as int].len() && #[trigger] g[e.fra as int][j] == e
}

/// `p` er en vei av kanter i grafen fra `start` til `slutt`.
pub open spec fn er_vei(g: Seq<Seq<Kant>>, start: int, slutt: int, p: Seq<Kant>) -> bool {
    if p.len() == 0 {
        start == slutt
    } else {
        &&& forall|i: int| 0 <= i < p.len() ==> i_graf(g, #[trigger] p[i])
        &&& p[0].fra == start
        &&& forall|i: int| 0 <= i < p.len() - 1 ==> (#[trigger] p[i]).til == p[i + 1].fra
        &&& p.last().til == slutt
    }
}

/// Summen av de effektive vektene langs veien.
pub open spec fn vei_lengde(p: Seq<Kant>, est: Seq<Avstand>) -> int
    decreases p.len(),
{
    if p.len() == 0 {
        0
    } else {
        vei_lengde(p.drop_last(), est) + effektiv(p.last(), est)
    }
}

/// Nodene veien går gjennom, fra `start`.
pub open spec fn noder_langs(start: int, p: Seq<Kant>) -> Seq<usize> {
    Seq::new(p.len() + 1, |i: int| if i == 0 { start as usize } else { p[i - 1].til })
}

/// Kjøretidene er gyldige for grafen: kantene går fra noden de står ved, og
/// alle kjøretider og estimater er tall.
pub open spec fn gyldig_nett(g: Seq<Seq<Kant>>, est: Seq<Avstand>) -> bool {
    &&& est.len() == g.len()
    &&& forall|i: int| 0 <= i < g.len() ==> (#[trigger] est[i]) is Verdi
    &&& forall|i: int, j: int| 0 <= i < g.len() && 0 <= j < g[i].len() ==> {
        &&& (#[trigger] g[i][j]).fra == i
        &&& g[i][j].kjoretid is Verdi
    }
}

/// Elementet for noden med kjøretiden den har nå.
pub open spec fn element(kj: Seq<Avstand>, v: int) -> Koelement {
    Koelement { kjoretid: kj[v], node: v as usize }
}

/// Noden har et element i køen.
pub open spec fn i_ko(ko: Seq<Koelement>, kj: Seq<Avstand>, v: int) -> bool {
    teller(ko, element(kj, v)) > 0
}

/// Kanten er avslappet: forslaget for enden får plass og er ikke kortere
/// enn det enden har.
pub open spec fn avslappet(kj: Seq<Avstand>, e: Kant, est: Seq<Avstand>) -> bool {
    forslag_passer(kj, e, est) && !kortere(forslag(kj, e, est), kj[e.til as int])
}

/// `u` kan stå som noden før `v`: en kant fra `u` til `v` gir et forslag som
/// er kortere enn det `v` har, eller like langt med `u` endret før `v`.
pub open spec fn forloper_ok(
    g: Seq<Seq<Kant>>,
    est: Seq<Avstand>,
    kj: Seq<Avstand>,
    tid: Seq<nat>,
    v: int,
    u: int,
) -> bool {
    &&& 0 <= u < g.len()
    &&& kj[v] is Verdi
    &&& kj[u] is Verdi
    &&& exists|j: int| 0 <= j < g[u].len() && (#[trigger] g[u][j]).til == v && forslag_passer(kj, g[u][j], est) && {
        ||| kortere(forslag(kj, g[u][j], est), kj[v])
        ||| (forslag(kj, g[u][j], est) == kj[v] && tid[u] < tid[v])
    }
}

/// Plassen til det første elementet fra plass `i` i køen som gjelder noden
/// `v`, om noe gjør det.
pub open spec fn forste_med_node(ko: Seq<Koelement>, v: usize, i: int) -> Option<int>
    decreases ko.len() - i,
{
    if i < 0 || i >= ko.len() {
        None
    } else if ko[i].node == v {
        Some(i)
    } else {
        forste_med_node(ko, v, i + 1)
    }
}

/// Det første elementet for `v` står på plass `i`.
pub proof fn lemma_forste_med_node(ko: Seq<Koelement>, v: usize, i: int, k: int)
    requires
        0 <= k <= i < ko.len(),
        ko[i].node == v,
        forall|j: int| 0 <= j < i ==> (#[trigger] ko[j]).node != v,
    ensures
        forste_med_node(ko, v, k) == Some(i),
    decreases i - k,
{
    if k < i {
        lemma_forste_med_node(ko, v, i, k + 1);
    }
}

/// Ingen elementer fra plass `k` gjelder `v`.
pub proof fn lemma_ingen_med_node(ko: Seq<Koelement>, v: usize, k: int)
    requires
        0 <= k,
        forall|j: int| 0 <= j < ko.len() ==> (#[trigger] ko[j]).node != v,
    ensures
        forste_med_node(ko, v, k) is None,
    decreases ko.len() - k,
{
    if k < ko.len() {
        lemma_ingen_med_node(ko, v, k + 1);
    }
}

/// Utforsker kantene fra nummer `i` og utover ut av `u`: gir en kant en
/// kortere kjøretid til noden den går til, får noden den kjøretiden og `u`
/// som forløper, og den får ny vekt i køen om den er der, ellers legges den
/// inn.
pub open spec fn utforsk_spec(
    g: Seq<Seq<Kant>>,
    est: Seq<Avstand>,
    u: int,
    i: int,
    kj: Seq<Avstand>,
    forl: Seq<Option<usize>>,
    ko: Seq<Koelement>,
) -> (Seq<Avstand>, Seq<Option<usize>>, Seq<Koelement>)
    decreases g[u].len() - i,
{
    if i < 0 || i >= g[u].len() {
        (kj, forl, ko)
    } else {
        let e = g[u][i];
        let ny = forslag(kj, e, est);
        let v = e.til;
        if kortere(ny, kj[v as int]) {
            let ko2 = match forste_med_node(ko, v, 0) {
                Some(idx) => match ny {
                    Avstand::Verdi(x) => crate::minheap::endre_spec(ko, idx, x),
                    Avstand::Uendelig => ko,
                },
                None => crate::minheap::push_spec(ko, Koelement { kjoretid: ny, node: v }),
            };
            utforsk_spec(g, est, u, i + 1, kj.update(v as int, ny), forl.update(v as int, Some(e.fra)), ko2)
        } else {
            utforsk_spec(g, est, u, i + 1, kj, forl, ko)
        }
    }
}

/// Ett steg i søket, på kjøretidene, forløperne, køen og om søket er
/// ferdig: med tom kø er det ferdig; ellers tas det første elementet ut, og
/// er det målet, er søket ferdig, ellers utforskes kantene fra det.
pub open spec fn sok_steg(
    g: Seq<Seq<Kant>>,
    est: Seq<Avstand>,
    til: int,
    z: (Seq<Avstand>, Seq<Option<usize>>, Seq<Koelement>, bool),
) -> (Seq<Avstand>, Seq<Option<usize>>, Seq<Koelement>, bool) {
    if z.3 {
        z
    } else if z.2.len() == 0 {
        (z.0, z.1, z.2, true)
    } else {
        let x = z.2[0];
        let ko = crate::minheap::pop_spec(z.2).1;
        if x.node == til {
            (z.0, z.1, ko, true)
        } else {
            let r = utforsk_spec(g, est, x.node as int, 0, z.0, z.1, ko);
            (r.0, r.1, r.2, false)
        }
    }
}

/// Tilstanden i søket etter `t` steg.
pub open spec fn sok_etter(
    g: Seq<Seq<Kant>>,
    est: Seq<Avstand>,
    til: int,
    z: (Seq<Avstand>, Seq<Option<usize>>, Seq<Koelement>, bool),
    t: nat,
) -> (Seq<Avstand>, Seq<Option<usize>>, Seq<Koelement>, bool)
    decreases t,
{
    if t == 0 {
        z
    } else {
        sok_steg(g, est, til, sok_etter(g, est, til, z, (t - 1) as nat))
    }
}

/// Starten på søket: `fra` har kjøretid null og de andre uendelig, ingen har
/// forløper, og bare `fra` er i køen.
pub open spec fn sok_start(n: nat, fra: int) -> (Seq<Avstand>, Seq<Option<usize>>, Seq<Koelement>, bool) {
    (
        Seq::new(n, |j: int| Avstand::Uendelig).update(fra, Avstand::Verdi(0)),
        Seq::new(n, |j: int| None::<usize>),
        crate::minheap::push_spec(Seq::<Koelement>::empty(), Koelement { kjoretid: Avstand::Verdi(0), node: fra as usize }),
        false,
    )
}

/// Når søket er ferdig, endrer flere steg ingenting.
pub proof fn lemma_sok_fast(
    g: Seq<Seq<Kant>>,
    est: Seq<Avstand>,
    til: int,
    z: (Seq<Avstand>, Seq<Option<usize>>, Seq<Koelement>, bool),
    t1: nat,
    t2: nat,
)
    requires
        sok_etter(g, est, til, z, t1).3,
        t1 <= t2,
    ensures
        sok_etter(g, est, til, z, t2) == sok_etter(g, est, til, z, t1),
    decreases t2,
{
    if t2 > t1 {
        lemma_sok_fast(g, est, til, z, t1, (t2 - 1) as nat);
    }
}

/// `p` fulgt av lista, om det er en liste.
pub open spec fn fortsett(p: Seq<usize>, x: Option<Seq<usize>>) -> Option<Seq<usize>> {
    match x {
        Some(s) => Some(p + s),
        None => None,
    }
}

/// Nodene fra `c` og bakover langs forløperne til en node uten forløper, når
/// kjeden er kortere enn `t`.
pub open spec fn baklengs_fra(forl: Seq<Option<usize>>, c: int, t: nat) -> Option<Seq<usize>>
    decreases t,
{
    if t == 0 {
        None
    } else {
        match forl[c] {
            None => Some(seq![c as usize]),
            Some(u) => fortsett(seq![c as usize], baklengs_fra(forl, u as int, (t - 1) as nat)),
        }
    }
}

/// Når kjeden er fulgt til enden, gir større `t` det samme.
pub proof fn lemma_baklengs_fast(forl: Seq<Option<usize>>, c: int, t1: nat, t2: nat)
    requires
        baklengs_fra(forl, c, t1) is Some,
        t1 <= t2,
    ensures
        baklengs_fra(forl, c, t2) == baklengs_fra(forl, c, t1),
    decreases t1,
{
    match forl[c] {
        None => {},
        Some(u) => {
            lemma_baklengs_fast(forl, u as int, (t1 - 1) as nat, (t2 - 1) as nat);
        },
    }
}

/// Nodene fra starten av kjeden av forløpere og fram til `til`.
pub open spec fn vei_langs_forlopere(forl: Seq<Option<usize>>, til: int) -> Seq<usize> {
    let t = choose|t: nat| (#[trigger] baklengs_fra(forl, til, t)) is Some;
    baklengs_fra(forl, til, t)->Some_0.reverse()
}

/// Steget går uten panikk: når søket ikke er ferdig og noden først i køen
/// ikke er målet, går hver kant ut av den til en node som finnes, og
/// forslaget for enden får plass i en `usize`.
pub open spec fn steg_passer(
    g: Seq<Seq<Kant>>,
    est: Seq<Avstand>,
    til: int,
    z: (Seq<Avstand>, Seq<Option<usize>>, Seq<Koelement>, bool),
) -> bool {
    if z.3 || z.2.len() == 0 || z.2[0].node == til {
        true
    } else {
        let u = z.2[0].node as int;
        forall|j: int| 0 <= j < g[u].len() ==> forslag_passer(z.0, #[trigger] g[u][j], est)
    }
}

/// Søket fra `fra` mot `til` følger aldri en kant til en node som ikke
/// finnes, og legger aldri sammen kjøretider som ikke får plass i en `usize`.
pub open spec fn sok_uten_panikk(g: Seq<Seq<Kant>>, est: Seq<Avstand>, fra: int, til: int) -> bool {
    forall|t: nat| steg_passer(g, est, til, #[trigger] sok_etter(g, est, til, sok_start(g.len(), fra), t))
}

/// Veien `finn_vei` gir: søket kjøres til det er ferdig, og forløperne følges
/// fra `til`.
pub open spec fn finn_vei_spec(g: Seq<Seq<Kant>>, est: Seq<Avstand>, fra: int, til: int) -> Seq<usize> {
    let z0 = sok_start(g.len(), fra);
    let t = choose|t: nat| (#[trigger] sok_etter(g, est, til, z0, t)).3;
    vei_langs_forlopere(sok_etter(g, est, til, z0, t).1, til)
}

/// Er kjeden fulgt til enden med `t`, er veien den baklengs.
pub proof fn lemma_vei_langs_forlopere(forl: Seq<Option<usize>>, til: int, t: nat)
    requires
        baklengs_fra(forl, til, t) is Some,
    ensures
        vei_langs_forlopere(forl, til) == baklengs_fra(forl, til, t)->Some_0.reverse(),
{
    let t0 = choose|t: nat| (#[trigger] baklengs_fra(forl, til, t)) is Some;
    assert(baklengs_fra(forl, til, t0) is Some);
    if t0 <= t {
        lemma_baklengs_fast(forl, til, t0, t);
    } else {
        lemma_baklengs_fast(forl, til, t, t0);
    }
}

/// Er søket ferdig etter `t` steg, gir det veien langs forløperne da.
pub proof fn lemma_finn_vei_spec(g: Seq<Seq<Kant>>, est: Seq<Avstand>, fra: int, til: int, t: nat)
    requires
        sok_etter(g, est, til, sok_start(g.len(), fra), t).3,
    ensures
        finn_vei_spec(g, est, fra, til) == vei_langs_forlopere(sok_etter(g, est, til, sok_start(g.len(), fra), t).1, til),
{
    let z0 = sok_start(g.len(), fra);
    let t0 = choose|t: nat| (#[trigger] sok_etter(g, est, til, z0, t)).3;
    assert(sok_etter(g, est, til, z0, t0).3);
    if t0 <= t {
        lemma_sok_fast(g, est, til, z0, t0, t);
    } else {
        lemma_sok_fast(g, est, til, z0, t, t0);
    }
}

/// Alt søket vet mellom to steg.
pub open spec fn sok_tilstand(
    g: Seq<Seq<Kant>>,
    est: Seq<Avstand>,
    fra: int,
    kj: Seq<Avstand>,
    forl: Seq<Option<usize>>,
    tid: Seq<nat>,
    t: nat,
    ko: Seq<Koelement>,
) -> bool {
    let n = g.len() as int;
    &&& gyldig_nett(g, est)
    &&& n <= usize::MAX
    &&& 0 <= fra < n
    &&& kj.len() == n
    &&& forl.len() == n
    &&& tid.len() == n
    &&& kj[fra] == Avstand::Verdi(0)
    &&& forl[fra] == None::<usize>
    &&& forall|v: int| 0 <= v < n ==> #[trigger] tid[v] < t
    &&& forall|x: Koelement| #[trigger] teller(ko, x) > 0 ==> x.node < n && x == element(kj, x.node as int) && x.kjoretid is Verdi
    &&& forall|x: Koelement| #[trigger] teller(ko, x) <= 1
    &&& forall|v: int| 0 <= v < n && (#[trigger] kj[v]) is Verdi ==>
        exists|p: Seq<Kant>| #[trigger] er_vei(g, fra, v, p) && vei_lengde(p, est) == tall(kj[v])
    &&& forall|v: int| 0 <= v < n && (#[trigger] forl[v]) is Some ==> forloper_ok(g, est, kj, tid, v, forl[v]->Some_0 as int)
    &&& forall|v: int| 0 <= v < n && (#[trigger] forl[v]) is None ==> v == fra || kj[v] == Avstand::Uendelig
}

/// En kø uten like elementer der hvert element er elementet for noden sin,
/// har høyst ett element per node.
pub proof fn lemma_ko_lengde(ko: Seq<Koelement>, kj: Seq<Avstand>, n: int)
    requires
        0 <= n,
        forall|x: Koelement| #[trigger] teller(ko, x) > 0 ==> x.node < n && x == element(kj, x.node as int),
        forall|x: Koelement| #[trigger] teller(ko, x) <= 1,
    ensures
        ko.len() <= n,
{
    let plasser = vstd::set_lib::set_int_range(0, ko.len() as int);
    vstd::set_lib::lemma_int_range(0, ko.len() as int);
    let f = |i: int| ko[i].node as int;
    let noder = plasser.map(f);
    assert forall|i: int| 0 <= i < ko.len() implies teller(ko, #[trigger] ko[i]) > 0 by {
        crate::minheap::lemma_teller_indeks(ko, ko[i]);
    }
    assert(vstd::relations::injective_on(f, plasser)) by {
        assert forall|a: int, b: int| plasser.contains(a) && plasser.contains(b) && #[trigger] f(a) == #[trigger] f(b)
            implies a == b by {
            assert(teller(ko, ko[a]) > 0 && teller(ko, ko[b]) > 0);
            assert(ko[a] == ko[b]);
            if a < b {
                crate::minheap::lemma_teller_to(ko, ko[a], a, b);
            } else if b < a {
                crate::minheap::lemma_teller_to(ko, ko[a], b, a);
            }
        }
    }
    vstd::set_lib::lemma_map_size(plasser, noder, f);
    let tallene = vstd::set_lib::set_int_range(0, n);
    vstd::set_lib::lemma_int_range(0, n);
    assert(noder.subset_of(tallene)) by {
        assert forall|x: int| noder.contains(x) implies tallene.contains(x) by {
            let i = choose|i: int| plasser.contains(i) && f(i) == x;
            assert(teller(ko, ko[i]) > 0);
        }
    }
    vstd::set_lib::lemma_len_subset(noder, tallene);
}

/// Etter `pop` er roten ute av køen, resten er der fortsatt, og roten
/// veide ikke mer enn noe annet element.
pub proof fn lemma_pop_sok(
    g: Seq<Seq<Kant>>,
    est: Seq<Avstand>,
    fra: int,
    kj: Seq<Avstand>,
    forl: Seq<Option<usize>>,
    tid: Seq<nat>,
    t: nat,
    s0: Seq<Koelement>,
    ko: Seq<Koelement>,
)
    requires
        sok_tilstand(g, est, fra, kj, forl, tid, t, s0),
        er_heap(s0),
        s0.len() > 0,
        ko == crate::minheap::pop_spec(s0).1,
    ensures
        sok_tilstand(g, est, fra, kj, forl, tid, t, ko),
        er_heap(ko),
        ko.len() == s0.len() - 1,
        s0[0] == element(kj, s0[0].node as int),
        s0[0].node < g.len(),
        s0[0].kjoretid is Verdi,
        forall|v: int| 0 <= v < g.len() ==> (#[trigger] i_ko(ko, kj, v) <==> (i_ko(s0, kj, v) && v != s0[0].node)),
        forall|y: Koelement| #[trigger] teller(s0, y) > 0 ==> s0[0].vekt_spec() <= y.vekt_spec(),
{
    crate::minheap::lov_pop(s0);
    crate::minheap::lemma_teller_indeks(s0, s0[0]);
    assert(teller(s0, s0[0]) > 0);
    assert forall|y: Koelement| #[trigger] teller(s0, y) > 0 implies s0[0].vekt_spec() <= y.vekt_spec() by {
        crate::minheap::lemma_teller_indeks(s0, y);
        let j = choose|j: int| 0 <= j < s0.len() && s0[j] == y;
        assert(crate::minheap::w(s0[0]) <= crate::minheap::w(s0[j]));
    }
    assert forall|x: Koelement| #[trigger] teller(ko, x) > 0 implies x.node < g.len() && x == element(kj, x.node as int) && x.kjoretid is Verdi by {
        assert(teller(ko, x) + (if s0[0] == x { 1nat } else { 0nat }) == teller(s0, x));
    }
    assert forall|x: Koelement| #[trigger] teller(ko, x) <= 1 by {
        assert(teller(ko, x) + (if s0[0] == x { 1nat } else { 0nat }) == teller(s0, x));
    }
    assert forall|v: int| 0 <= v < g.len() implies (#[trigger] i_ko(ko, kj, v) <==> (i_ko(s0, kj, v) && v != s0[0].node)) by {
        let x = element(kj, v);
        assert(teller(ko, x) + (if s0[0] == x { 1nat } else { 0nat }) == teller(s0, x));
        if v == s0[0].node {
            assert(x == s0[0]);
        }
    }
}

/// En vei og en kant videre gir en vei.
pub proof fn lemma_vei_videre(g: Seq<Seq<Kant>>, est: Seq<Avstand>, start: int, p: Seq<Kant>, u: int, j: int)
    requires
        er_vei(g, start, u, p),
        0 <= u < g.len(),
        0 <= j < g[u].len(),
        g[u][j].fra == u,
    ensures
        er_vei(g, start, g[u][j].til as int, p.push(g[u][j])),
        vei_lengde(p.push(g[u][j]), est) == vei_lengde(p, est) + effektiv(g[u][j], est),
{
    let e = g[u][j];
    let q = p.push(e);
    assert(q.drop_last() =~= p);
    assert(i_graf(g, e));
    assert forall|i: int| 0 <= i < q.len() implies i_graf(g, #[trigger] q[i]) by {
        if i < p.len() {
            assert(q[i] == p[i]);
        }
    }
    if p.len() > 0 {
        assert forall|i: int| 0 <= i < q.len() - 1 implies (#[trigger] q[i]).til == q[i + 1].fra by {
            if i < p.len() - 1 {
                assert(q[i] == p[i] && q[i + 1] == p[i + 1]);
            }
        }
    }
}

/// En avslapping holder veiene til nodene.
pub proof fn lemma_oppdater_veier(
    g: Seq<Seq<Kant>>,
    est: Seq<Avstand>,
    fra: int,
    kj0: Seq<Avstand>,
    kj1: Seq<Avstand>,
    u: int,
    j: int,
)
    requires
        gyldig_nett(g, est),
        0 <= fra < g.len(),
        0 <= u < g.len(),
        0 <= j < g[u].len(),
        g[u][j].til < g.len(),
        kj0.len() == g.len(),
        kj0[u] is Verdi,
        tall(kj0[u]) + effektiv(g[u][j], est) <= usize::MAX,
        kortere(forslag(kj0, g[u][j], est), kj0[g[u][j].til as int]),
        kj1 == kj0.update(g[u][j].til as int, forslag(kj0, g[u][j], est)),
        forall|v: int| 0 <= v < g.len() && (#[trigger] kj0[v]) is Verdi ==>
            exists|p: Seq<Kant>| #[trigger] er_vei(g, fra, v, p) && vei_lengde(p, est) == tall(kj0[v]),
    ensures
        forall|v: int| 0 <= v < g.len() && (#[trigger] kj1[v]) is Verdi ==>
            exists|p: Seq<Kant>| #[trigger] er_vei(g, fra, v, p) && vei_lengde(p, est) == tall(kj1[v]),
        crate::dijkstra::mindre_eller_lik(kj1, 0, kj0, 0),
        crate::dijkstra::antall_uendelige(kj1) < crate::dijkstra::antall_uendelige(kj0)
            || crate::dijkstra::sum_endelige(kj1) < crate::dijkstra::sum_endelige(kj0),
        crate::dijkstra::antall_uendelige(kj1) <= crate::dijkstra::antall_uendelige(kj0),
{
    let e = g[u][j];
    let v0 = e.til as int;
    let n = g.len() as int;
    let hd = tall(kj0[u]);
    let we = effektiv(e, est);
    let ny = forslag(kj0, e, est);
    assert(ny == Avstand::Verdi((hd + we) as usize));
    crate::dijkstra::lemma_oppdater_avstand(kj0, v0, (hd + we) as usize);
    assert forall|v: int| 0 <= v < n && (#[trigger] kj1[v]) is Verdi implies
        exists|p: Seq<Kant>| #[trigger] er_vei(g, fra, v, p) && vei_lengde(p, est) == tall(kj1[v]) by {
        if v == v0 {
            let p = choose|p: Seq<Kant>| #[trigger] er_vei(g, fra, u, p) && vei_lengde(p, est) == tall(kj0[u]);
            lemma_vei_videre(g, est, fra, p, u, j);
            assert(er_vei(g, fra, v, p.push(e)));
        } else {
            assert(kj0[v] == kj1[v]);
        }
    }
}

/// En avslapping holder forløperne gyldige.
pub proof fn lemma_oppdater_forlopere(
    g: Seq<Seq<Kant>>,
    est: Seq<Avstand>,
    fra: int,
    kj0: Seq<Avstand>,
    kj1: Seq<Avstand>,
    forl0: Seq<Option<usize>>,
    forl1: Seq<Option<usize>>,
    tid0: Seq<nat>,
    tid1: Seq<nat>,
    t0: nat,
    u: int,
    j: int,
)
    requires
        gyldig_nett(g, est),
        0 <= fra < g.len(),
        0 <= u < g.len(),
        0 <= j < g[u].len(),
        g[u][j].til < g.len(),
        kj0.len() == g.len(),
        forl0.len() == g.len(),
        tid0.len() == g.len(),
        kj0[u] is Verdi,
        forall|v: int| 0 <= v < g.len() ==> #[trigger] tid0[v] < t0,
        g[u][j].til != u,
        g[u][j].til != fra,
        kortere(forslag(kj0, g[u][j], est), kj0[g[u][j].til as int]),
        kj1 == kj0.update(g[u][j].til as int, forslag(kj0, g[u][j], est)),
        forl1 == forl0.update(g[u][j].til as int, Some(u as usize)),
        tid1 == tid0.update(g[u][j].til as int, t0),
        forall|v: int| 0 <= v < g.len() && (#[trigger] forl0[v]) is Some ==> forloper_ok(g, est, kj0, tid0, v, forl0[v]->Some_0 as int),
        forall|v: int| 0 <= v < g.len() && (#[trigger] forl0[v]) is None ==> v == fra || kj0[v] == Avstand::Uendelig,
        forslag_passer(kj0, g[u][j], est),
    ensures
        forall|v: int| 0 <= v < g.len() && (#[trigger] forl1[v]) is Some ==> forloper_ok(g, est, kj1, tid1, v, forl1[v]->Some_0 as int),
        forall|v: int| 0 <= v < g.len() && (#[trigger] forl1[v]) is None ==> v == fra || kj1[v] == Avstand::Uendelig,
{
    let v0 = g[u][j].til as int;
    assert forall|v: int| 0 <= v < g.len() && (#[trigger] forl1[v]) is Some implies
        forloper_ok(g, est, kj1, tid1, v, forl1[v]->Some_0 as int) by {
        if v == v0 {
            assert(g[u][j].til == v);
            assert(forslag(kj1, g[u][j], est) == kj1[v]);
            assert(tid1[u] < tid1[v]);
        } else {
            let x = forl0[v]->Some_0 as int;
            assert(forloper_ok(g, est, kj0, tid0, v, x));
            let i = choose|i: int| 0 <= i < g[x].len() && (#[trigger] g[x][i]).til == v && forslag_passer(kj0, g[x][i], est) && {
                ||| kortere(forslag(kj0, g[x][i], est), kj0[v])
                ||| (forslag(kj0, g[x][i], est) == kj0[v] && tid0[x] < tid0[v])
            };
            assert(g[x][i].fra == x);
            if x == v0 {
                assert(forslag_passer(kj1, g[x][i], est));
                assert(kortere(forslag(kj1, g[x][i], est), kj1[v]));
            } else {
                assert(forslag(kj1, g[x][i], est) == forslag(kj0, g[x][i], est));
            }
        }
    }
    assert forall|v: int| 0 <= v < g.len() && (#[trigger] forl1[v]) is None implies v == fra || kj1[v] == Avstand::Uendelig by {
        assert(v != v0);
        assert(forl0[v] is None);
    }
}

/// Å bytte ut eller legge til elementet for `v` i køen holder køen i takt
/// med kjøretidene.
pub proof fn lemma_oppdater_ko(
    n: int,
    kj0: Seq<Avstand>,
    kj1: Seq<Avstand>,
    ko0: Seq<Koelement>,
    ko1: Seq<Koelement>,
    v: int,
)
    requires
        0 <= v < n,
        n <= usize::MAX,
        kj0.len() == n,
        kj1 == kj0.update(v, kj1[v]),
        kj1[v] is Verdi,
        kj1[v] != kj0[v],
        forall|x: Koelement| #[trigger] teller(ko0, x) > 0 ==> x.node < n && x == element(kj0, x.node as int) && x.kjoretid is Verdi,
        forall|x: Koelement| #[trigger] teller(ko0, x) <= 1,
        forall|y: Koelement| #[trigger] teller(ko1, y) + (if y == element(kj0, v) && i_ko(ko0, kj0, v) { 1nat } else { 0nat })
            == teller(ko0, y) + (if y == element(kj1, v) { 1nat } else { 0nat }),
    ensures
        forall|x: Koelement| #[trigger] teller(ko1, x) > 0 ==> x.node < n && x == element(kj1, x.node as int) && x.kjoretid is Verdi,
        forall|x: Koelement| #[trigger] teller(ko1, x) <= 1,
        forall|x: int| 0 <= x < n ==> (#[trigger] i_ko(ko1, kj1, x) <==> (i_ko(ko0, kj0, x) || x == v)),
{
    let gammel = element(kj0, v);
    let ny = element(kj1, v);
    assert(teller(ko0, ny) == 0) by {
        if teller(ko0, ny) > 0 {
            assert(ny == element(kj0, ny.node as int));
        }
    }
    assert forall|x: Koelement| #[trigger] teller(ko1, x) > 0 implies x.node < n && x == element(kj1, x.node as int) && x.kjoretid is Verdi by {
        assert(teller(ko1, x) + (if x == gammel && i_ko(ko0, kj0, v) { 1nat } else { 0nat })
            == teller(ko0, x) + (if x == ny { 1nat } else { 0nat }));
        if x != ny {
            assert(teller(ko0, x) > 0);
            if x.node == v {
                assert(x == gammel);
            }
        }
    }
    assert forall|x: Koelement| #[trigger] teller(ko1, x) <= 1 by {
        assert(teller(ko1, x) + (if x == gammel && i_ko(ko0, kj0, v) { 1nat } else { 0nat })
            == teller(ko0, x) + (if x == ny { 1nat } else { 0nat }));
        assert(teller(ko0, x) <= 1);
    }
    assert forall|x: int| 0 <= x < n implies (#[trigger] i_ko(ko1, kj1, x) <==> (i_ko(ko0, kj0, x) || x == v)) by {
        let y = element(kj1, x);
        assert(teller(ko1, y) + (if y == gammel && i_ko(ko0, kj0, v) { 1nat } else { 0nat })
            == teller(ko0, y) + (if y == ny { 1nat } else { 0nat }));
        if x != v {
            assert(y == element(kj0, x));
            assert(y != ny);
            assert(y != gammel);
        }
    }
}

/// Kanter ut av noder som ikke er i køen er avslappet, unntatt kanter ut av
/// `u` fra og med nummer `j`.
pub open spec fn avslappet_utenfor(g: Seq<Seq<Kant>>, est: Seq<Avstand>, kj: Seq<Avstand>, ko: Seq<Koelement>, u: int, j: int) -> bool {
    &&& forall|x: int, i: int| 0 <= x < g.len() && x != u && !i_ko(ko, kj, x) && 0 <= i < g[x].len()
        ==> avslappet(kj, #[trigger] g[x][i], est)
    &&& forall|i: int| 0 <= i < j && i < g[u].len() ==> avslappet(kj, #[trigger] g[u][i], est)
}

/// En avslapping av kant `j` ut av `u` holder de andre kantene avslappet og
/// slapper av kant `j`.
pub proof fn lemma_oppdater_avslappet(
    g: Seq<Seq<Kant>>,
    est: Seq<Avstand>,
    kj0: Seq<Avstand>,
    kj1: Seq<Avstand>,
    ko0: Seq<Koelement>,
    ko1: Seq<Koelement>,
    u: int,
    j: int,
)
    requires
        gyldig_nett(g, est),
        0 <= u < g.len(),
        0 <= j < g[u].len(),
        g[u][j].til < g.len(),
        kj0.len() == g.len(),
        g[u][j].til != u,
        forslag_passer(kj0, g[u][j], est),
        kortere(forslag(kj0, g[u][j], est), kj0[g[u][j].til as int]),
        kj1 == kj0.update(g[u][j].til as int, forslag(kj0, g[u][j], est)),
        forall|x: int| 0 <= x < g.len() ==> (#[trigger] i_ko(ko1, kj1, x) <==> (i_ko(ko0, kj0, x) || x == g[u][j].til)),
        avslappet_utenfor(g, est, kj0, ko0, u, j),
    ensures
        avslappet_utenfor(g, est, kj1, ko1, u, j + 1),
{
    let v = g[u][j].til as int;
    assert forall|x: int, i: int| 0 <= x < g.len() && x != u && !i_ko(ko1, kj1, x) && 0 <= i < g[x].len()
        implies avslappet(kj1, #[trigger] g[x][i], est) by {
        assert(x != v);
        assert(!i_ko(ko0, kj0, x));
        assert(avslappet(kj0, g[x][i], est));
        assert(g[x][i].fra == x);
    }
    assert forall|i: int| 0 <= i < j + 1 && i < g[u].len() implies avslappet(kj1, #[trigger] g[u][i], est) by {
        assert(g[u][i].fra == u);
        if i < j {
            assert(avslappet(kj0, g[u][i], est));
        }
    }
}

/// En vei fra `fra` til `x` er ikke kortere enn kjøretiden til `x`, eller så
/// går den gjennom en node i køen som har kjøretid høyst så lang som veien.
pub proof fn lemma_vei_gjennom_ko(
    g: Seq<Seq<Kant>>,
    est: Seq<Avstand>,
    fra: int,
    kj: Seq<Avstand>,
    ko: Seq<Koelement>,
    x: int,
    q: Seq<Kant>,
)
    requires
        gyldig_nett(g, est),
        0 <= fra < g.len(),
        kj.len() == g.len(),
        kj[fra] == Avstand::Verdi(0),
        avslappet_utenfor(g, est, kj, ko, -1, 0),
        0 <= x < g.len(),
        er_vei(g, fra, x, q),
    ensures
        (kj[x] is Verdi && tall(kj[x]) <= vei_lengde(q, est))
            || exists|y: int| 0 <= y < g.len() && #[trigger] i_ko(ko, kj, y) && kj[y] is Verdi && tall(kj[y]) <= vei_lengde(q, est),
    decreases q.len(),
{
    if q.len() > 0 {
        let e = q.last();
        let r = q.drop_last();
        let u = e.fra as int;
        assert(i_graf(g, q[q.len() - 1]));
        assert(er_vei(g, fra, u, r)) by {
            if r.len() > 0 {
                assert(q[q.len() - 2].til == q[q.len() - 1].fra);
                assert forall|i: int| 0 <= i < r.len() implies i_graf(g, #[trigger] r[i]) by {
                    assert(r[i] == q[i]);
                    assert(i_graf(g, q[i]));
                }
                assert forall|i: int| 0 <= i < r.len() - 1 implies (#[trigger] r[i]).til == r[i + 1].fra by {
                    assert(r[i] == q[i] && r[i + 1] == q[i + 1]);
                }
            }
        }
        lemma_vei_gjennom_ko(g, est, fra, kj, ko, u, r);
        let j = choose|j: int| 0 <= j < g[u].len() && #[trigger] g[u][j] == e;
        assert(effektiv(e, est) >= 0);
        if kj[u] is Verdi && tall(kj[u]) <= vei_lengde(r, est) {
            if !i_ko(ko, kj, u) {
                assert(avslappet(kj, g[u][j], est));
            } else {
                assert(i_ko(ko, kj, u) && kj[u] is Verdi && tall(kj[u]) <= vei_lengde(q, est));
            }
        } else {
            let y = choose|y: int| 0 <= y < g.len() && #[trigger] i_ko(ko, kj, y) && kj[y] is Verdi && tall(kj[y]) <= vei_lengde(r, est);
            assert(i_ko(ko, kj, y) && tall(kj[y]) <= vei_lengde(q, est));
        }
    }
}

/// En kant foran en vei gir en vei.
pub proof fn lemma_vei_foran(g: Seq<Seq<Kant>>, est: Seq<Avstand>, e: Kant, u: int, j: int, c: int, slutt: int, p: Seq<Kant>)
    requires
        0 <= u < g.len(),
        0 <= j < g[u].len(),
        e == g[u][j],
        e.fra == u,
        e.til == c,
        er_vei(g, c, slutt, p),
    ensures
        er_vei(g, u, slutt, seq![e] + p),
        vei_lengde(seq![e] + p, est) == effektiv(e, est) + vei_lengde(p, est),
    decreases p.len(),
{
    let q = seq![e] + p;
    assert(i_graf(g, e));
    assert forall|i: int| 0 <= i < q.len() implies i_graf(g, #[trigger] q[i]) by {
        if i > 0 {
            assert(q[i] == p[i - 1]);
        }
    }
    assert forall|i: int| 0 <= i < q.len() - 1 implies (#[trigger] q[i]).til == q[i + 1].fra by {
        if i > 0 {
            assert(q[i] == p[i - 1] && q[i + 1] == p[i]);
        }
    }
    if p.len() > 0 {
        assert(q.last() == p.last());
        assert(q.drop_last() =~= seq![e] + p.drop_last());
        assert(vei_lengde(q, est) == vei_lengde(q.drop_last(), est) + effektiv(q.last(), est));
        assert(vei_lengde(p, est) == vei_lengde(p.drop_last(), est) + effektiv(p.last(), est));
        assert(er_vei(g, c, p.last().fra as int, p.drop_last())) by {
            if p.len() > 1 {
                assert(p[p.len() - 2].til == p[p.len() - 1].fra);
                assert forall|i: int| 0 <= i < p.drop_last().len() implies i_graf(g, #[trigger] p.drop_last()[i]) by {
                    assert(p.drop_last()[i] == p[i]);
                    assert(i_graf(g, p[i]));
                }
                assert forall|i: int| 0 <= i < p.drop_last().len() - 1 implies (#[trigger] p.drop_last()[i]).til == p.drop_last()[i + 1].fra by {
                    assert(p.drop_last()[i] == p[i] && p.drop_last()[i + 1] == p[i + 1]);
                }
            }
        }
        lemma_vei_foran(g, est, e, u, j, c, p.last().fra as int, p.drop_last());
    } else {
        assert(q.drop_last() =~= Seq::<Kant>::empty());
        assert(vei_lengde(q, est) == vei_lengde(q.drop_last(), est) + effektiv(q.last(), est));
    }
}

/// Når målet tas ut som roten av køen, er kjøretiden til det ikke lengre
/// enn noen vei dit.
pub proof fn lemma_optimal_ved_pop(
    g: Seq<Seq<Kant>>,
    est: Seq<Avstand>,
    fra: int,
    kj: Seq<Avstand>,
    s0: Seq<Koelement>,
    til: int,
)
    requires
        gyldig_nett(g, est),
        0 <= fra < g.len(),
        0 <= til < g.len(),
        kj.len() == g.len(),
        kj[fra] == Avstand::Verdi(0),
        avslappet_utenfor(g, est, kj, s0, -1, 0),
        s0.len() > 0,
        s0[0] == element(kj, til),
        kj[til] is Verdi,
        forall|x: Koelement| #[trigger] teller(s0, x) > 0 ==> x.kjoretid is Verdi,
        forall|y: Koelement| #[trigger] teller(s0, y) > 0 ==> s0[0].vekt_spec() <= y.vekt_spec(),
    ensures
        forall|q: Seq<Kant>| #[trigger] er_vei(g, fra, til, q) ==>
            kj[til] is Verdi && tall(kj[til]) <= vei_lengde(q, est),
{
    assert forall|q: Seq<Kant>| #[trigger] er_vei(g, fra, til, q) implies
        kj[til] is Verdi && tall(kj[til]) <= vei_lengde(q, est) by {
        lemma_vei_gjennom_ko(g, est, fra, kj, s0, til, q);
        if !(tall(kj[til]) <= vei_lengde(q, est)) {
            let y = choose|y: int| 0 <= y < g.len() && #[trigger] i_ko(s0, kj, y)
                && kj[y] is Verdi && tall(kj[y]) <= vei_lengde(q, est);
            assert(teller(s0, element(kj, y)) > 0);
            assert(s0[0].vekt_spec() <= element(kj, y).vekt_spec());
        }
    }
}

/// Etter `pop` er kanter ut av noder utenfor køen fortsatt avslappet, utenom
/// kantene ut av noden som ble tatt ut.
pub proof fn lemma_avslappet_etter_pop(
    g: Seq<Seq<Kant>>,
    est: Seq<Avstand>,
    kj: Seq<Avstand>,
    s0: Seq<Koelement>,
    ko: Seq<Koelement>,
    u: int,
)
    requires
        avslappet_utenfor(g, est, kj, s0, -1, 0),
        forall|v: int| 0 <= v < g.len() ==> (#[trigger] i_ko(ko, kj, v) <==> (i_ko(s0, kj, v) && v != u)),
    ensures
        avslappet_utenfor(g, est, kj, ko, u, 0),
{
    assert forall|x: int, j: int| 0 <= x < g.len() && x != u && !i_ko(ko, kj, x) && 0 <= j < g[x].len()
        implies avslappet(kj, #[trigger] g[x][j], est) by {
        assert(!i_ko(s0, kj, x));
    }
}

/// Når køen er tom, er kjøretiden til målet ikke lengre enn noen vei dit.
pub proof fn lemma_optimal_tom_ko(
    g: Seq<Seq<Kant>>,
    est: Seq<Avstand>,
    fra: int,
    kj: Seq<Avstand>,
    ko: Seq<Koelement>,
    til: int,
)
    requires
        gyldig_nett(g, est),
        0 <= fra < g.len(),
        kj.len() == g.len(),
        kj[fra] == Avstand::Verdi(0),
        avslappet_utenfor(g, est, kj, ko, -1, 0),
        ko.len() == 0,
        0 <= til < g.len(),
    ensures
        forall|q: Seq<Kant>| #[trigger] er_vei(g, fra, til, q) ==>
            kj[til] is Verdi && tall(kj[til]) <= vei_lengde(q, est),
{
    assert forall|q: Seq<Kant>| #[trigger] er_vei(g, fra, til, q) implies
        kj[til] is Verdi && tall(kj[til]) <= vei_lengde(q, est) by {
        assert forall|y: int| 0 <= y < g.len() implies !#[trigger] i_ko(ko, kj, y) by {
            if i_ko(ko, kj, y) {
                crate::minheap::lemma_teller_indeks(ko, element(kj, y));
            }
        }
        lemma_vei_gjennom_ko(g, est, fra, kj, ko, til, q);
    }
}

/// Feil i en fil med kanter.
#[derive(Debug, PartialEq, Eq)]
pub enum KantFilFeil {
    /// Første linje har ikke noe tall.
    ManglerTallForst,
    /// Antall kanter på første linje er ikke et tall.
    AntallKanter,
    /// En kantlinje mangler et av de tre tallene.
    ManglerTall { linjenummer: usize },
    /// En kantlinje har noe som ikke er en node-id.
    NodeId { linjenummer: usize },
    /// En kantlinje har noe som ikke er en kjøretid.
    Kjoretid { linjenummer: usize },
    /// En kant går fra en node som ikke finnes.
    UkjentNode { fra: usize, linjenummer: usize },
    /// Filen har et annet antall kanter enn første linje sier.
    AntallKanterStemmerIkke { forventet: usize, lest: usize },
}

/// Antall kanter fra første linje.
pub open spec fn les_antall_kanter(forste: Seq<char>) -> Result<usize, KantFilFeil> {
    match les_tall(ord(forste), 1, 0, Seq::empty()) {
        TallPaLinje::Tall(v) => Ok(v[0]),
        TallPaLinje::Mangler(_) => Err(KantFilFeil::ManglerTallForst),
        TallPaLinje::Ugyldig(_) => Err(KantFilFeil::AntallKanter),
    }
}

/// Kantene fra linje `i` og utover i en graf med `n` noder, etter kantene i
/// `kanter`; første linje med feil stopper lesingen.
pub open spec fn les_kantlinjer(linjer: Seq<Option<Seq<char>>>, n: nat, i: int, kanter: Seq<Kant>) -> Result<Seq<Kant>, KantFilFeil>
    decreases linjer.len() - i,
{
    if i >= linjer.len() {
        Ok(kanter)
    } else {
        match linjer[i] {
            None => les_kantlinjer(linjer, n, i + 1, kanter),
            Some(l) => match les_tall(ord(l), 3, 0, Seq::empty()) {
                TallPaLinje::Mangler(_) => Err(KantFilFeil::ManglerTall { linjenummer: i as usize }),
                TallPaLinje::Ugyldig(j) => Err(if j < 2 {
                    KantFilFeil::NodeId { linjenummer: i as usize }
                } else {
                    KantFilFeil::Kjoretid { linjenummer: i as usize }
                }),
                TallPaLinje::Tall(v) => if v[0] < n {
                    les_kantlinjer(linjer, n, i + 1, kanter.push(Kant { fra: v[0], til: v[1], kjoretid: Avstand::Verdi(v[2]) }))
                } else {
                    Err(KantFilFeil::UkjentNode { fra: v[0], linjenummer: i as usize })
                },
            },
        }
    }
}

/// Kantene en fil beskriver for en graf med `n` noder, eller feilen i den.
pub open spec fn kanter_fra_linjer(forste: Seq<char>, linjer: Seq<Option<Seq<char>>>, n: nat) -> Result<Seq<Kant>, KantFilFeil> {
    match les_antall_kanter(forste) {
        Err(e) => Err(e),
        Ok(m) => match les_kantlinjer(linjer, n, 0, Seq::empty()) {
            Err(e) => Err(e),
            Ok(k) => if k.len() == m {
                Ok(k)
            } else {
                Err(KantFilFeil::AntallKanterStemmerIkke { forventet: m, lest: k.len() as usize })
            },
        },
    }
}

/// Kantlistene etter at kantene er lagt til i listene til nodene de går fra.
pub open spec fn med_kanter(g: Seq<Seq<Kant>>, kanter: Seq<Kant>) -> Seq<Seq<Kant>>
    decreases kanter.len(),
{
    if kanter.len() == 0 {
        g
    } else {
        let h = med_kanter(g, kanter.drop_last());
        let e = kanter.last();
        h.update(e.fra as int, h[e.fra as int].push(e))
    }
}

/// Feil fra søket etter raskeste vei.
#[derive(Debug, PartialEq, Eq)]
pub enum VeiFeil {
    /// Et estimat fikk ikke plass i et heltall.
    ForStortEstimat,
}

/// Et veinett.
pub struct Graf {
    noder: Vec<Node>,
}

impl Graf {
    /// Nodene.
    pub closed spec fn noder_spec(&self) -> Seq<Node> {
        self.noder@
    }

    /// Kantene ut av hver node.
    pub open spec fn kanter_spec(&self) -> Seq<Seq<Kant>> {
        self.noder_spec().map_values(|n: Node| n.kanter_spec())
    }

    /// Et tomt veinett.
    pub fn opprett() -> (res: Self)
        ensures
            res.noder_spec() == Seq::<Node>::empty(),
    {
        Self { noder: Vec::new() }
    }

    /// Antall noder.
    pub fn antall_noder(&self) -> (res: usize)
        ensures
            res == self.noder_spec().len(),
    {
        self.noder.len()
    }

    /// Legger til en node bakerst.
    pub fn push_node(&mut self, node: Node)
        ensures
            final(self).noder_spec() == old(self).noder_spec().push(node),
    {
        self.noder.push(node);
    }

    /// Legger kanten til i kantene ut av noden den går fra.
    pub fn push_kant(&mut self, kant: Kant)
        requires
            kant.fra < old(self).noder_spec().len(),
        ensures
            final(self).noder_spec().len() == old(self).noder_spec().len(),
            forall|i: int| 0 <= i < old(self).noder_spec().len() ==> {
                &&& (#[trigger] final(self).noder_spec()[i]).id_spec() == old(self).noder_spec()[i].id_spec()
                &&& final(self).noder_spec()[i].estimat_spec() == old(self).noder_spec()[i].estimat_spec()
            },
            final(self).kanter_spec() == old(self).kanter_spec().update(kant.fra as int,
                old(self).kanter_spec()[kant.fra as int].push(kant)),
    {
        let ghost gammel = self.kanter_spec();
        let mut node = Node::opprett(0);
        self.noder.set_and_swap(kant.fra, &mut node);
        node.kanter.push(kant);
        self.noder.set_and_swap(kant.fra, &mut node);
        assert(self.kanter_spec() =~= gammel.update(kant.fra as int, gammel[kant.fra as int].push(kant)));
    }

    /// Nodene har id lik plassen sin, og kantene og estimatene er gyldige.
    pub open spec fn er_gyldig(&self) -> bool {
        &&& forall|i: int| 0 <= i < self.noder_spec().len() ==> (#[trigger] self.noder_spec()[i]).id_spec() == i
        &&& gyldig_nett(self.kanter_spec(), estimater_av(self.noder_spec()))
    }

    /// Estimatene for nodene.
    pub open spec fn estimater_spec(&self) -> Seq<Avstand> {
        estimater_av(self.noder_spec())
    }

    /// Setter estimatet for en node.
    fn sett_estimat_for(&mut self, node: usize, estimat: Kjoretid)
        requires
            node < old(self).noder_spec().len(),
        ensures
            final(self).noder_spec().len() == old(self).noder_spec().len(),
            final(self).kanter_spec() == old(self).kanter_spec(),
            forall|i: int| 0 <= i < old(self).noder_spec().len() ==> (#[trigger] final(self).noder_spec()[i]).id_spec()
                == old(self).noder_spec()[i].id_spec(),
            final(self).estimater_spec() == old(self).estimater_spec().update(node as int, estimat),
    {
        let ghost gammel = self.noder_spec();
        let mut n = Node::opprett(0);
        self.noder.set_and_swap(node, &mut n);
        n.sett_estimat(estimat);
        self.noder.set_and_swap(node, &mut n);
        assert(self.kanter_spec() =~= gammel.map_values(|n: Node| n.kanter_spec()));
        assert(self.estimater_spec() =~= estimater_av(gammel).update(node as int, estimat));
    }

    /// Kjøretiden til noden kanten går fra, pluss kjøretiden langs kanten og
    /// estimatet for enden; `None` når kanten går til en node som ikke finnes,
    /// eller summen ikke får plass i en `usize`.
    /// Mangler enden et estimat, regnes det ut fra tallet i `estimater` og
    /// lagres i noden.
    fn forslag_for(&mut self, kant: Kant, kjoretider: &Vec<Kjoretid>, estimater: &Vec<usize>)
        -> (res: Result<Option<Kjoretid>, VeiFeil>)
        requires
            old(self).er_gyldig(),
            kant.fra < kjoretider@.len(),
            kjoretider@.len() == old(self).noder_spec().len(),
            kant.kjoretid is Verdi,
            estimater@.len() == old(self).noder_spec().len(),
        ensures
            final(self).er_gyldig(),
            final(self).noder_spec().len() == old(self).noder_spec().len(),
            final(self).kanter_spec() == old(self).kanter_spec(),
            final(self).estimater_spec() == old(self).estimater_spec(),
            forall|i: int| 0 <= i < old(self).noder_spec().len() ==> (#[trigger] final(self).noder_spec()[i]).id_spec()
                == old(self).noder_spec()[i].id_spec(),
            res is Ok,
            res matches Ok(r) ==> (r is Some <==> (kant.til < old(self).noder_spec().len()
                && forslag_passer(kjoretider@, kant, old(self).estimater_spec()))),
            res matches Ok(Some(x)) ==> x == forslag(kjoretider@, kant, old(self).estimater_spec()),
    {
        let ghost est = self.estimater_spec();
        let v = kant.til;
        if v >= self.noder.len() {
            return Ok(None);
        }
        let fra_tid = kjoretider[kant.fra];
        if !kan_legges_sammen_exec(fra_tid, kant.kjoretid) {
            return Ok(None);
        }
        let mut ny_kjoretid = fra_tid + kant.kjoretid;
        let estimat = match self.noder[v].estimat {
            Some(estimat) => estimat,
            None => {
                let estimat = Avstand::Verdi(
                    match estimater[v].checked_mul(0) {
                        Some(tid) => tid,
                        None => {
                            return Err(VeiFeil::ForStortEstimat);
                        },
                    },
                );
                self.sett_estimat_for(v, estimat);
                proof {
                    assert(self.estimater_spec() =~= est);
                }
                estimat
            },
        };
        if !kan_legges_sammen_exec(ny_kjoretid, estimat) {
            return Ok(None);
        }
        ny_kjoretid.add_assign(estimat);
        Ok(Some(ny_kjoretid))
    }

    /// Går gjennom kantene ut av `u` og gir naboene kortere kjøretid der
    /// veien gjennom `u` er raskere.
    #[verifier::rlimit(100)]
    #[verifier::spinoff_prover]
    fn utforsk(
        &mut self,
        u: usize,
        kjoretider: &mut Vec<Kjoretid>,
        forlopere: &mut Vec<Option<usize>>,
        ko: &mut MinHeap<Koelement>,
        estimater: &Vec<usize>,
        Ghost(fra): Ghost<int>,
        Ghost(tid): Ghost<Seq<nat>>,
        Ghost(t): Ghost<nat>,
    ) -> (res: Result<Option<Ghost<(Seq<nat>, nat)>>, VeiFeil>)
        requires
            old(self).er_gyldig(),
            old(self).noder_spec().len() < heap_grense(),
            estimater@.len() == old(self).noder_spec().len(),
            u < old(self).noder_spec().len(),
            sok_tilstand(old(self).kanter_spec(), old(self).estimater_spec(), fra, old(kjoretider)@, old(forlopere)@, tid, t, old(ko)@),
            old(ko).er_gyldig(),
            old(kjoretider)@[u as int] is Verdi,
            avslappet_utenfor(old(self).kanter_spec(), old(self).estimater_spec(), old(kjoretider)@, old(ko)@, u as int, 0),
            !i_ko(old(ko)@, old(kjoretider)@, u as int),
        ensures
            final(self).er_gyldig(),
            final(self).noder_spec().len() == old(self).noder_spec().len(),
            final(self).kanter_spec() == old(self).kanter_spec(),
            final(self).estimater_spec() == old(self).estimater_spec(),
            forall|i: int| 0 <= i < old(self).noder_spec().len() ==> (#[trigger] final(self).noder_spec()[i]).id_spec()
                == old(self).noder_spec()[i].id_spec(),
            res is Ok,
            (res matches Ok(Some(_))) == (forall|j: int| 0 <= j < old(self).kanter_spec()[u as int].len()
                ==> forslag_passer(old(kjoretider)@, #[trigger] old(self).kanter_spec()[u as int][j], old(self).estimater_spec())),
            res matches Ok(Some(ny)) ==> {
                &&& sok_tilstand(old(self).kanter_spec(), old(self).estimater_spec(), fra, final(kjoretider)@,
                    final(forlopere)@, ny@.0, ny@.1, final(ko)@)
                &&& final(ko).er_gyldig()
                &&& avslappet_utenfor(old(self).kanter_spec(), old(self).estimater_spec(), final(kjoretider)@, final(ko)@, -1, 0)
                &&& crate::dijkstra::mindre_eller_lik(final(kjoretider)@, final(ko)@.len(), old(kjoretider)@, old(ko)@.len())
                &&& (final(kjoretider)@, final(forlopere)@, final(ko)@) == utforsk_spec(
                    old(self).kanter_spec(),
                    old(self).estimater_spec(),
                    u as int,
                    0,
                    old(kjoretider)@,
                    old(forlopere)@,
                    old(ko)@,
                )
            },
    {
        let ghost g = self.kanter_spec();
        let ghost est = self.estimater_spec();
        let ghost kj_start = kjoretider@;
        let ghost forl_start = forlopere@;
        let ghost ko_start = ko@;
        let ghost n = g.len() as int;
        let ghost a0 = crate::dijkstra::antall_uendelige(kjoretider@);
        let ghost b0 = crate::dijkstra::sum_endelige(kjoretider@);
        let ghost c0 = ko@.len();
        let ghost mut tid = tid;
        let ghost mut t = t;
        let antall_kanter = self.noder[u].kanter.len();
        let mut i: usize = 0;
        while i < antall_kanter
            invariant
                self.er_gyldig(),
                self.noder_spec().len() == n,
                n < heap_grense(),
                n == g.len(),
                estimater@.len() == n,
                g == self.kanter_spec(),
                est == self.estimater_spec(),
                forall|k: int| 0 <= k < n ==> (#[trigger] self.noder_spec()[k]).id_spec() == old(self).noder_spec()[k].id_spec(),
                0 <= u < n,
                antall_kanter == g[u as int].len(),
                i <= antall_kanter,
                sok_tilstand(g, est, fra, kjoretider@, forlopere@, tid, t, ko@),
                ko.er_gyldig(),
                kj_start == old(kjoretider)@,
                kj_start.len() == n,
                kj_start[u as int] is Verdi,
                g == old(self).kanter_spec(),
                est == old(self).estimater_spec(),
                kjoretider@[u as int] == old(kjoretider)@[u as int],
                forall|j: int| 0 <= j < i ==> #[trigger] forslag_passer(kj_start, g[u as int][j], est),
                avslappet_utenfor(g, est, kjoretider@, ko@, u as int, i as int),
                !i_ko(ko@, kjoretider@, u as int),
                crate::dijkstra::antall_uendelige(kjoretider@) < a0
                    || (crate::dijkstra::antall_uendelige(kjoretider@) == a0 && crate::dijkstra::sum_endelige(kjoretider@) < b0)
                    || (crate::dijkstra::antall_uendelige(kjoretider@) == a0 && crate::dijkstra::sum_endelige(kjoretider@) == b0
                        && ko@.len() <= c0),
                utforsk_spec(g, est, u as int, i as int, kjoretider@, forlopere@, ko@)
                    == utforsk_spec(g, est, u as int, 0, kj_start, forl_start, ko_start),
            decreases antall_kanter - i,
        {
            let ghost kj_for = kjoretider@;
            let ghost forl_for = forlopere@;
            let ghost ko_for = ko@;
            let kant = self.noder[u].kanter[i];
            proof {
                assert(kant == g[u as int][i as int]);
            }
            let v = kant.til;
            let ny_kjoretid = match self.forslag_for(kant, kjoretider, estimater) {
                Ok(Some(x)) => x,
                Ok(None) => {
                    proof {
                        assert(!forslag_passer(kj_start, g[u as int][i as int], est));
                    }
                    return Ok(None);
                },
                Err(feil) => {
                    return Err(feil);
                },
            };
            assert(kant.fra == u);
            assert(kjoretider@[kant.fra as int] == kj_start[u as int]);
            assert(forslag_passer(kjoretider@, kant, est));
            assert(forslag_passer(kj_start, g[u as int][i as int], est));
            if ny_kjoretid < kjoretider[v] {
                let ghost kj0 = kjoretider@;
                let ghost forl0 = forlopere@;
                let ghost ko0 = ko@;
                let ghost tid0 = tid;
                let ghost t0 = t;
                proof {
                    assert(forslag_passer(kj0, g[u as int][i as int], est));
                    assert(tall(kj0[u as int]) + effektiv(g[u as int][i as int], est) <= usize::MAX);
                    assert(v != u);
                    lemma_ko_lengde(ko@, kjoretider@, n);
                    crate::dijkstra::lemma_oppdater_avstand(kj0, v as int, tall(ny_kjoretid) as usize);
                }
                kjoretider.set(v, ny_kjoretid);
                forlopere.set(v, Some(kant.fra));
                proof {
                    tid = tid.update(v as int, t);
                    t = t + 1;
                }
                let funnet = ko.finn_element(&Koelement { kjoretid: Avstand::Uendelig, node: v });
                proof {
                    match funnet {
                        Some(idx) => {
                            lemma_forste_med_node(ko0, v, idx as int, 0);
                        },
                        None => {
                            lemma_ingen_med_node(ko0, v, 0);
                        },
                    }
                }
                match funnet {
                    Some(idx) => {
                        if let Avstand::Verdi(x) = ny_kjoretid {
                            proof {
                                crate::minheap::lov_endre_vekt(ko0, idx as int, x);
                                crate::minheap::lemma_teller_indeks(ko0, ko0[idx as int]);
                                assert(ko0[idx as int] == element(kj0, v as int));
                                assert forall|y: Koelement| #[trigger] teller(crate::minheap::endre_spec(ko0, idx as int, x), y)
                                    + (if y == element(kj0, v as int) && i_ko(ko0, kj0, v as int) { 1nat } else { 0nat })
                                    == teller(ko0, y) + (if y == element(kjoretider@, v as int) { 1nat } else { 0nat }) by {
                                    crate::minheap::lemma_teller_update(ko0, idx as int, ko0[idx as int].med_vekt(x), y);
                                }
                            }
                            ko.endre_vekt(idx, x);
                        }
                    },
                    None => {
                        proof {
                            crate::minheap::lov_push(ko0, element(kjoretider@, v as int));
                            crate::minheap::lemma_teller_indeks(ko0, element(kj0, v as int));
                        }
                        ko.push(Koelement { kjoretid: ny_kjoretid, node: v });
                    },
                }
                proof {
                    lemma_oppdater_ko(n, kj0, kjoretider@, ko0, ko@, v as int);
                    lemma_oppdater_veier(g, est, fra, kj0, kjoretider@, u as int, i as int);
                    lemma_oppdater_forlopere(g, est, fra, kj0, kjoretider@, forl0, forlopere@, tid0, tid, t0,
                        u as int, i as int);
                    lemma_oppdater_avslappet(g, est, kj0, kjoretider@, ko0, ko@, u as int, i as int);
                    assert(utforsk_spec(g, est, u as int, i as int, kj_for, forl_for, ko_for)
                        == utforsk_spec(g, est, u as int, i + 1, kjoretider@, forlopere@, ko@));
                }
            } else {
                assert(utforsk_spec(g, est, u as int, i as int, kj_for, forl_for, ko_for)
                    == utforsk_spec(g, est, u as int, i + 1, kjoretider@, forlopere@, ko@));
            }
            i = i + 1;
        }
        proof {
            let kj = kjoretider@;
            assert forall|x: int, j: int| 0 <= x < g.len() && x != -1 && !i_ko(ko@, kj, x) && 0 <= j < g[x].len()
                implies avslappet(kj, #[trigger] g[x][j], est) by {
                if x != u {
                }
            }
        }
        Ok(Some(Ghost((tid, t))))
    }

    /// Søker etter raskeste vei fra `fra` til `til` som `finn_vei`, men gir
    /// `None` når søket underveis skulle følge en kant til en node som ikke
    /// finnes, eller legge sammen kjøretider som ikke får plass i en `usize`.
    #[verifier::rlimit(100)]
    pub fn finn_vei_sjekket(&mut self, fra: usize, til: usize, estimater: &Vec<usize>)
        -> (res: Option<Result<Vec<usize>, VeiFeil>>)
        requires
            old(self).er_gyldig(),
            fra < old(self).noder_spec().len(),
            til < old(self).noder_spec().len(),
            estimater@.len() == old(self).noder_spec().len(),
            old(self).noder_spec().len() < heap_grense(),
        ensures
            final(self).er_gyldig(),
            final(self).noder_spec().len() == old(self).noder_spec().len(),
            final(self).kanter_spec() == old(self).kanter_spec(),
            final(self).estimater_spec() == old(self).estimater_spec(),
            res is Some ==> res->Some_0 is Ok,
            res is Some <==> sok_uten_panikk(old(self).kanter_spec(), old(self).estimater_spec(), fra as int, til as int),
            res matches Some(Ok(vei)) ==> {
                let g = old(self).kanter_spec();
                let est = old(self).estimater_spec();
                &&& (exists|q: Seq<Kant>| #[trigger] er_vei(g, fra as int, til as int, q)) ==> exists|p: Seq<Kant>| {
                    &&& #[trigger] er_vei(g, fra as int, til as int, p)
                    &&& vei@ == noder_langs(fra as int, p)
                    &&& forall|q: Seq<Kant>| #[trigger] er_vei(g, fra as int, til as int, q) ==> vei_lengde(p, est) <= vei_lengde(q, est)
                }
                &&& !(exists|q: Seq<Kant>| #[trigger] er_vei(g, fra as int, til as int, q)) ==> vei@ == seq![til]
                &&& vei@ == finn_vei_spec(g, est, fra as int, til as int)
            },
    {
        let ghost g = self.kanter_spec();
        let ghost est = self.estimater_spec();
        let n = self.noder.len();
        let start_id = self.noder[fra].id;
        let mut kjoretider: Vec<Kjoretid> = Vec::new();
        let mut forlopere: Vec<Option<usize>> = Vec::new();
        let mut i: usize = 0;
        while i < n
            invariant
                i <= n,
                kjoretider@ == Seq::new(i as nat, |j: int| Avstand::Uendelig),
                forlopere@ == Seq::new(i as nat, |j: int| None::<usize>),
            decreases n - i,
        {
            kjoretider.push(Avstand::Uendelig);
            forlopere.push(None);
            i = i + 1;
        }
        kjoretider.set(fra, Avstand::Verdi(0));
        let mut ko: MinHeap<Koelement> = MinHeap::opprett();
        let ghost mut tid: Seq<nat> = Seq::new(n as nat, |j: int| 0nat);
        let ghost mut t: nat = 1;
        proof {
            crate::minheap::lov_push(ko@, Koelement { kjoretid: Avstand::Verdi(0), node: start_id });
        }
        ko.push(Koelement { kjoretid: Avstand::Verdi(0), node: start_id });
        let ghost mut steg: nat = 0;
        let ghost z0 = sok_start(n as nat, fra as int);
        proof {
            assert(start_id == fra);
            assert(kjoretider@ =~= Seq::new(n as nat, |j: int| Avstand::Uendelig).update(fra as int, Avstand::Verdi(0)));
            assert((kjoretider@, forlopere@, ko@, false) == sok_etter(g, est, til as int, sok_start(n as nat, fra as int), 0));
            crate::dijkstra::lemma_alle_uendelige(n as nat);
            crate::dijkstra::lemma_oppdater_avstand(Seq::new(n as nat, |j: int| Avstand::Uendelig), fra as int, 0);
            assert(er_vei(g, fra as int, fra as int, Seq::<Kant>::empty()));
            assert(sok_tilstand(g, est, fra as int, kjoretider@, forlopere@, tid, t, ko@));
            assert forall|x: int, j: int| 0 <= x < g.len() && x != -1 && !i_ko(ko@, kjoretider@, x) && 0 <= j < g[x].len()
                implies avslappet(kjoretider@, #[trigger] g[x][j], est) by {
                if x == fra {
                    assert(teller(ko@, element(kjoretider@, x)) > 0);
                }
            }
        }
        loop
            invariant_except_break
                avslappet_utenfor(g, est, kjoretider@, ko@, -1, 0),
                (kjoretider@, forlopere@, ko@, false) == sok_etter(g, est, til as int, sok_start(n as nat, fra as int), steg),
            invariant
                z0 == sok_start(n as nat, fra as int),
                g == old(self).kanter_spec(),
                est == old(self).estimater_spec(),
                n == old(self).noder_spec().len(),
                forall|s: nat| s < steg ==> steg_passer(g, est, til as int, #[trigger] sok_etter(g, est, til as int, z0, s)),
                self.er_gyldig(),
                self.noder_spec().len() == n,
                n < heap_grense(),
                estimater@.len() == n,
                g == self.kanter_spec(),
                est == self.estimater_spec(),
                n == g.len(),
                fra < n,
                til < n,
                sok_tilstand(g, est, fra as int, kjoretider@, forlopere@, tid, t, ko@),
                ko.er_gyldig(),
            ensures
                forall|q: Seq<Kant>| #[trigger] er_vei(g, fra as int, til as int, q) ==>
                    kjoretider@[til as int] is Verdi && tall(kjoretider@[til as int]) <= vei_lengde(q, est),
                sok_etter(g, est, til as int, sok_start(n as nat, fra as int), steg) == (kjoretider@, forlopere@, ko@, true),
            decreases crate::dijkstra::antall_uendelige(kjoretider@), crate::dijkstra::sum_endelige(kjoretider@), ko@.len(),
        {
            let ghost z = (kjoretider@, forlopere@, ko@, false);
            if ko.er_tom() {
                proof {
                    assert(steg_passer(g, est, til as int, sok_etter(g, est, til as int, z0, steg)));
                    steg = steg + 1;
                    lemma_optimal_tom_ko(g, est, fra as int, kjoretider@, ko@, til as int);
                }
                break;
            }
            let ghost s0 = ko@;
            let korteste = ko.pop().unwrap();
            let u = korteste.node;
            proof {
                lemma_pop_sok(g, est, fra as int, kjoretider@, forlopere@, tid, t, s0, ko@);
            }
            if self.noder[u].id == til {
                proof {
                    lemma_optimal_ved_pop(g, est, fra as int, kjoretider@, s0, til as int);
                    assert(sok_steg(g, est, til as int, z) == (kjoretider@, forlopere@, ko@, true));
                    assert(steg_passer(g, est, til as int, sok_etter(g, est, til as int, z0, steg)));
                    steg = steg + 1;
                }
                break;
            }
            proof {
                lemma_avslappet_etter_pop(g, est, kjoretider@, s0, ko@, u as int);
            }
            let ny = match self.utforsk(u, &mut kjoretider, &mut forlopere, &mut ko, estimater,
                Ghost(fra as int), Ghost(tid), Ghost(t)) {
                Ok(Some(ny)) => ny,
                Ok(None) => {
                    proof {
                        assert(!steg_passer(g, est, til as int, sok_etter(g, est, til as int, z0, steg)));
                    }
                    return None;
                },
                Err(feil) => {
                    return Some(Err(feil));
                },
            };
            proof {
                tid = ny@.0;
                t = ny@.1;
                assert(steg_passer(g, est, til as int, sok_etter(g, est, til as int, z0, steg)));
                assert(sok_steg(g, est, til as int, z) == (kjoretider@, forlopere@, ko@, false));
                steg = steg + 1;
            }
        }
        let vei = self.folg_forlopere(fra, til, &forlopere, Ghost(kjoretider@), Ghost(tid), Ghost(t), Ghost(ko@));
        proof {
            lemma_finn_vei_spec(g, est, fra as int, til as int, steg);
            assert forall|s: nat| steg_passer(g, est, til as int, #[trigger] sok_etter(g, est, til as int, z0, s)) by {
                if s >= steg {
                    lemma_sok_fast(g, est, til as int, z0, steg, s);
                }
            }
        }
        Some(Ok(vei))
    }

    /// Søker etter raskeste vei fra `fra` til `til`. Estimatet for en node som
    /// ikke har et, regnes ut fra tallet i `estimater` for noden og lagres i
    /// noden. Gir nodene på en raskeste vei fra `fra` til `til`, eller bare
    /// `til` når ingen vei fører dit. Søket følger ingen kant til en node som
    /// ikke finnes, og ingen sum det regner ut går over.
    pub fn finn_vei(&mut self, fra: usize, til: usize, estimater: &Vec<usize>) -> (res: Result<Vec<usize>, VeiFeil>)
        requires
            old(self).er_gyldig(),
            fra < old(self).noder_spec().len(),
            til < old(self).noder_spec().len(),
            estimater@.len() == old(self).noder_spec().len(),
            old(self).noder_spec().len() < heap_grense(),
            sok_uten_panikk(old(self).kanter_spec(), old(self).estimater_spec(), fra as int, til as int),
        ensures
            final(self).er_gyldig(),
            final(self).noder_spec().len() == old(self).noder_spec().len(),
            final(self).kanter_spec() == old(self).kanter_spec(),
            final(self).estimater_spec() == old(self).estimater_spec(),
            res is Ok,
            res matches Ok(vei) ==> {
                let g = old(self).kanter_spec();
                let est = old(self).estimater_spec();
                &&& (exists|q: Seq<Kant>| #[trigger] er_vei(g, fra as int, til as int, q)) ==> exists|p: Seq<Kant>| {
                    &&& #[trigger] er_vei(g, fra as int, til as int, p)
                    &&& vei@ == noder_langs(fra as int, p)
                    &&& forall|q: Seq<Kant>| #[trigger] er_vei(g, fra as int, til as int, q) ==> vei_lengde(p, est) <= vei_lengde(q, est)
                }
                &&& !(exists|q: Seq<Kant>| #[trigger] er_vei(g, fra as int, til as int, q)) ==> vei@ == seq![til]
                &&& vei@ == finn_vei_spec(g, est, fra as int, til as int)
            },
    {
        match self.finn_vei_sjekket(fra, til, estimater) {
            Some(res) => res,
            None => {
                proof {
                    assert(false);
                }
                Ok(Vec::new())
            },
        }
    }

    /// Følger forløperne bakover fra `til` og gir nodene i rekkefølge fra
    /// starten av kjeden.
    fn folg_forlopere(
        &self,
        fra: usize,
        til: usize,
        forlopere: &Vec<Option<usize>>,
        Ghost(kj): Ghost<Seq<Avstand>>,
        Ghost(tid): Ghost<Seq<nat>>,
        Ghost(t): Ghost<nat>,
        Ghost(ko): Ghost<Seq<Koelement>>,
    ) -> (vei: Vec<usize>)
        requires
            sok_tilstand(self.kanter_spec(), self.estimater_spec(), fra as int, kj, forlopere@, tid, t, ko),
            til < self.kanter_spec().len(),
            forall|q: Seq<Kant>| #[trigger] er_vei(self.kanter_spec(), fra as int, til as int, q) ==>
                kj[til as int] is Verdi && tall(kj[til as int]) <= vei_lengde(q, self.estimater_spec()),
        ensures
            ({
                let g = self.kanter_spec();
                let est = self.estimater_spec();
                &&& (exists|q: Seq<Kant>| #[trigger] er_vei(g, fra as int, til as int, q)) ==> exists|p: Seq<Kant>| {
                    &&& #[trigger] er_vei(g, fra as int, til as int, p)
                    &&& vei@ == noder_langs(fra as int, p)
                    &&& forall|q: Seq<Kant>| #[trigger] er_vei(g, fra as int, til as int, q) ==> vei_lengde(p, est) <= vei_lengde(q, est)
                }
                &&& !(exists|q: Seq<Kant>| #[trigger] er_vei(g, fra as int, til as int, q)) ==> vei@ == seq![til]
            }),
            vei@ == vei_langs_forlopere(forlopere@, til as int),
    {
        let ghost g = self.kanter_spec();
        let ghost est = self.estimater_spec();
        let ghost n = g.len() as int;
        let mut forrige: Option<usize> = Some(til);
        let mut baklengs: Vec<usize> = Vec::new();
        let ghost mut p: Seq<Kant> = Seq::empty();
        let ghost mut c: int = til as int;
        let ghost mut siste: int = til as int;
        proof {
            assert forall|r: nat| #[trigger] baklengs_fra(forlopere@, c, r)
                == fortsett(baklengs@, baklengs_fra(forlopere@, c, r)) by {
                if baklengs_fra(forlopere@, c, r) is Some {
                    assert(baklengs@ + baklengs_fra(forlopere@, c, r)->Some_0 =~= baklengs_fra(forlopere@, c, r)->Some_0);
                }
            }
        }
        while forrige.is_some()
            invariant
                forrige is Some ==> forall|r: nat| baklengs_fra(forlopere@, til as int, (baklengs@.len() + r) as nat)
                    == fortsett(baklengs@, #[trigger] baklengs_fra(forlopere@, c, r)),
                forrige is None ==> baklengs_fra(forlopere@, til as int, baklengs@.len() as nat) == Some(baklengs@),
                sok_tilstand(g, est, fra as int, kj, forlopere@, tid, t, ko),
                n == g.len(),
                0 <= til < n,
                forrige is Some ==> forrige->Some_0 == c,
                0 <= c < n,
                er_vei(g, c, til as int, p),
                forrige is Some ==> baklengs@ == noder_langs(c, p).drop_first().reverse(),
                forrige is None ==> baklengs@ == noder_langs(c, p).reverse(),
                forrige is None ==> forlopere@[c] is None,
                kj[til as int] is Verdi ==> kj[c] is Verdi && tall(kj[c]) + vei_lengde(p, est) <= tall(kj[til as int]),
                kj[til as int] is Verdi || (c == til && p.len() == 0),
            decreases (if forrige is Some { tall(kj[c]) + 1 } else { 0 }), (if forrige is Some { tid[c] as int } else { 0 }),
        {
            let ghost b0 = baklengs@;
            let ghost c0 = c;
            let v = forrige.unwrap();
            baklengs.push(v);
            forrige = forlopere[v];
            proof {
                if forrige is Some {
                    let u = forrige->Some_0 as int;
                    assert forall|r: nat| baklengs_fra(forlopere@, til as int, (baklengs@.len() + r) as nat)
                        == fortsett(baklengs@, #[trigger] baklengs_fra(forlopere@, u, r)) by {
                        assert(baklengs_fra(forlopere@, til as int, (b0.len() + (r + 1)) as nat)
                            == fortsett(b0, baklengs_fra(forlopere@, c0, (r + 1) as nat)));
                        assert(baklengs_fra(forlopere@, c0, (r + 1) as nat)
                            == fortsett(seq![c0 as usize], baklengs_fra(forlopere@, u, r)));
                        assert((b0.len() + (r + 1)) as nat == (baklengs@.len() + r) as nat);
                        if baklengs_fra(forlopere@, u, r) is Some {
                            let sq = baklengs_fra(forlopere@, u, r)->Some_0;
                            assert(b0 + (seq![c0 as usize] + sq) =~= baklengs@ + sq);
                        }
                    }
                } else {
                    assert(baklengs_fra(forlopere@, til as int, (b0.len() + 1) as nat)
                        == fortsett(b0, baklengs_fra(forlopere@, c0, 1)));
                    assert(baklengs_fra(forlopere@, c0, 1) == Some(seq![c0 as usize]));
                    assert(b0 + seq![c0 as usize] =~= baklengs@);
                }
            }
            proof {
                assert(baklengs@ =~= noder_langs(c, p).reverse()) by {
                    let a = noder_langs(c, p).drop_first().reverse();
                    assert(noder_langs(c, p)[0] == c);
                    assert forall|i: int| 0 <= i < baklengs@.len() implies baklengs@[i] == noder_langs(c, p).reverse()[i] by {
                        if i < a.len() {
                            assert(noder_langs(c, p).drop_first()[a.len() - 1 - i] == noder_langs(c, p)[a.len() - i]);
                        }
                    }
                }
                if forrige is Some {
                    let u = forrige->Some_0 as int;
                    assert(forloper_ok(g, est, kj, tid, c, u));
                    let j = choose|j: int| 0 <= j < g[u].len() && (#[trigger] g[u][j]).til == c && forslag_passer(kj, g[u][j], est) && {
                        ||| kortere(forslag(kj, g[u][j], est), kj[c])
                        ||| (forslag(kj, g[u][j], est) == kj[c] && tid[u] < tid[c])
                    };
                    let e = g[u][j];
                    assert(e.fra == u);
                    lemma_vei_foran(g, est, e, u, j, c, til as int, p);
                    let p2 = seq![e] + p;
                    assert(noder_langs(u, p2).drop_first() =~= noder_langs(c, p)) by {
                        assert forall|i: int| 0 <= i < noder_langs(c, p).len() implies
                            noder_langs(u, p2).drop_first()[i] == noder_langs(c, p)[i] by {
                            if i > 0 {
                                assert(p2[i] == p[i - 1]);
                            }
                        }
                    }
                    p = p2;
                    c = u;
                }
            }
        }
        let vei = crate::grafkomponenter::snudd(&baklengs);
        proof {
            lemma_vei_langs_forlopere(forlopere@, til as int, baklengs@.len() as nat);
            assert(vei@ =~= noder_langs(c, p)) by {
                assert(noder_langs(c, p).reverse().reverse() =~= noder_langs(c, p));
            }
            if kj[til as int] is Verdi {
                assert(c == fra);
                assert forall|q: Seq<Kant>| #[trigger] er_vei(g, fra as int, til as int, q) implies
                    vei_lengde(p, est) <= vei_lengde(q, est) by {
                }
                assert(er_vei(g, fra as int, til as int, p));
            } else {
                assert(!(exists|q: Seq<Kant>| #[trigger] er_vei(g, fra as int, til as int, q)));
                assert(vei@ =~= seq![til]);
            }
        }
        vei
    }

    /// Legger til kantene fra en fil: første linje har antall kanter, og
    /// hver linje etter har fra, til og kjøretid.
    pub fn legg_til_kanter(&mut self, forste: &str, linjer: &Vec<Option<String>>) -> (res: Result<(), KantFilFeil>)
        ensures
            final(self).noder_spec().len() == old(self).noder_spec().len(),
            forall|i: int| 0 <= i < old(self).noder_spec().len() ==> (#[trigger] final(self).noder_spec()[i]).id_spec()
                == old(self).noder_spec()[i].id_spec(),
            final(self).estimater_spec() == old(self).estimater_spec(),
            match kanter_fra_linjer(forste@, linjer_av(linjer@), old(self).noder_spec().len()) {
                Ok(k) => res is Ok && final(self).kanter_spec() == med_kanter(old(self).kanter_spec(), k),
                Err(e) => res == Err::<(), KantFilFeil>(e),
            },
    {
        let ghost ls = linjer_av(linjer@);
        let ghost g0 = self.kanter_spec();
        let ghost n = self.noder_spec().len();
        let ghost noder0 = self.noder_spec();
        let forventet_antall_kanter = match les_tall_linje(forste, 1) {
            Ok(v) => v[0],
            Err((_, mangler)) => {
                if mangler {
                    return Err(KantFilFeil::ManglerTallForst);
                } else {
                    return Err(KantFilFeil::AntallKanter);
                }
            },
        };
        let mut lest_antall_kanter: usize = 0;
        let ghost mut kanter: Seq<Kant> = Seq::empty();
        let mut i: usize = 0;
        while i < linjer.len()
            invariant
                ls == linjer_av(linjer@),
                les_antall_kanter(forste@) == Ok::<usize, KantFilFeil>(forventet_antall_kanter),
                i <= linjer@.len(),
                n == old(self).noder_spec().len(),
                noder0 == old(self).noder_spec(),
                g0 == old(self).kanter_spec(),
                self.noder_spec().len() == n,
                forall|k: int| 0 <= k < n ==> (#[trigger] self.noder_spec()[k]).id_spec() == noder0[k].id_spec(),
                self.estimater_spec() == estimater_av(noder0),
                les_kantlinjer(ls, n, i as int, kanter) == les_kantlinjer(ls, n, 0, Seq::empty()),
                self.kanter_spec() == med_kanter(g0, kanter),
                lest_antall_kanter == kanter.len(),
                lest_antall_kanter <= i,
            decreases linjer@.len() - i,
        {
            match &linjer[i] {
                Some(linje) => {
                    assert(ls[i as int] == Some(linje@));
                    match les_tall_linje(linje.as_str(), 3) {
                        Ok(v) => {
                            let fra = v[0];
                            if fra >= self.noder.len() {
                                return Err(KantFilFeil::UkjentNode { fra, linjenummer: i });
                            }
                            let kant = Kant::opprett(fra, v[1], v[2]);
                            let ghost for_push = self.noder_spec();
                            self.push_kant(kant);
                            proof {
                                let nye = kanter.push(kant);
                                assert(nye.drop_last() =~= kanter);
                                kanter = nye;
                                assert(self.estimater_spec() =~= estimater_av(noder0)) by {
                                    assert forall|k: int| 0 <= k < n implies #[trigger] self.estimater_spec()[k] == estimater_av(noder0)[k] by {
                                        assert(self.noder_spec()[k].estimat_spec() == for_push[k].estimat_spec());
                                    }
                                }
                            }
                            lest_antall_kanter += 1;
                        },
                        Err((j, mangler)) => {
                            if mangler {
                                return Err(KantFilFeil::ManglerTall { linjenummer: i });
                            } else if j < 2 {
                                return Err(KantFilFeil::NodeId { linjenummer: i });
                            } else {
                                return Err(KantFilFeil::Kjoretid { linjenummer: i });
                            }
                        },
                    }
                },
                None => {
                    assert(ls[i as int] is None);
                },
            }
            i = i + 1;
        }
        assert(les_kantlinjer(ls, n, i as int, kanter) == Ok::<Seq<Kant>, KantFilFeil>(kanter));
        if lest_antall_kanter != forventet_antall_kanter {
            return Err(KantFilFeil::AntallKanterStemmerIkke { forventet: forventet_antall_kanter, lest: lest_antall_kanter });
        }
        Ok(())
    }

    /// Om nettet er gyldig for søk: nodene har id lik plassen sin, kantene
    /// står ved noden de går fra og har kjøretid, og estimatene er tall.
    pub fn sjekk_gyldig(&self) -> (res: bool)
        ensures
            res == self.er_gyldig(),
    {
        let n = self.noder.len();
        let ghost g = self.kanter_spec();
        let ghost est = self.estimater_spec();
        let mut i: usize = 0;
        while i < n
            invariant
                n == self.noder_spec().len(),
                g == self.kanter_spec(),
                est == self.estimater_spec(),
                i <= n,
                forall|k: int| 0 <= k < i ==> (#[trigger] self.noder_spec()[k]).id_spec() == k,
                forall|k: int| 0 <= k < i ==> (#[trigger] est[k]) is Verdi,
                forall|k: int, j: int| 0 <= k < i && 0 <= j < g[k].len() ==> {
                    &&& (#[trigger] g[k][j]).fra == k
                    &&& g[k][j].kjoretid is Verdi
                },
            decreases n - i,
        {
            let node = &self.noder[i];
            if node.id != i {
                return false;
            }
            assert(est[i as int] == estimat_av(self.noder_spec()[i as int].estimat_spec()));
            match node.estimat {
                Some(Avstand::Uendelig) => {
                    return false;
                },
                _ => {},
            }
            let antall = node.kanter.len();
            let mut j: usize = 0;
            while j < antall
                invariant
                    n == self.noder_spec().len(),
                    g == self.kanter_spec(),
                    i < n,
                    antall == g[i as int].len(),
                    j <= antall,
                    forall|b: int| 0 <= b < j ==> {
                        &&& (#[trigger] g[i as int][b]).fra == i
                        &&& g[i as int][b].kjoretid is Verdi
                    },
                decreases antall - j,
            {
                let kant = self.noder[i].kanter[j];
                assert(kant == g[i as int][j as int]);
                if kant.fra != i {
                    return false;
                }
                match kant.kjoretid {
                    Avstand::Uendelig => {
                        return false;
                    },
                    _ => {},
                }
                j = j + 1;
            }
            i = i + 1;
        }
        true
    }
}

} // verus!
