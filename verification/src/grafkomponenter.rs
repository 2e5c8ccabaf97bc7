//! Rettede grafer som naboliser, dybde-først-traversering og sterkt
//! koblede komponenter (Kosarajus algoritme).
use vstd::prelude::*;
use vstd::pervasive::VecAdditionalExecFns;
use crate::tekst::{TallPaLinje, les_tall, ord, les_tall_linje};
use crate::kosaraju::{
    dfs_tilstand, gjensidig, gra, kjede, kosaraju_orden, lukket, naar_framover, rundt_roten, lemma_avslutt,
    lemma_dfs_steg, lemma_gjensidig_trans, lemma_gra_uendret, lemma_kosaraju_orden, lemma_ny_komponent,
    lemma_oppdag,
};

verus! {

/// Holder styr på hvilke noder en dybde-først-traversering har besøkt.
pub struct DfsStatus {
    besokt: Vec<bool>,
}

impl View for DfsStatus {
    type V = Seq<bool>;

    closed spec fn view(&self) -> Seq<bool> {
        self.besokt@
    }
}

impl DfsStatus {
    /// Ingen av de `kapasitet` nodene er besøkt.
    pub fn opprett(kapasitet: usize) -> (res: Self)
        ensures
            res@ == Seq::new(kapasitet as nat, |i: int| false),
    {
        let mut besokt: Vec<bool> = Vec::new();
        let mut i: usize = 0;
        while i < kapasitet
            invariant
                i <= kapasitet,
                besokt@ == Seq::new(i as nat, |k: int| false),
            decreases kapasitet - i,
        {
            besokt.push(false);
            i = i + 1;
        }
        Self { besokt }
    }

    /// Markerer en node som besøkt.
    pub fn besok(&mut self, node: usize)
        requires
            node < old(self)@.len(),
        ensures
            final(self)@ == old(self)@.update(node as int, true),
    {
        self.besokt.set(node, true);
    }

    /// Om noden er besøkt.
    pub fn har_besokt(&self, node: usize) -> (res: bool)
        requires
            node < self@.len(),
        ensures
            res == self@[node as int],
    {
        self.besokt[node]
    }
}

/// Alle kanter går til noder som finnes.
pub open spec fn gyldig_graf(g: Seq<Seq<usize>>) -> bool {
    forall|a: int, k: int| 0 <= a < g.len() && 0 <= k < g[a].len() ==> #[trigger] g[a][k] < g.len()
}

/// Lista har verdien `a`.
pub open spec fn har(s: Seq<usize>, a: int) -> bool {
    exists|k: int| 0 <= k < s.len() && #[trigger] s[k] == a
}

/// Det går en kant fra `a` til `b`.
pub open spec fn kant(g: Seq<Seq<usize>>, a: int, b: int) -> bool {
    0 <= a < g.len() && har(g[a], b)
}

/// Legger til kantene fra hver node i `fra` til `til`, i rekkefølge.
pub open spec fn legg_til_inn(inv: Seq<Seq<usize>>, til: usize, fra: Seq<usize>) -> Seq<Seq<usize>>
    decreases fra.len(),
{
    if fra.len() == 0 {
        inv
    } else {
        let forrige = legg_til_inn(inv, til, fra.drop_last());
        forrige.update(fra.last() as int, forrige[fra.last() as int].push(til))
    }
}

/// Den inverterte grafen bygd av kantene ut av de første `k` nodene.
pub open spec fn invertert_til(g: Seq<Seq<usize>>, k: int) -> Seq<Seq<usize>>
    decreases k,
{
    if k <= 0 {
        Seq::new(g.len(), |i: int| Seq::<usize>::empty())
    } else {
        legg_til_inn(invertert_til(g, k - 1), (k - 1) as usize, g[k - 1])
    }
}

/// Grafen med alle kanter snudd: naboene til hver node står i rekkefølgen
/// kantene inn til den ble funnet ved å gå gjennom nodene og naboene deres.
pub open spec fn invertert_spec(g: Seq<Seq<usize>>) -> Seq<Seq<usize>> {
    invertert_til(g, g.len() as int)
}

/// Kantene i den inverterte grafen: å legge til kantene fra `fra` gir
/// nøyaktig de nye kantene derfra til `til`.
pub proof fn lemma_legg_til_inn(inv: Seq<Seq<usize>>, til: usize, fra: Seq<usize>, a: int, b: int)
    requires
        forall|i: int| 0 <= i < fra.len() ==> #[trigger] fra[i] < inv.len(),
    ensures
        legg_til_inn(inv, til, fra).len() == inv.len(),
        kant(legg_til_inn(inv, til, fra), a, b) <==> (kant(inv, a, b) || (b == til && har(fra, a))),
    decreases fra.len(),
{
    if fra.len() > 0 {
        let forrige = legg_til_inn(inv, til, fra.drop_last());
        lemma_legg_til_inn(inv, til, fra.drop_last(), a, b);
        let x = fra.last() as int;
        let ny = forrige.update(x, forrige[x].push(til));
        if a == x {
            assert(fra[fra.len() - 1] == a);
            if kant(ny, a, b) {
                let k = choose|k: int| 0 <= k < ny[a].len() && #[trigger] ny[a][k] == b;
                if k < forrige[a].len() {
                    assert(forrige[a][k] == b);
                }
            }
            if kant(forrige, a, b) {
                let k = choose|k: int| 0 <= k < forrige[a].len() && #[trigger] forrige[a][k] == b;
                assert(ny[a][k] == b);
            }
            if b == til {
                assert(ny[a][forrige[a].len() as int] == b);
            }
        } else {
            if kant(ny, a, b) {
                let k = choose|k: int| 0 <= k < ny[a].len() && #[trigger] ny[a][k] == b;
                assert(forrige[a][k] == b);
            }
            if kant(forrige, a, b) {
                let k = choose|k: int| 0 <= k < forrige[a].len() && #[trigger] forrige[a][k] == b;
                assert(ny[a][k] == b);
            }
            if har(fra, a) {
                let i = choose|i: int| 0 <= i < fra.len() && #[trigger] fra[i] == a;
                assert(fra.drop_last()[i] == a);
            }
        }
        if har(fra.drop_last(), a) {
            let i = choose|i: int| 0 <= i < fra.drop_last().len() && #[trigger] fra.drop_last()[i] == a;
            assert(fra[i] == a);
        }
    }
}

/// Kantene i grafen bygd av de første `k` nodene.
pub proof fn lemma_invertert_til(g: Seq<Seq<usize>>, k: int, a: int, b: int)
    requires
        gyldig_graf(g),
        g.len() <= usize::MAX,
        0 <= k <= g.len(),
    ensures
        invertert_til(g, k).len() == g.len(),
        kant(invertert_til(g, k), a, b) <==> (0 <= b < k && kant(g, b, a)),
    decreases k,
{
    if k > 0 {
        lemma_invertert_til(g, k - 1, a, b);
        lemma_invertert_til_lengde(g, k - 1);
        assert forall|i: int| 0 <= i < g[k - 1].len() implies #[trigger] g[k - 1][i] < invertert_til(g, k - 1).len() by {
        }
        lemma_legg_til_inn(invertert_til(g, k - 1), (k - 1) as usize, g[k - 1], a, b);
        if kant(g, b, a) {
            let i = choose|i: int| 0 <= i < g[b].len() && #[trigger] g[b][i] == a;
            assert(0 <= a < g.len());
        }
        if kant(invertert_til(g, k), a, b) {
            let i = choose|i: int| 0 <= i < invertert_til(g, k)[a].len() && #[trigger] invertert_til(g, k)[a][i] == b;
        }
    } else {
        lemma_invertert_til_lengde(g, k);
        if kant(invertert_til(g, k), a, b) {
            let i = choose|i: int| 0 <= i < invertert_til(g, k)[a].len() && #[trigger] invertert_til(g, k)[a][i] == b;
        }
    }
}

/// Den inverterte grafen har like mange noder.
pub proof fn lemma_invertert_til_lengde(g: Seq<Seq<usize>>, k: int)
    requires
        gyldig_graf(g),
        g.len() <= usize::MAX,
        0 <= k <= g.len(),
    ensures
        invertert_til(g, k).len() == g.len(),
    decreases k,
{
    if k > 0 {
        lemma_invertert_til_lengde(g, k - 1);
        assert forall|i: int| 0 <= i < g[k - 1].len() implies #[trigger] g[k - 1][i] < invertert_til(g, k - 1).len() by {
        }
        lemma_legg_til_inn(invertert_til(g, k - 1), (k - 1) as usize, g[k - 1], 0, 0);
    }
}

/// Den inverterte grafen har en kant fra `a` til `b` nøyaktig når grafen
/// har en kant fra `b` til `a`.
pub proof fn lov_invertert_kant(g: Seq<Seq<usize>>, a: int, b: int)
    requires
        gyldig_graf(g),
        g.len() <= usize::MAX,
    ensures
        invertert_spec(g).len() == g.len(),
        kant(invertert_spec(g), a, b) <==> kant(g, b, a),
{
    lemma_invertert_til(g, g.len() as int, a, b);
    if kant(g, b, a) {
        let i = choose|i: int| 0 <= i < g[b].len() && #[trigger] g[b][i] == a;
    }
}

/// Hvor mange ganger `x` står i lista.
pub open spec fn ganger(s: Seq<usize>, x: int) -> nat
    decreases s.len(),
{
    if s.len() == 0 {
        0
    } else {
        ganger(s.drop_last(), x) + if s.last() == x { 1nat } else { 0nat }
    }
}

/// Å legge til kantene fra `fra` gir `til` like mange ganger til hver node
/// som noden står i `fra`.
pub proof fn lemma_legg_til_inn_ganger(inv: Seq<Seq<usize>>, til: usize, fra: Seq<usize>, a: int, b: int)
    requires
        forall|i: int| 0 <= i < fra.len() ==> #[trigger] fra[i] < inv.len(),
        0 <= a < inv.len(),
    ensures
        legg_til_inn(inv, til, fra).len() == inv.len(),
        ganger(legg_til_inn(inv, til, fra)[a], b) == ganger(inv[a], b) + if b == til { ganger(fra, a) } else { 0 },
    decreases fra.len(),
{
    if fra.len() > 0 {
        let forrige = legg_til_inn(inv, til, fra.drop_last());
        lemma_legg_til_inn_ganger(inv, til, fra.drop_last(), a, b);
        let x = fra.last() as int;
        if a == x {
            assert(forrige[x].push(til).drop_last() =~= forrige[x]);
        }
    }
}

/// Den inverterte grafen bygd av de første `k` nodene har kanten fra `a`
/// til `b` like mange ganger som grafen har kanten fra `b` til `a`, når
/// `b` er blant dem.
pub proof fn lemma_invertert_til_ganger(g: Seq<Seq<usize>>, k: int, a: int, b: int)
    requires
        gyldig_graf(g),
        g.len() <= usize::MAX,
        0 <= k <= g.len(),
        0 <= a < g.len(),
    ensures
        ganger(invertert_til(g, k)[a], b) == if 0 <= b < k { ganger(g[b], a) } else { 0 },
    decreases k,
{
    if k > 0 {
        lemma_invertert_til_ganger(g, k - 1, a, b);
        lemma_invertert_til_lengde(g, k - 1);
        assert forall|i: int| 0 <= i < g[k - 1].len() implies #[trigger] g[k - 1][i] < invertert_til(g, k - 1).len() by {
        }
        lemma_legg_til_inn_ganger(invertert_til(g, k - 1), (k - 1) as usize, g[k - 1], a, b);
    }
}

/// Den inverterte grafen har kanten fra `a` til `b` like mange ganger som
/// grafen har kanten fra `b` til `a`.
pub proof fn lov_invertert_ganger(g: Seq<Seq<usize>>, a: int, b: int)
    requires
        gyldig_graf(g),
        g.len() <= usize::MAX,
        0 <= a < g.len(),
        0 <= b < g.len(),
    ensures
        ganger(invertert_spec(g)[a], b) == ganger(g[b], a),
{
    lemma_invertert_til_ganger(g, g.len() as int, a, b);
}

/// Antall noder som ikke er besøkt.
pub open spec fn antall_ubesokt(s: Seq<bool>) -> nat
    decreases s.len(),
{
    if s.len() == 0 {
        0
    } else {
        antall_ubesokt(s.drop_last()) + if s.last() { 0nat } else { 1nat }
    }
}

/// Alt som var besøkt i `s`, er besøkt i `t`.
pub open spec fn utvidet(s: Seq<bool>, t: Seq<bool>) -> bool {
    &&& s.len() == t.len()
    &&& forall|i: int| 0 <= i < s.len() && #[trigger] s[i] ==> t[i]
}

/// Å utvide to ganger er å utvide.
pub proof fn lemma_utvidet_trans(s: Seq<bool>, t: Seq<bool>, u: Seq<bool>)
    requires
        utvidet(s, t),
        utvidet(t, u),
    ensures
        utvidet(s, u),
{
    assert forall|i: int| 0 <= i < s.len() && #[trigger] s[i] implies u[i] by {
        assert(t[i]);
    }
}

/// Besøker en flere noder, blir færre ubesøkt.
pub proof fn lemma_faerre_ubesokt(s: Seq<bool>, t: Seq<bool>, j: int)
    requires
        utvidet(s, t),
        0 <= j < s.len(),
        !s[j],
        t[j],
    ensures
        antall_ubesokt(t) < antall_ubesokt(s),
    decreases s.len(),
{
    lemma_ikke_flere_ubesokt(s.drop_last(), t.drop_last());
    if j < s.len() - 1 {
        lemma_faerre_ubesokt(s.drop_last(), t.drop_last(), j);
    }
}

/// Besøker en flere noder, blir ikke flere ubesøkt.
pub proof fn lemma_ikke_flere_ubesokt(s: Seq<bool>, t: Seq<bool>)
    requires
        utvidet(s, t),
    ensures
        antall_ubesokt(t) <= antall_ubesokt(s),
    decreases s.len(),
{
    if s.len() > 0 {
        lemma_ikke_flere_ubesokt(s.drop_last(), t.drop_last());
    }
}

/// En ubesøkt node gjør at minst én er ubesøkt.
pub proof fn lemma_ubesokt_positiv(s: Seq<bool>, v: int)
    requires
        0 <= v < s.len(),
        !s[v],
    ensures
        antall_ubesokt(s) >= 1,
    decreases s.len(),
{
    if v < s.len() - 1 {
        lemma_ubesokt_positiv(s.drop_last(), v);
    }
}

/// Dybde-først-søk fra `node`, fra nabo nummer `k`: hver nabo som ikke er
/// besøkt, blir besøkt, søkt fra, og lagt til i `r` etter det søket fra den
/// la til. Gir de besøkte nodene og `r` etterpå. `fuel` begrenser dybden, og
/// rekker når det er minst like stort som antall ubesøkte noder.
pub open spec fn dfs_fra(g: Seq<Seq<usize>>, node: int, k: int, s: Seq<bool>, r: Seq<usize>, fuel: nat) -> (Seq<bool>, Seq<usize>)
    decreases fuel, g[node].len() - k,
{
    if fuel == 0 || k < 0 || k >= g[node].len() {
        (s, r)
    } else {
        let nabo = g[node][k] as int;
        if s[nabo] {
            dfs_fra(g, node, k + 1, s, r, fuel)
        } else {
            let (s2, r2) = dfs_fra(g, nabo, 0, s.update(nabo, true), r, (fuel - 1) as nat);
            dfs_fra(g, node, k + 1, s2, r2.push(nabo as usize), fuel)
        }
    }
}

/// Dybde-først-søk fra hver node fra og med `v` som ikke er besøkt ennå, i
/// rekkefølge: noden besøkes, det søkes fra den, og den legges til etter det
/// søket la til. Gir nodene i den rekkefølgen de ble ferdige.
pub open spec fn dfs_alle(g: Seq<Seq<usize>>, v: int, s: Seq<bool>, r: Seq<usize>) -> Seq<usize>
    decreases g.len() - v,
{
    if v < 0 || v >= g.len() {
        r
    } else if s[v] {
        dfs_alle(g, v + 1, s, r)
    } else {
        let s1 = s.update(v, true);
        let (s2, r2) = dfs_fra(g, v, 0, s1, r, antall_ubesokt(s1));
        dfs_alle(g, v + 1, s2, r2.push(v as usize))
    }
}

/// Rekkefølgen et dybde-først-søk av hele grafen gir: nodene baklengs i den
/// rekkefølgen de ble ferdige.
pub open spec fn dfs_rekkefolge(g: Seq<Seq<usize>>) -> Seq<usize> {
    dfs_alle(g, 0, Seq::new(g.len(), |i: int| false), Seq::empty()).reverse()
}

/// Komponentene fra plass `i` i rekkefølgen `o` og utover, etter `ks`: hver
/// node som ikke er besøkt ennå, blir roten i en ny komponent med nodene et
/// søk fra den i den inverterte grafen `inv` finner, baklengs, så roten står
/// sist.
pub open spec fn komponenter_fra(inv: Seq<Seq<usize>>, o: Seq<usize>, i: int, s: Seq<bool>, ks: Seq<Seq<usize>>) -> Seq<Seq<usize>>
    decreases o.len() - i,
{
    if i < 0 || i >= o.len() {
        ks
    } else {
        let v = o[i] as int;
        if s[v] {
            komponenter_fra(inv, o, i + 1, s, ks)
        } else {
            let s1 = s.update(v, true);
            let (s2, c) = dfs_fra(inv, v, 0, s1, seq![o[i]], antall_ubesokt(s1));
            komponenter_fra(inv, o, i + 1, s2, ks.push(c.reverse()))
        }
    }
}

/// Komponentene Kosarajus algoritme gir: nodene tas i rekkefølgen et
/// dybde-først-søk av grafen gir, og komponentene finnes med søk i den
/// inverterte grafen.
pub open spec fn komponenter_spec(g: Seq<Seq<usize>>) -> Seq<Seq<usize>> {
    komponenter_fra(invertert_spec(g), dfs_rekkefolge(g), 0, Seq::new(g.len(), |i: int| false), Seq::empty())
}

/// Søket besøker bare flere noder.
pub proof fn lemma_dfs_fra_utvider(g: Seq<Seq<usize>>, node: int, k: int, s: Seq<bool>, r: Seq<usize>, fuel: nat)
    requires
        gyldig_graf(g),
        0 <= node < g.len(),
        s.len() == g.len(),
    ensures
        utvidet(s, dfs_fra(g, node, k, s, r, fuel).0),
    decreases fuel, g[node].len() - k,
{
    if !(fuel == 0 || k < 0 || k >= g[node].len()) {
        let nabo = g[node][k] as int;
        assert(0 <= nabo < g.len());
        if s[nabo] {
            lemma_dfs_fra_utvider(g, node, k + 1, s, r, fuel);
        } else {
            let s1 = s.update(nabo, true);
            let (s2, r2) = dfs_fra(g, nabo, 0, s1, r, (fuel - 1) as nat);
            lemma_dfs_fra_utvider(g, nabo, 0, s1, r, (fuel - 1) as nat);
            lemma_dfs_fra_utvider(g, node, k + 1, s2, r2.push(nabo as usize), fuel);
            assert(utvidet(s, s1));
            lemma_utvidet_trans(s, s1, s2);
            lemma_utvidet_trans(s, s2, dfs_fra(g, node, k, s, r, fuel).0);
        }
    } else {
        assert(utvidet(s, s));
    }
}

/// Når alle noder er besøkt, endrer søket ingenting.
proof fn lemma_dfs_fra_alle_besokt(g: Seq<Seq<usize>>, node: int, k: int, s: Seq<bool>, r: Seq<usize>, fuel: nat)
    requires
        gyldig_graf(g),
        0 <= node < g.len(),
        s.len() == g.len(),
        forall|v: int| 0 <= v < s.len() ==> #[trigger] s[v],
    ensures
        dfs_fra(g, node, k, s, r, fuel) == (s, r),
    decreases g[node].len() - k,
{
    if !(fuel == 0 || k < 0 || k >= g[node].len()) {
        assert(g[node][k] < g.len());
        lemma_dfs_fra_alle_besokt(g, node, k + 1, s, r, fuel);
    }
}

/// Med nok fuel gir søket det samme uansett hvor mye fuel det får.
pub proof fn lemma_dfs_fra_fuel(g: Seq<Seq<usize>>, node: int, k: int, s: Seq<bool>, r: Seq<usize>, f1: nat, f2: nat)
    requires
        gyldig_graf(g),
        0 <= node < g.len(),
        s.len() == g.len(),
        f1 >= antall_ubesokt(s),
        f2 >= antall_ubesokt(s),
    ensures
        dfs_fra(g, node, k, s, r, f1) == dfs_fra(g, node, k, s, r, f2),
    decreases f1, g[node].len() - k,
{
    if f1 == 0 || f2 == 0 {
        assert forall|v: int| 0 <= v < s.len() implies #[trigger] s[v] by {
            if !s[v] {
                lemma_ubesokt_positiv(s, v);
            }
        }
        lemma_dfs_fra_alle_besokt(g, node, k, s, r, f1);
        lemma_dfs_fra_alle_besokt(g, node, k, s, r, f2);
    } else if 0 <= k < g[node].len() {
        let nabo = g[node][k] as int;
        assert(0 <= nabo < g.len());
        if s[nabo] {
            lemma_dfs_fra_fuel(g, node, k + 1, s, r, f1, f2);
        } else {
            let s1 = s.update(nabo, true);
            lemma_faerre_ubesokt(s, s1, nabo);
            lemma_dfs_fra_fuel(g, nabo, 0, s1, r, (f1 - 1) as nat, (f2 - 1) as nat);
            let (s2, r2) = dfs_fra(g, nabo, 0, s1, r, (f1 - 1) as nat);
            lemma_dfs_fra_utvider(g, nabo, 0, s1, r, (f1 - 1) as nat);
            lemma_ikke_flere_ubesokt(s1, s2);
            lemma_dfs_fra_fuel(g, node, k + 1, s2, r2.push(nabo as usize), f1, f2);
        }
    }
}

/// `p` er en sti: hver node i den har en kant til den neste.
pub open spec fn er_sti(g: Seq<Seq<usize>>, p: Seq<int>) -> bool {
    &&& p.len() >= 1
    &&& forall|i: int| 0 <= i < p.len() ==> 0 <= #[trigger] p[i] < g.len()
    &&& forall|i: int| 0 <= i < p.len() - 1 ==> #[trigger] kant(g, p[i], p[i + 1])
}

/// Det går en sti fra `a` til `b`.
pub open spec fn naar(g: Seq<Seq<usize>>, a: int, b: int) -> bool {
    exists|p: Seq<int>| #[trigger] er_sti(g, p) && p[0] == a && p.last() == b
}

/// En node når seg selv.
pub proof fn lemma_naar_selv(g: Seq<Seq<usize>>, a: int)
    requires
        0 <= a < g.len(),
    ensures
        naar(g, a, a),
{
    assert(er_sti(g, seq![a]));
}

/// En kant fra `a` til `b` og en sti fra `b` til `c` gir en sti fra `a` til `c`.
pub proof fn lemma_naar_kant(g: Seq<Seq<usize>>, a: int, b: int, c: int)
    requires
        kant(g, a, b),
        naar(g, b, c),
    ensures
        naar(g, a, c),
{
    let p = choose|p: Seq<int>| #[trigger] er_sti(g, p) && p[0] == b && p.last() == c;
    let q = seq![a] + p;
    assert(er_sti(g, q)) by {
        assert forall|i: int| 0 <= i < q.len() - 1 implies #[trigger] kant(g, q[i], q[i + 1]) by {
            if i > 0 {
                assert(q[i] == p[i - 1] && q[i + 1] == p[i]);
                assert(kant(g, p[i - 1], p[(i - 1) + 1]));
            }
        }
    }
    assert(q[0] == a && q.last() == c);
}

/// Noden var ubesøkt i `s` og er besøkt i `t`.
pub open spec fn nylig(s: Seq<bool>, t: Seq<bool>, v: int) -> bool {
    !s[v] && t[v]
}

/// Alle naboene til `v` er besøkt.
pub open spec fn ferdig(g: Seq<Seq<usize>>, besokt: Seq<bool>, v: int) -> bool {
    forall|b: int| #[trigger] kant(g, v, b) ==> besokt[b]
}

/// En liste uten gjentak av tall under `n` som har alle tallene under `n`,
/// har lengde `n`.
pub proof fn lemma_permutasjon_lengde(s: Seq<usize>, n: int)
    requires
        0 <= n <= usize::MAX + 1,
        s.no_duplicates(),
        forall|i: int| 0 <= i < s.len() ==> #[trigger] s[i] < n,
        forall|v: int| 0 <= v < n ==> #[trigger] har(s, v),
    ensures
        s.len() == n,
{
    let mengde = s.to_set();
    s.unique_seq_to_set();
    let tall = vstd::set_lib::set_int_range(0, n);
    vstd::set_lib::lemma_int_range(0, n);
    let f = |x: usize| x as int;
    assert(mengde.map(f) =~= tall) by {
        assert forall|x: int| tall.contains(x) implies mengde.map(f).contains(x) by {
            assert(har(s, x));
            let i = choose|i: int| 0 <= i < s.len() && #[trigger] s[i] == x;
            assert(s[i] == x as usize);
            assert(s.contains(x as usize));
            assert(mengde.contains(x as usize));
            assert(f(x as usize) == x);
        }
        assert forall|x: int| mengde.map(f).contains(x) implies tall.contains(x) by {
            let y = choose|y: usize| mengde.contains(y) && f(y) == x;
            let i = choose|i: int| 0 <= i < s.len() && s[i] == y;
        }
    }
    vstd::seq_lib::seq_to_set_is_finite(s);
    vstd::set_lib::lemma_map_size(mengde, tall, f);
}

/// Alle nodene i komponentene, etter hverandre.
pub open spec fn samlet(k: Seq<Seq<usize>>) -> Seq<usize>
    decreases k.len(),
{
    if k.len() == 0 {
        Seq::empty()
    } else {
        samlet(k.drop_last()) + k.last()
    }
}

/// Komponentene som lister av noder.
pub open spec fn komponentliste(k: Seq<Vec<usize>>) -> Seq<Seq<usize>> {
    k.map_values(|c: Vec<usize>| c@)
}

/// En sti i den inverterte grafen er en sti baklengs i grafen.
pub proof fn lemma_naar_invertert(g: Seq<Seq<usize>>, a: int, b: int)
    requires
        gyldig_graf(g),
        g.len() <= usize::MAX,
        naar(invertert_spec(g), a, b),
    ensures
        naar(g, b, a),
{
    let inv = invertert_spec(g);
    let p = choose|p: Seq<int>| #[trigger] er_sti(inv, p) && p[0] == a && p.last() == b;
    let q = p.reverse();
    lov_invertert_kant(g, 0, 0);
    assert forall|i: int| 0 <= i < q.len() - 1 implies #[trigger] kant(g, q[i], q[i + 1]) by {
        let j = p.len() - 2 - i;
        assert(kant(inv, p[j], p[j + 1]));
        lov_invertert_kant(g, p[j], p[j + 1]);
        assert(q[i] == p[j + 1] && q[i + 1] == p[j]);
    }
    assert forall|i: int| 0 <= i < q.len() implies 0 <= #[trigger] q[i] < g.len() by {
        assert(q[i] == p[p.len() - 1 - i]);
    }
    assert(er_sti(g, q));
    assert(q[0] == b && q.last() == a);
}

/// Baklengs har lista de samme verdiene.
pub proof fn lemma_snudd_har(s: Seq<usize>, v: int)
    ensures
        har(s.reverse(), v) <==> har(s, v),
        s.no_duplicates() ==> s.reverse().no_duplicates(),
{
    if har(s, v) {
        let i = choose|i: int| 0 <= i < s.len() && #[trigger] s[i] == v;
        assert(s.reverse()[s.len() - 1 - i] == v);
    }
    if har(s.reverse(), v) {
        let i = choose|i: int| 0 <= i < s.reverse().len() && #[trigger] s.reverse()[i] == v;
        assert(s[s.len() - 1 - i] == v);
    }
    if s.no_duplicates() {
        assert forall|i: int, j: int| 0 <= i < j < s.len() implies s.reverse()[i] != s.reverse()[j] by {
            assert(s.reverse()[i] == s[s.len() - 1 - i]);
            assert(s.reverse()[j] == s[s.len() - 1 - j]);
        }
    }
}

/// En liste uten gjentak med lengde `n` av tall under `n` har alle tallene
/// under `n`.
pub proof fn lemma_permutasjon_har_alle(s: Seq<usize>, n: int, v: int)
    requires
        s.no_duplicates(),
        s.len() == n,
        forall|i: int| 0 <= i < s.len() ==> #[trigger] s[i] < n,
        0 <= v < n,
    ensures
        har(s, v),
{
    let mengde = s.to_set();
    s.unique_seq_to_set();
    vstd::seq_lib::seq_to_set_is_finite(s);
    let tall = vstd::set_lib::set_int_range(0, n);
    vstd::set_lib::lemma_int_range(0, n);
    let f = |x: usize| x as int;
    let bilde = mengde.map(f);
    assert(vstd::relations::injective_on(f, mengde));
    vstd::set_lib::lemma_map_size(mengde, bilde, f);
    assert(bilde.subset_of(tall)) by {
        assert forall|x: int| bilde.contains(x) implies tall.contains(x) by {
            let y = choose|y: usize| mengde.contains(y) && f(y) == x;
            let i = choose|i: int| 0 <= i < s.len() && s[i] == y;
        }
    }
    vstd::set_lib::lemma_subset_equality(bilde, tall);
    assert(tall.contains(v));
    let y = choose|y: usize| mengde.contains(y) && f(y) == v;
    let i = choose|i: int| 0 <= i < s.len() && s[i] == y;
    assert(s[i] == v);
}

/// Lista baklengs.
pub fn snudd(v: &Vec<usize>) -> (res: Vec<usize>)
    ensures
        res@ == v@.reverse(),
{
    let mut res: Vec<usize> = Vec::new();
    let mut i: usize = v.len();
    while i > 0
        invariant
            i <= v@.len(),
            res@ == v@.subrange(i as int, v@.len() as int).reverse(),
        decreases i,
    {
        i = i - 1;
        res.push(v[i]);
        assert(res@ =~= v@.subrange(i as int, v@.len() as int).reverse());
    }
    assert(v@.subrange(0, v@.len() as int) =~= v@);
    res
}

/// Feil ved bygging av en graf.
#[derive(Debug, PartialEq, Eq)]
pub enum GrafFeil {
    /// Første linje mangler et av de to tallene.
    ManglerTallForst,
    /// Antall noder på første linje er ikke et tall.
    AntallNoder,
    /// Antall kanter på første linje er ikke et tall.
    AntallKanter,
    /// En kantlinje mangler et av de to tallene.
    ManglerTall { linjenummer: usize },
    /// En kantlinje har noe som ikke er et nodetall.
    Nodetall { linjenummer: usize },
    /// En kant går til eller fra en node som ikke finnes.
    UkjentNode { fra: usize, til: usize, antall_noder: usize },
    /// En kant i grafen som skal snus går mellom noder som ikke finnes.
    UkjentKant { fra: usize, til: usize },
    /// Filen har et annet antall kanter enn første linje sier.
    AntallKanterStemmerIkke { forventet: usize, lest: usize },
}

/// Linjene i en fil, der en linje som ikke kunne leses er `None`.
pub open spec fn linjer_av(linjer: Seq<Option<String>>) -> Seq<Option<Seq<char>>> {
    linjer.map_values(|l: Option<String>| match l {
        Some(s) => Some(s@),
        None => None,
    })
}

/// Antall noder og kanter fra første linje.
pub open spec fn les_forste(forste: Seq<char>) -> Result<(usize, usize), GrafFeil> {
    match les_tall(ord(forste), 2, 0, Seq::empty()) {
        TallPaLinje::Tall(v) => Ok((v[0], v[1])),
        TallPaLinje::Mangler(_) => Err(GrafFeil::ManglerTallForst),
        TallPaLinje::Ugyldig(i) => Err(if i == 0 { GrafFeil::AntallNoder } else { GrafFeil::AntallKanter }),
    }
}

/// Kantene fra linje `i` og utover, etter kantene i `kanter`; første linje
/// med feil stopper lesingen.
pub open spec fn les_kanter(linjer: Seq<Option<Seq<char>>>, n: usize, i: int, kanter: Seq<(usize, usize)>) -> Result<Seq<(usize, usize)>, GrafFeil>
    decreases linjer.len() - i,
{
    if i >= linjer.len() {
        Ok(kanter)
    } else {
        match linjer[i] {
            None => les_kanter(linjer, n, i + 1, kanter),
            Some(l) => match les_tall(ord(l), 2, 0, Seq::empty()) {
                TallPaLinje::Mangler(_) => Err(GrafFeil::ManglerTall { linjenummer: i as usize }),
                TallPaLinje::Ugyldig(_) => Err(GrafFeil::Nodetall { linjenummer: i as usize }),
                TallPaLinje::Tall(v) => if v[0] < n && v[1] < n {
                    les_kanter(linjer, n, i + 1, kanter.push((v[0], v[1])))
                } else {
                    Err(GrafFeil::UkjentNode { fra: v[0], til: v[1], antall_noder: n })
                },
            },
        }
    }
}

/// Grafen en fil beskriver: antall noder og kantene, eller feilen i den.
pub open spec fn graf_fra_linjer(forste: Seq<char>, linjer: Seq<Option<Seq<char>>>) -> Result<(usize, Seq<(usize, usize)>), GrafFeil> {
    match les_forste(forste) {
        Err(e) => Err(e),
        Ok((n, m)) => match les_kanter(linjer, n, 0, Seq::empty()) {
            Err(e) => Err(e),
            Ok(k) => if k.len() == m {
                Ok((n, k))
            } else {
                Err(GrafFeil::AntallKanterStemmerIkke { forventet: m, lest: k.len() as usize })
            },
        },
    }
}

/// Grafen med `n` noder og kantene lagt til i rekkefølge.
pub open spec fn med_kanter(n: nat, kanter: Seq<(usize, usize)>) -> Seq<Seq<usize>>
    decreases kanter.len(),
{
    if kanter.len() == 0 {
        Seq::new(n, |i: int| Seq::<usize>::empty())
    } else {
        let g = med_kanter(n, kanter.drop_last());
        let (fra, til) = kanter.last();
        g.update(fra as int, g[fra as int].push(til))
    }
}

/// Grafen med kanter har like mange noder.
pub proof fn lemma_med_kanter_lengde(n: nat, kanter: Seq<(usize, usize)>)
    requires
        forall|i: int| 0 <= i < kanter.len() ==> (#[trigger] kanter[i]).0 < n,
    ensures
        med_kanter(n, kanter).len() == n,
    decreases kanter.len(),
{
    if kanter.len() > 0 {
        lemma_med_kanter_lengde(n, kanter.drop_last());
    }
}

/// En rettet graf der hver node har en liste med naboene den har kanter til.
pub struct Graf {
    noder: Vec<Vec<usize>>,
}

impl View for Graf {
    type V = Seq<Seq<usize>>;

    closed spec fn view(&self) -> Seq<Seq<usize>> {
        self.noder@.map_values(|v: Vec<usize>| v@)
    }
}

impl Graf {
    /// Alle kanter går mellom noder som finnes.
    pub open spec fn er_gyldig(&self) -> bool {
        gyldig_graf(self@)
    }

    /// En graf med `kapasitet` noder og ingen kanter.
    pub fn opprett(kapasitet: usize) -> (res: Self)
        ensures
            res@ == Seq::new(kapasitet as nat, |i: int| Seq::<usize>::empty()),
            res.er_gyldig(),
    {
        let mut noder: Vec<Vec<usize>> = Vec::new();
        let mut i: usize = 0;
        while i < kapasitet
            invariant
                i <= kapasitet,
                noder@.len() == i,
                forall|k: int| 0 <= k < i ==> #[trigger] noder@[k]@ == Seq::<usize>::empty(),
            decreases kapasitet - i,
        {
            noder.push(Vec::new());
            i = i + 1;
        }
        let res = Self { noder };
        assert(res@ =~= Seq::new(kapasitet as nat, |i: int| Seq::<usize>::empty()));
        res
    }

    /// Antall noder.
    pub fn antall_noder(&self) -> (res: usize)
        ensures
            res == self@.len(),
    {
        self.noder.len()
    }

    /// Naboene til en node.
    pub fn naboer(&self, node: usize) -> (res: &Vec<usize>)
        requires
            node < self@.len(),
        ensures
            res@ == self@[node as int],
    {
        &self.noder[node]
    }

    /// Legger til en kant fra `fra` til `til`, om begge nodene finnes.
    pub fn legg_til_kant(&mut self, fra: usize, til: usize) -> (res: Result<(), ()>)
        ensures
            fra < old(self)@.len() && til < old(self)@.len() ==> {
                &&& res is Ok
                &&& final(self)@ == old(self)@.update(fra as int, old(self)@[fra as int].push(til))
            },
            !(fra < old(self)@.len() && til < old(self)@.len()) ==> {
                &&& res is Err
                &&& final(self)@ == old(self)@
            },
            old(self).er_gyldig() ==> final(self).er_gyldig(),
    {
        if fra >= self.antall_noder() || til >= self.antall_noder() {
            Err(())
        } else {
            let ghost gammel = self@;
            let mut naboer: Vec<usize> = Vec::new();
            self.noder.set_and_swap(fra, &mut naboer);
            naboer.push(til);
            self.noder.set_and_swap(fra, &mut naboer);
            assert(self@ =~= gammel.update(fra as int, gammel[fra as int].push(til)));
            proof {
                if gyldig_graf(gammel) {
                    assert forall|a: int, k: int| 0 <= a < self@.len() && 0 <= k < self@[a].len()
                        implies #[trigger] self@[a][k] < self@.len() by {
                        if a == fra && k == gammel[a].len() {
                        } else {
                            assert(self@[a][k] == gammel[a][k]);
                        }
                    }
                }
            }
            Ok(())
        }
    }

    /// Grafen med alle kanter snudd.
    pub fn invertert(&self) -> (res: Result<Self, GrafFeil>)
        requires
            self.er_gyldig(),
        ensures
            res is Ok,
            res matches Ok(inv) ==> inv@ == invertert_spec(self@) && inv.er_gyldig(),
    {
        let mut invertert = Self::opprett(self.antall_noder());
        let n = self.noder.len();
        let mut til: usize = 0;
        while til < n
            invariant
                n == self@.len(),
                self.er_gyldig(),
                til <= n,
                invertert@ == invertert_til(self@, til as int),
                invertert@.len() == n,
                invertert.er_gyldig(),
            decreases n - til,
        {
            let kanter = &self.noder[til];
            let mut k: usize = 0;
            while k < kanter.len()
                invariant
                    n == self@.len(),
                    self.er_gyldig(),
                    til < n,
                    kanter@ == self@[til as int],
                    k <= kanter@.len(),
                    invertert@ == legg_til_inn(invertert_til(self@, til as int), til, kanter@.take(k as int)),
                    invertert@.len() == n,
                    invertert.er_gyldig(),
                decreases kanter@.len() - k,
            {
                let fra = kanter[k];
                assert(fra < n);
                assert(kanter@.take(k + 1).drop_last() =~= kanter@.take(k as int));
                match invertert.legg_til_kant(fra, til) {
                    Err(_) => {
                        return Err(GrafFeil::UkjentKant { fra, til });
                    },
                    _ => {},
                }
                k = k + 1;
            }
            assert(kanter@.take(kanter@.len() as int) =~= kanter@);
            til = til + 1;
        }
        Ok(invertert)
    }

    /// Besøker alle ubesøkte noder som kan nås fra `node`, dybde først, og
    /// legger dem til i `rekkefolge` etter hvert som de blir ferdige.
    fn dybdebesok(&self, node: usize, status: &mut DfsStatus, rekkefolge: &mut Vec<usize>)
        requires
            self.er_gyldig(),
            old(status)@.len() == self@.len(),
            node < self@.len(),
            old(status)@[node as int],
        ensures
            utvidet(old(status)@, final(status)@),
            final(rekkefolge)@.len() >= old(rekkefolge)@.len(),
            final(rekkefolge)@.take(old(rekkefolge)@.len() as int) == old(rekkefolge)@,
            ({
                let ny = final(rekkefolge)@.skip(old(rekkefolge)@.len() as int);
                &&& ny.no_duplicates()
                &&& forall|v: int| 0 <= v < self@.len() ==>
                    (#[trigger] nylig(old(status)@, final(status)@, v) <==> har(ny, v))
                &&& forall|i: int| 0 <= i < ny.len() ==> naar(self@, node as int, #[trigger] ny[i] as int)
                &&& forall|i: int| 0 <= i < ny.len() ==> #[trigger] ny[i] < self@.len()
            }),
            ferdig(self@, final(status)@, node as int),
            forall|v: int| 0 <= v < self@.len() && #[trigger] nylig(old(status)@, final(status)@, v)
                ==> ferdig(self@, final(status)@, v),
            (dfs_tilstand(self@, old(status)@, old(rekkefolge)@) && gra(old(status)@, old(rekkefolge)@, node as int)
                && kjede(self@, old(status)@, old(rekkefolge)@, node as int))
                ==> dfs_tilstand(self@, final(status)@, final(rekkefolge)@),
            (final(status)@, final(rekkefolge)@)
                == dfs_fra(self@, node as int, 0, old(status)@, old(rekkefolge)@, antall_ubesokt(old(status)@)),
        decreases antall_ubesokt(old(status)@),
    {
        let ghost s0 = status@;
        let ghost r0 = rekkefolge@;
        let antall = self.noder.len();
        let naboer = &self.noder[node];
        let ghost g = self@;
        assert(naboer@ == g[node as int]);
        assert(antall == g.len());
        let mut k: usize = 0;
        while k < naboer.len()
            invariant
                self.er_gyldig(),
                g == self@,
                node < g.len(),
                naboer@ == g[node as int],
                k <= naboer@.len(),
                s0 == old(status)@,
                g.len() <= usize::MAX,
                s0.len() == g.len(),
                utvidet(s0, status@),
                s0[node as int],
                rekkefolge@.len() >= r0.len(),
                rekkefolge@.take(r0.len() as int) == r0,
                ({
                    let ny = rekkefolge@.skip(r0.len() as int);
                    &&& ny.no_duplicates()
                    &&& forall|v: int| 0 <= v < g.len() ==>
                        (#[trigger] nylig(s0, status@, v) <==> har(ny, v))
                    &&& forall|i: int| 0 <= i < ny.len() ==> naar(g, node as int, #[trigger] ny[i] as int)
                    &&& forall|i: int| 0 <= i < ny.len() ==> #[trigger] ny[i] < g.len()
                }),
                forall|v: int| 0 <= v < g.len() && #[trigger] nylig(s0, status@, v) ==> ferdig(g, status@, v),
                forall|i: int| 0 <= i < k ==> status@[#[trigger] naboer@[i] as int],
                (dfs_tilstand(g, s0, r0) && gra(s0, r0, node as int) && kjede(g, s0, r0, node as int)) ==> {
                    &&& dfs_tilstand(g, status@, rekkefolge@)
                    &&& forall|z: int| #[trigger] gra(status@, rekkefolge@, z) <==> gra(s0, r0, z)
                },
                dfs_fra(g, node as int, k as int, status@, rekkefolge@, antall_ubesokt(s0))
                    == dfs_fra(g, node as int, 0, s0, r0, antall_ubesokt(s0)),
            decreases naboer@.len() - k,
        {
            let nabo = naboer[k];
            assert(nabo < g.len());
            assert(g[node as int][k as int] == nabo);
            if !status.har_besokt(nabo) {
                let ghost s1 = status@;
                let ghost r1 = rekkefolge@;
                status.besok(nabo);
                let ghost s1u = status@;
                proof {
                    assert(utvidet(s1, s1u));
                    lemma_utvidet_trans(s0, s1, s1u);
                    lemma_faerre_ubesokt(s0, s1u, nabo as int);
                    assert(antall_ubesokt(status@) < antall_ubesokt(s0));
                }
                self.dybdebesok(nabo, status, rekkefolge);
                let ghost r2 = rekkefolge@;
                rekkefolge.push(nabo);
                proof {
                    let s2 = status@;
                    let fuel = antall_ubesokt(s0);
                    lemma_ikke_flere_ubesokt(s0, s1);
                    lemma_ubesokt_positiv(s1, nabo as int);
                    lemma_faerre_ubesokt(s1, s1u, nabo as int);
                    lemma_dfs_fra_fuel(g, nabo as int, 0, s1u, r1, antall_ubesokt(s1u), (fuel - 1) as nat);
                    assert(dfs_fra(g, node as int, k as int, s1, r1, fuel)
                        == dfs_fra(g, node as int, k + 1, s2, r2.push(nabo), fuel));
                    if dfs_tilstand(g, s0, r0) && gra(s0, r0, node as int) && kjede(g, s0, r0, node as int) {
                        assert(kant(g, node as int, nabo as int)) by {
                            assert(g[node as int][k as int] == nabo);
                        }
                        assert forall|v: int| 0 <= v < s1.len() implies
                            (!s1u[v] && s2[v] <==> #[trigger] har(r2.skip(r1.len() as int), v)) by {
                            assert(nylig(s1u, s2, v) <==> har(r2.skip(r1.len() as int), v));
                        }
                        lemma_dfs_steg(g, s0, r0, node as int, s1, r1, nabo as int, s2, r2);
                    }
                    lemma_utvidet_trans(s0, s1u, s2);
                    assert forall|v: int| 0 <= v < g.len() && #[trigger] nylig(s0, s2, v) implies ferdig(g, s2, v) by {
                        if nylig(s0, s1, v) {
                            assert(ferdig(g, s1, v));
                            assert forall|b: int| #[trigger] kant(g, v, b) implies s2[b] by {
                                assert(s1[b]);
                                assert(s1u[b]);
                            }
                        } else if v == nabo {
                        } else {
                            assert(nylig(s1u, s2, v));
                        }
                    }
                    assert forall|i: int| 0 <= i < k + 1 implies s2[#[trigger] naboer@[i] as int] by {
                        if i < k {
                            assert(s1[naboer@[i] as int]);
                            assert(s1u[naboer@[i] as int]);
                        } else {
                            assert(s1u[nabo as int]);
                        }
                    }
                    let ny0 = r1.skip(r0.len() as int);
                    let ny_kall = r2.skip(r1.len() as int);
                    let ny = rekkefolge@.skip(r0.len() as int);
                    assert(rekkefolge@ == r2.push(nabo));
                    assert(r2.take(r1.len() as int) == r1);
                    assert(ny =~= ny0 + ny_kall + seq![nabo]);
                    assert(rekkefolge@.take(r0.len() as int) =~= r0) by {
                        assert(r1.take(r0.len() as int) == r0);
                    }
                    assert(kant(g, node as int, nabo as int)) by {
                        assert(g[node as int][k as int] == nabo);
                    }
                    lemma_naar_selv(g, nabo as int);
                    lemma_naar_kant(g, node as int, nabo as int, nabo as int);
                    assert forall|i: int| 0 <= i < ny.len() implies naar(g, node as int, #[trigger] ny[i] as int) by {
                        if i < ny0.len() {
                            assert(ny[i] == ny0[i]);
                        } else if i < ny0.len() + ny_kall.len() {
                            assert(ny[i] == ny_kall[i - ny0.len()]);
                            lemma_naar_kant(g, node as int, nabo as int, ny[i] as int);
                        }
                    }
                    assert forall|v: int| 0 <= v < g.len() implies
                        (#[trigger] nylig(s0, s2, v) <==> har(ny, v)) by {
                        if nylig(s0, s2, v) {
                            if nylig(s0, s1, v) {
                                let i = choose|i: int| 0 <= i < ny0.len() && ny0[i] == v;
                                assert(ny[i] == v);
                            } else if v == nabo {
                                assert(ny[ny.len() - 1] == v);
                            } else {
                                assert(nylig(s1u, s2, v));
                                let i = choose|i: int| 0 <= i < ny_kall.len() && ny_kall[i] == v;
                                assert(ny[ny0.len() + i] == v);
                            }
                        }
                        if har(ny, v) {
                            let i = choose|i: int| 0 <= i < ny.len() && ny[i] == v;
                            if i < ny0.len() {
                                assert(ny0[i] == v);
                                assert(nylig(s0, s1, v));
                            } else if i < ny0.len() + ny_kall.len() {
                                assert(ny_kall[i - ny0.len()] == v);
                                assert(nylig(s1u, s2, v));
                            }
                        }
                    }
                    assert(ny.no_duplicates()) by {
                        assert forall|i: int, j: int| 0 <= i < j < ny.len() implies ny[i] != ny[j] by {
                            let vi = ny[i] as int;
                            let vj = ny[j] as int;
                            if i < ny0.len() && j < ny0.len() {
                                assert(ny0[i] == ny[i] && ny0[j] == ny[j]);
                            } else if i < ny0.len() {
                                assert(ny0[i] == ny[i]);
                                assert(ny0.contains(ny[i]));
                                assert(nylig(s0, s1, vi));
                                if j < ny0.len() + ny_kall.len() {
                                    assert(ny_kall[j - ny0.len()] == ny[j]);
                                    assert(ny_kall.contains(ny[j]));
                                    assert(nylig(s1u, s2, vj));
                                }
                            } else if j < ny0.len() + ny_kall.len() {
                                assert(ny_kall[i - ny0.len()] == ny[i]);
                                assert(ny_kall[j - ny0.len()] == ny[j]);
                            } else {
                                assert(ny_kall[i - ny0.len()] == ny[i]);
                                assert(ny_kall.contains(ny[i]));
                                assert(nylig(s1u, s2, vi));
                            }
                        }
                    }
                }
            } else {
                assert(dfs_fra(g, node as int, k as int, status@, rekkefolge@, antall_ubesokt(s0))
                    == dfs_fra(g, node as int, k + 1, status@, rekkefolge@, antall_ubesokt(s0)));
            }
            k = k + 1;
        }
        proof {
            let v = node as int;
            assert forall|b: int| #[trigger] kant(g, v, b) implies status@[b] by {
                let i = choose|i: int| 0 <= i < g[v].len() && #[trigger] g[v][i] == b;
                assert(status@[naboer@[i] as int]);
            }
        }
    }

    /// Dybde-først-traversering av hele grafen: gir nodene i omvendt
    /// rekkefølge av når de ble ferdige, hver node én gang.
    pub fn dfs(&self) -> (res: Vec<usize>)
        requires
            self.er_gyldig(),
        ensures
            res@.len() == self@.len(),
            res@.no_duplicates(),
            forall|i: int| 0 <= i < res@.len() ==> #[trigger] res@[i] < self@.len(),
            kosaraju_orden(self@, res@),
            res@ == dfs_rekkefolge(self@),
    {
        let n = self.antall_noder();
        let mut status = DfsStatus::opprett(n);
        let mut ferdige: Vec<usize> = Vec::new();
        let ghost g = self@;
        let mut node: usize = 0;
        while node < n
            invariant
                self.er_gyldig(),
                g == self@,
                n == g.len(),
                node <= n,
                status@.len() == n,
                ferdige@.no_duplicates(),
                forall|i: int| 0 <= i < ferdige@.len() ==> #[trigger] ferdige@[i] < n,
                forall|v: int| 0 <= v < n ==> (#[trigger] status@[v] <==> har(ferdige@, v)),
                forall|v: int| 0 <= v < node ==> #[trigger] status@[v],
                dfs_tilstand(g, status@, ferdige@),
                dfs_alle(g, node as int, status@, ferdige@) == dfs_alle(g, 0, Seq::new(n as nat, |i: int| false), Seq::empty()),
            decreases n - node,
        {
            if !status.har_besokt(node) {
                let ghost s1 = status@;
                let ghost r1 = ferdige@;
                status.besok(node);
                let ghost s1u = status@;
                proof {
                    lemma_oppdag(g, s1, r1, node as int);
                    assert(!har(r1, node as int));
                    assert forall|z: int| #[trigger] gra(s1u, r1, z) implies naar(g, z, node as int) by {
                        if z != node as int {
                            assert(gra(s1, r1, z));
                        } else {
                            lemma_naar_selv(g, node as int);
                        }
                    }
                }
                self.dybdebesok(node, &mut status, &mut ferdige);
                let ghost r2 = ferdige@;
                proof {
                    let s2 = status@;
                    assert forall|v: int| 0 <= v < s1u.len() implies
                        (!s1u[v] && s2[v] <==> #[trigger] har(r2.skip(r1.len() as int), v)) by {
                        assert(nylig(s1u, s2, v) <==> har(r2.skip(r1.len() as int), v));
                    }
                    lemma_gra_uendret(s1u, r1, s2, r2);
                    assert(gra(s2, r2, node as int));
                    assert forall|z: int| #[trigger] gra(s2, r2, z) implies naar(g, z, node as int) by {
                        assert(gra(s1u, r1, z));
                    }
                    lemma_avslutt(g, s2, r2, node as int);
                }
                ferdige.push(node);
                proof {
                    assert(dfs_alle(g, node as int, s1, r1) == dfs_alle(g, node + 1, status@, ferdige@));
                    let ny = r2.skip(r1.len() as int);
                    assert(r2 =~= r1 + ny) by {
                        assert(r2.take(r1.len() as int) == r1);
                    }
                    assert(ferdige@ == r2.push(node));
                    assert(s1u[node as int]);
                    assert forall|v: int| 0 <= v < n implies (#[trigger] status@[v] <==> har(ferdige@, v)) by {
                        if status@[v] {
                            if s1[v] {
                                assert(har(r1, v));
                                let i = choose|i: int| 0 <= i < r1.len() && #[trigger] r1[i] == v;
                                assert(r2[i] == r1[i]);
                                assert(ferdige@[i] == v);
                            } else if v == node {
                                assert(ferdige@[ferdige@.len() - 1] == v);
                            } else {
                                assert(nylig(s1u, status@, v));
                                assert(har(ny, v));
                                let i = choose|i: int| 0 <= i < ny.len() && #[trigger] ny[i] == v;
                                assert(r2[r1.len() + i] == ny[i]);
                                assert(ferdige@[r1.len() + i] == v);
                            }
                        }
                        if har(ferdige@, v) {
                            let i = choose|i: int| 0 <= i < ferdige@.len() && ferdige@[i] == v;
                            if i < r1.len() {
                                assert(r1[i] == v);
                                assert(har(r1, v));
                                assert(s1[v]);
                                assert(s1u[v]);
                            } else if i < r1.len() + ny.len() {
                                assert(ny[i - r1.len()] == v);
                                assert(har(ny, v));
                                assert(nylig(s1u, status@, v));
                            } else {
                                assert(s1u[v]);
                            }
                        }
                    }
                    assert forall|i: int| 0 <= i < ferdige@.len() implies #[trigger] ferdige@[i] < n by {
                        if i < r1.len() {
                            assert(ferdige@[i] == r1[i]);
                        } else if i < r1.len() + ny.len() {
                            assert(ferdige@[i] == ny[i - r1.len()]);
                        }
                    }
                    assert(ferdige@.no_duplicates()) by {
                        assert forall|i: int, j: int| 0 <= i < j < ferdige@.len() implies ferdige@[i] != ferdige@[j] by {
                            let vi = ferdige@[i] as int;
                            let vj = ferdige@[j] as int;
                            if j < r1.len() {
                                assert(r1[i] == ferdige@[i] && r1[j] == ferdige@[j]);
                            } else if i < r1.len() {
                                assert(r1[i] == ferdige@[i]);
                                assert(r1.contains(ferdige@[i]));
                                assert(s1[vi]);
                                assert(s1u[vi]);
                                if j < r1.len() + ny.len() {
                                    assert(ny[j - r1.len()] == ferdige@[j]);
                                    assert(ny.contains(ferdige@[j]));
                                    assert(nylig(s1u, status@, vj));
                                }
                            } else if j < r1.len() + ny.len() {
                                assert(ny[i - r1.len()] == ferdige@[i]);
                                assert(ny[j - r1.len()] == ferdige@[j]);
                            } else {
                                assert(ny[i - r1.len()] == ferdige@[i]);
                                assert(ny.contains(ferdige@[i]));
                                assert(nylig(s1u, status@, vi));
                            }
                        }
                    }
                    assert forall|v: int| 0 <= v < node + 1 implies #[trigger] status@[v] by {
                        if v < node {
                            assert(s1[v]);
                            assert(s1u[v]);
                        }
                    }
                }
            } else {
                assert(dfs_alle(g, node as int, status@, ferdige@) == dfs_alle(g, node + 1, status@, ferdige@));
            }
            node = node + 1;
        }
        proof {
            assert forall|v: int| 0 <= v < n implies har(ferdige@, v) by {
                assert(status@[v]);
            }
            lemma_permutasjon_lengde(ferdige@, n as int);
            lemma_kosaraju_orden(g, status@, ferdige@);
        }
        snudd(&ferdige)
    }

    /// De sterkt koblede komponentene, med Kosarajus algoritme: en
    /// dybde-først-traversering av grafen gir en rekkefølge, og i den
    /// rekkefølgen blir hver ubesøkt node roten i en ny komponent, som får
    /// alle ubesøkte noder roten nås fra. Hver node er med i nøyaktig én
    /// komponent, hver komponent slutter med roten sin, og to noder er i
    /// samme komponent nøyaktig når de når hverandre.
    pub fn komponenter(&self) -> (res: Vec<Vec<usize>>)
        requires
            self.er_gyldig(),
        ensures
            samlet(komponentliste(res@)).len() == self@.len(),
            samlet(komponentliste(res@)).no_duplicates(),
            forall|v: int| 0 <= v < self@.len() ==> #[trigger] har(samlet(komponentliste(res@)), v),
            forall|i: int| 0 <= i < res@.len() ==> #[trigger] komponentliste(res@)[i].len() >= 1,
            forall|i: int, j: int| 0 <= i < res@.len() && 0 <= j < komponentliste(res@)[i].len() ==> {
                &&& komponentliste(res@)[i][j] < self@.len()
                &&& gjensidig(self@, #[trigger] komponentliste(res@)[i][j] as int, komponentliste(res@)[i].last() as int)
            },
            forall|i1: int, j1: int, i2: int, j2: int|
                0 <= i1 < res@.len() && 0 <= j1 < komponentliste(res@)[i1].len() && 0 <= i2 < res@.len()
                    && 0 <= j2 < komponentliste(res@)[i2].len() ==> (gjensidig(
                    self@,
                    #[trigger] komponentliste(res@)[i1][j1] as int,
                    #[trigger] komponentliste(res@)[i2][j2] as int,
                ) <==> i1 == i2),
            komponentliste(res@) == komponenter_spec(self@),
    {
        let invers = match self.invertert() {
            Ok(graf) => graf,
            Err(_) => return Vec::new(),
        };
        let ghost g = self@;
        let ghost inv = invers@;
        let n = self.antall_noder();
        proof {
            lov_invertert_kant(g, 0, 0);
        }
        let mut status = DfsStatus::opprett(n);
        let rekkefolge = self.dfs();
        let mut komponenter: Vec<Vec<usize>> = Vec::new();
        let mut idx: usize = 0;
        assert(komponentliste(komponenter@) =~= Seq::<Seq<usize>>::empty());
        while idx < rekkefolge.len()
            invariant
                komponenter_fra(inv, rekkefolge@, idx as int, status@, komponentliste(komponenter@))
                    == komponenter_spec(g),
                self.er_gyldig(),
                g == self@,
                n == g.len(),
                invers.er_gyldig(),
                inv == invers@,
                inv == invertert_spec(g),
                inv.len() == n,
                rekkefolge@.len() == n,
                rekkefolge@.no_duplicates(),
                forall|i: int| 0 <= i < n ==> #[trigger] rekkefolge@[i] < n,
                idx <= n,
                status@.len() == n,
                forall|i: int| 0 <= i < idx ==> status@[#[trigger] rekkefolge@[i] as int],
                forall|v: int| 0 <= v < n ==> (#[trigger] status@[v] <==> har(samlet(komponentliste(komponenter@)), v)),
                samlet(komponentliste(komponenter@)).no_duplicates(),
                forall|i: int| 0 <= i < samlet(komponentliste(komponenter@)).len()
                    ==> #[trigger] samlet(komponentliste(komponenter@))[i] < n,
                forall|i: int| 0 <= i < komponenter@.len() ==> #[trigger] komponentliste(komponenter@)[i].len() >= 1,
                rundt_roten(g, komponentliste(komponenter@)),
                naar_framover(g, komponentliste(komponenter@)),
                lukket(inv, status@),
                kosaraju_orden(g, rekkefolge@),
            decreases n - idx,
        {
            let node = rekkefolge[idx];
            if !status.har_besokt(node) {
                let ghost s1 = status@;
                let ghost k1 = komponentliste(komponenter@);
                let mut komp: Vec<usize> = Vec::new();
                komp.push(node);
                assert(komp@ =~= seq![rekkefolge@[idx as int]]);
                status.besok(node);
                let ghost s1u = status@;
                invers.dybdebesok(node, &mut status, &mut komp);
                let ny_komp = snudd(&komp);
                let ghost c = komp@;
                komponenter.push(ny_komp);
                proof {
                    assert(komponentliste(komponenter@) =~= k1.push(c.reverse()));
                    assert(komponenter_fra(inv, rekkefolge@, idx as int, s1, k1)
                        == komponenter_fra(inv, rekkefolge@, idx + 1, status@, k1.push(c.reverse())));
                }
                proof {
                    let ny = c.skip(1);
                    assert(c =~= seq![node] + ny) by {
                        assert(c.take(1) == seq![node]);
                    }
                    let k2 = komponentliste(komponenter@);
                    assert(k2 =~= k1.push(c.reverse()));
                    assert(k2.drop_last() =~= k1);
                    assert(samlet(k2) == samlet(k1) + c.reverse());
                    lemma_naar_selv(inv, node as int);
                    assert forall|j: int| 0 <= j < c.len() implies naar(g, #[trigger] c[j] as int, node as int) && c[j] < n by {
                        if j == 0 {
                            lemma_naar_selv(g, node as int);
                        } else {
                            assert(c[j] == ny[j - 1]);
                            lemma_naar_invertert(g, node as int, c[j] as int);
                        }
                    }
                    assert(c.no_duplicates()) by {
                        assert forall|i: int, j: int| 0 <= i < j < c.len() implies c[i] != c[j] by {
                            if i == 0 {
                                assert(c[j] == ny[j - 1]);
                                assert(har(ny, c[j] as int));
                                assert(nylig(s1u, status@, c[j] as int));
                            } else {
                                assert(c[i] == ny[i - 1] && c[j] == ny[j - 1]);
                            }
                        }
                    }
                    lemma_snudd_har(c, 0);
                    assert forall|j: int| 0 <= j < c.len() implies #[trigger] c[j] < g.len() && !s1[c[j] as int]
                        && naar(g, c[j] as int, rekkefolge@[idx as int] as int) by {
                        if j > 0 {
                            assert(c[j] == ny[j - 1]);
                            assert(har(ny, c[j] as int));
                            assert(nylig(s1u, status@, c[j] as int));
                        }
                    }
                    assert forall|v: int| 0 <= v < g.len() && #[trigger] har(samlet(k1), v) implies s1[v] by {
                    }
                    lemma_ny_komponent(g, rekkefolge@, idx as int, s1, k1, c);
                    assert forall|v: int| 0 <= v < status@.len() && #[trigger] status@[v] implies ferdig(inv, status@, v) by {
                        if s1[v] {
                            assert(ferdig(inv, s1, v));
                            assert forall|b: int| #[trigger] kant(inv, v, b) implies status@[b] by {
                                assert(s1[b]);
                                assert(s1u[b]);
                            }
                        } else if v != node as int {
                            assert(nylig(s1u, status@, v));
                        }
                    }
                    assert forall|i: int| 0 <= i < k2.len() implies #[trigger] k2[i].len() >= 1 by {
                        if i < k1.len() {
                            assert(k2[i] == k1[i]);
                        }
                    }
                    let sam = samlet(k2);
                    let sam1 = samlet(k1);
                    let cr = c.reverse();
                    assert forall|v: int| 0 <= v < n implies (#[trigger] status@[v] <==> har(sam, v)) by {
                        lemma_snudd_har(c, v);
                        if status@[v] {
                            if s1[v] {
                                assert(har(sam1, v));
                                let i = choose|i: int| 0 <= i < sam1.len() && #[trigger] sam1[i] == v;
                                assert(sam[i] == v);
                            } else {
                                if v == node {
                                    assert(c[0] == v);
                                } else {
                                    assert(nylig(s1u, status@, v));
                                    assert(har(ny, v));
                                    let i = choose|i: int| 0 <= i < ny.len() && #[trigger] ny[i] == v;
                                    assert(c[i + 1] == v);
                                }
                                assert(har(c, v));
                                assert(har(cr, v));
                                let i = choose|i: int| 0 <= i < cr.len() && #[trigger] cr[i] == v;
                                assert(sam[sam1.len() + i] == v);
                            }
                        }
                        if har(sam, v) {
                            let i = choose|i: int| 0 <= i < sam.len() && #[trigger] sam[i] == v;
                            if i < sam1.len() {
                                assert(sam1[i] == v);
                                assert(har(sam1, v));
                                assert(s1u[v]);
                            } else {
                                assert(cr[i - sam1.len()] == v);
                                assert(har(cr, v));
                                assert(har(c, v));
                                let j = choose|j: int| 0 <= j < c.len() && #[trigger] c[j] == v;
                                if j > 0 {
                                    assert(ny[j - 1] == v);
                                    assert(har(ny, v));
                                    assert(nylig(s1u, status@, v));
                                } else {
                                    assert(s1u[v]);
                                }
                            }
                        }
                    }
                    assert forall|i: int| 0 <= i < sam.len() implies #[trigger] sam[i] < n by {
                        if i < sam1.len() {
                            assert(sam[i] == sam1[i]);
                        } else {
                            assert(sam[i] == cr[i - sam1.len()]);
                            assert(cr[i - sam1.len()] == c[c.len() - 1 - (i - sam1.len())]);
                        }
                    }
                    assert(sam.no_duplicates()) by {
                        assert forall|i: int, j: int| 0 <= i < j < sam.len() implies sam[i] != sam[j] by {
                            if j < sam1.len() {
                                assert(sam[i] == sam1[i] && sam[j] == sam1[j]);
                            } else if i >= sam1.len() {
                                assert(sam[i] == cr[i - sam1.len()] && sam[j] == cr[j - sam1.len()]);
                            } else {
                                let v = sam[j] as int;
                                assert(sam[i] == sam1[i]);
                                assert(har(sam1, sam[i] as int));
                                assert(s1[sam[i] as int]);
                                assert(sam[j] == cr[j - sam1.len()]);
                                assert(har(cr, v));
                                lemma_snudd_har(c, v);
                                let jj = choose|jj: int| 0 <= jj < c.len() && #[trigger] c[jj] == v;
                                if jj > 0 {
                                    assert(ny[jj - 1] == v);
                                    assert(har(ny, v));
                                    assert(nylig(s1u, status@, v));
                                }
                            }
                        }
                    }
                    assert forall|i: int| 0 <= i < idx + 1 implies status@[#[trigger] rekkefolge@[i] as int] by {
                        if i < idx {
                            assert(s1[rekkefolge@[i] as int]);
                            assert(s1u[rekkefolge@[i] as int]);
                        } else {
                            assert(s1u[node as int]);
                        }
                    }
                }
            } else {
                assert(komponenter_fra(inv, rekkefolge@, idx as int, status@, komponentliste(komponenter@))
                    == komponenter_fra(inv, rekkefolge@, idx + 1, status@, komponentliste(komponenter@)));
            }
            idx = idx + 1;
        }
        proof {
            let sam = samlet(komponentliste(komponenter@));
            assert forall|v: int| 0 <= v < n implies #[trigger] har(sam, v) by {
                lemma_permutasjon_har_alle(rekkefolge@, n as int, v);
                let i = choose|i: int| 0 <= i < n && #[trigger] rekkefolge@[i] == v;
                assert(status@[rekkefolge@[i] as int]);
            }
            lemma_permutasjon_lengde(sam, n as int);
            let k = komponentliste(komponenter@);
            assert forall|i1: int, j1: int, i2: int, j2: int|
                0 <= i1 < k.len() && 0 <= j1 < k[i1].len() && 0 <= i2 < k.len() && 0 <= j2 < k[i2].len() implies
                (gjensidig(g, #[trigger] k[i1][j1] as int, #[trigger] k[i2][j2] as int) <==> i1 == i2) by {
                if i1 == i2 {
                    assert(gjensidig(g, k[i1][j1] as int, k[i1].last() as int));
                    assert(gjensidig(g, k[i2][j2] as int, k[i2].last() as int));
                    lemma_gjensidig_trans(g, k[i1][j1] as int, k[i1].last() as int, k[i2][j2] as int);
                }
                if gjensidig(g, k[i1][j1] as int, k[i2][j2] as int) {
                    assert(naar(g, k[i1][j1] as int, k[i2][j2] as int));
                    assert(naar(g, k[i2][j2] as int, k[i1][j1] as int));
                }
            }
        }
        komponenter
    }

    /// Bygger grafen fra første linje (antall noder og kanter) og resten av
    /// linjene (én kant per linje, fra og til).
    pub fn fra_linjer(forste: &str, linjer: &Vec<Option<String>>) -> (res: Result<Self, GrafFeil>)
        ensures
            match graf_fra_linjer(forste@, linjer_av(linjer@)) {
                Ok((n, k)) => res matches Ok(g) && g@ == med_kanter(n as nat, k) && g.er_gyldig(),
                Err(e) => res == Err::<Graf, GrafFeil>(e),
            },
    {
        let ghost ls = linjer_av(linjer@);
        let forste_tall = les_tall_linje(forste, 2);
        let (kapasitet, forventet_antall_kanter) = match forste_tall {
            Ok(v) => (v[0], v[1]),
            Err((i, mangler)) => {
                if mangler {
                    return Err(GrafFeil::ManglerTallForst);
                } else if i == 0 {
                    return Err(GrafFeil::AntallNoder);
                } else {
                    return Err(GrafFeil::AntallKanter);
                }
            },
        };
        let mut graf = Graf::opprett(kapasitet);
        let mut lest_antall_kanter: usize = 0;
        let ghost mut kanter: Seq<(usize, usize)> = Seq::empty();
        proof {
            assert(graf@ =~= med_kanter(kapasitet as nat, kanter));
        }
        let mut i: usize = 0;
        while i < linjer.len()
            invariant
                ls == linjer_av(linjer@),
                les_forste(forste@) == Ok::<(usize, usize), GrafFeil>((kapasitet, forventet_antall_kanter)),
                i <= linjer@.len(),
                les_kanter(ls, kapasitet, i as int, kanter) == les_kanter(ls, kapasitet, 0, Seq::empty()),
                graf@ == med_kanter(kapasitet as nat, kanter),
                graf@.len() == kapasitet,
                graf.er_gyldig(),
                lest_antall_kanter == kanter.len(),
                lest_antall_kanter <= i,
            decreases linjer@.len() - i,
        {
            match &linjer[i] {
                Some(linje) => {
                    assert(ls[i as int] == Some(linje@));
                    let tall = les_tall_linje(linje.as_str(), 2);
                    match tall {
                        Ok(v) => {
                            let fra = v[0];
                            let til = v[1];
                            match graf.legg_til_kant(fra, til) {
                                Ok(_) => {
                                    lest_antall_kanter += 1;
                                    proof {
                                        let nye = kanter.push((fra, til));
                                        assert(nye.drop_last() =~= kanter);
                                        kanter = nye;
                                    }
                                },
                                Err(_) => {
                                    return Err(GrafFeil::UkjentNode { fra, til, antall_noder: graf.antall_noder() });
                                },
                            }
                        },
                        Err((_, mangler)) => {
                            if mangler {
                                return Err(GrafFeil::ManglerTall { linjenummer: i });
                            } else {
                                return Err(GrafFeil::Nodetall { linjenummer: i });
                            }
                        },
                    }
                },
                None => {
                    assert(ls[i as int] is None);
                },
            }
            i = i + 1;
        }
        assert(les_kanter(ls, kapasitet, i as int, kanter) == Ok::<Seq<(usize, usize)>, GrafFeil>(kanter));
        if lest_antall_kanter != forventet_antall_kanter {
            return Err(GrafFeil::AntallKanterStemmerIkke { forventet: forventet_antall_kanter, lest: lest_antall_kanter });
        }
        Ok(graf)
    }
}

} // verus!
