//! Stier, dybde-først-søk og rekkefølgen det gir: grunnlaget for at
//! komponentene Kosarajus algoritme finner er de sterkt koblede.
use vstd::prelude::*;
use crate::grafkomponenter::{
    er_sti, ferdig, gyldig_graf, har, invertert_spec, kant, naar, samlet, lemma_naar_kant, lemma_naar_selv,
    lov_invertert_kant,
};

verus! {

/// `a` og `b` når hverandre.
pub open spec fn gjensidig(g: Seq<Seq<usize>>, a: int, b: int) -> bool {
    naar(g, a, b) && naar(g, b, a)
}

/// Noden er besøkt, men ikke ferdig.
pub open spec fn gra(s: Seq<bool>, f: Seq<usize>, v: int) -> bool {
    0 <= v < s.len() && s[v] && !har(f, v)
}

/// Alle grå noder når `x`.
pub open spec fn kjede(g: Seq<Seq<usize>>, s: Seq<bool>, f: Seq<usize>, x: int) -> bool {
    forall|z: int| #[trigger] gra(s, f, z) ==> naar(g, z, x)
}

/// Tilstanden i et dybde-først-søk med besøkte noder `s` og ferdige noder
/// `f` i den rekkefølgen de ble ferdige: en ferdig node har bare besøkte
/// naboer; når en ferdig node en node som ikke er ferdig, har den en grå
/// node den når og nås fra; og når `v` den ferdige noden `f[i]` uten å nås
/// tilbake, er en node `v` når og nås fra ikke ferdig før `f[i]`.
pub open spec fn dfs_tilstand(g: Seq<Seq<usize>>, s: Seq<bool>, f: Seq<usize>) -> bool {
    &&& s.len() == g.len()
    &&& g.len() <= usize::MAX
    &&& gyldig_graf(g)
    &&& forall|v: int| #[trigger] har(f, v) ==> 0 <= v < g.len() && s[v] && ferdig(g, s, v)
    &&& forall|v: int, y: int| har(f, v) && #[trigger] naar(g, v, y) && !har(f, y)
        ==> exists|z: int| #[trigger] gra(s, f, z) && gjensidig(g, v, z)
    &&& forall|i: int, v: int| 0 <= i < f.len() && #[trigger] naar(g, v, f[i] as int) && !naar(g, f[i] as int, v)
        ==> exists|u: int| #[trigger] gjensidig(g, u, v) && !har(f.take(i + 1), u)
}

/// Rekkefølgen første pass i Kosarajus algoritme gir: når `v` noden `o[i]`
/// uten å nås fra den, står en node `v` når og nås fra foran `o[i]`.
pub open spec fn kosaraju_orden(g: Seq<Seq<usize>>, o: Seq<usize>) -> bool {
    forall|i: int, v: int| 0 <= i < o.len() && #[trigger] naar(g, v, o[i] as int) && !naar(g, o[i] as int, v)
        ==> exists|u: int| #[trigger] gjensidig(g, u, v) && har(o.take(i), u)
}

/// Nodene i en sti finnes.
pub proof fn lemma_naar_gyldig(g: Seq<Seq<usize>>, a: int, b: int)
    requires
        naar(g, a, b),
    ensures
        0 <= a < g.len(),
        0 <= b < g.len(),
{
    let p = choose|p: Seq<int>| #[trigger] er_sti(g, p) && p[0] == a && p.last() == b;
    assert(0 <= p[0] < g.len());
    assert(0 <= p[p.len() - 1] < g.len());
}

/// En del av en sti er en sti.
pub proof fn lemma_naar_del(g: Seq<Seq<usize>>, p: Seq<int>, i: int, j: int)
    requires
        er_sti(g, p),
        0 <= i <= j < p.len(),
    ensures
        naar(g, p[i], p[j]),
{
    let q = p.subrange(i, j + 1);
    assert forall|k: int| 0 <= k < q.len() implies 0 <= #[trigger] q[k] < g.len() by {
        assert(q[k] == p[i + k]);
    }
    assert forall|k: int| 0 <= k < q.len() - 1 implies #[trigger] kant(g, q[k], q[k + 1]) by {
        assert(q[k] == p[i + k] && q[k + 1] == p[i + k + 1]);
        assert(kant(g, p[i + k], p[(i + k) + 1]));
    }
    assert(er_sti(g, q));
    assert(q[0] == p[i] && q.last() == p[j]);
}

/// Når `a` når `b` og `b` når `c`, når `a` `c`.
pub proof fn lemma_naar_trans(g: Seq<Seq<usize>>, a: int, b: int, c: int)
    requires
        naar(g, a, b),
        naar(g, b, c),
    ensures
        naar(g, a, c),
{
    let p = choose|p: Seq<int>| #[trigger] er_sti(g, p) && p[0] == a && p.last() == b;
    let q = choose|q: Seq<int>| #[trigger] er_sti(g, q) && q[0] == b && q.last() == c;
    let r = p + q.skip(1);
    let m = p.len() - 1;
    assert forall|k: int| 0 <= k < r.len() implies 0 <= #[trigger] r[k] < g.len() by {
        if k < p.len() {
            assert(r[k] == p[k]);
        } else {
            assert(r[k] == q[k - m]);
        }
    }
    assert forall|k: int| 0 <= k < r.len() - 1 implies #[trigger] kant(g, r[k], r[k + 1]) by {
        if k < m {
            assert(r[k] == p[k] && r[k + 1] == p[k + 1]);
            assert(kant(g, p[k], p[k + 1]));
        } else {
            assert(r[k] == q[k - m]);
            assert(r[k + 1] == q[k - m + 1]);
            assert(kant(g, q[k - m], q[(k - m) + 1]));
        }
    }
    assert(er_sti(g, r));
    assert(r[0] == a);
    if q.len() == 1 {
        assert(r =~= p);
    } else {
        assert(r.last() == q.last());
    }
}

/// Å nå hverandre er transitivt.
pub proof fn lemma_gjensidig_trans(g: Seq<Seq<usize>>, a: int, b: int, c: int)
    requires
        gjensidig(g, a, b),
        gjensidig(g, b, c),
    ensures
        gjensidig(g, a, c),
{
    lemma_naar_trans(g, a, b, c);
    lemma_naar_trans(g, c, b, a);
}

/// I en sti fra en besøkt node til en ubesøkt finnes et steg fra en
/// besøkt node til en ubesøkt, fra og med plass `j`.
proof fn lemma_forste_ubesokte(g: Seq<Seq<usize>>, s: Seq<bool>, p: Seq<int>, j: int) -> (k: int)
    requires
        er_sti(g, p),
        0 <= j < p.len(),
        s[p[j]],
        !s[p.last()],
    ensures
        j <= k < p.len() - 1,
        s[p[k]],
        !s[p[k + 1]],
    decreases p.len() - j,
{
    if !s[p[j + 1]] {
        j
    } else {
        lemma_forste_ubesokte(g, s, p, j + 1)
    }
}

/// En sti fra en besøkt node til en ubesøkt går gjennom en besøkt node som
/// ikke er ferdig.
pub proof fn lemma_sti_ut(g: Seq<Seq<usize>>, s: Seq<bool>, a: int, y: int) -> (z: int)
    requires
        naar(g, a, y),
        s[a],
        !s[y],
    ensures
        0 <= z < g.len(),
        s[z],
        !ferdig(g, s, z),
        naar(g, a, z),
        naar(g, z, y),
{
    let p = choose|p: Seq<int>| #[trigger] er_sti(g, p) && p[0] == a && p.last() == y;
    let k = lemma_forste_ubesokte(g, s, p, 0);
    assert(kant(g, p[k], p[k + 1]));
    lemma_naar_del(g, p, 0, k);
    lemma_naar_del(g, p, k, p.len() - 1);
    p[k]
}

/// En liste med ett element til har det og det den hadde.
pub proof fn lemma_har_push(s: Seq<usize>, x: usize, v: int)
    ensures
        har(s.push(x), v) <==> (har(s, v) || v == x),
{
    if har(s, v) {
        let k = choose|k: int| 0 <= k < s.len() && #[trigger] s[k] == v;
        assert(s.push(x)[k] == v);
    }
    if v == x {
        assert(s.push(x)[s.len() as int] == v);
    }
    if har(s.push(x), v) {
        let k = choose|k: int| 0 <= k < s.push(x).len() && #[trigger] s.push(x)[k] == v;
        if k < s.len() {
            assert(s[k] == v);
        }
    }
}

/// To lister etter hverandre har det hver av dem har.
pub proof fn lemma_har_pluss(s: Seq<usize>, t: Seq<usize>, v: int)
    ensures
        har(s + t, v) <==> (har(s, v) || har(t, v)),
{
    if har(s, v) {
        let k = choose|k: int| 0 <= k < s.len() && #[trigger] s[k] == v;
        assert((s + t)[k] == v);
    }
    if har(t, v) {
        let k = choose|k: int| 0 <= k < t.len() && #[trigger] t[k] == v;
        assert((s + t)[s.len() + k] == v);
    }
    if har(s + t, v) {
        let k = choose|k: int| 0 <= k < (s + t).len() && #[trigger] (s + t)[k] == v;
        if k < s.len() {
            assert(s[k] == v);
        } else {
            assert(t[k - s.len()] == v);
        }
    }
}

/// Å besøke en ny node bevarer tilstanden, og noden blir grå.
pub proof fn lemma_oppdag(g: Seq<Seq<usize>>, s: Seq<bool>, f: Seq<usize>, y: int)
    requires
        dfs_tilstand(g, s, f),
        0 <= y < s.len(),
        !s[y],
    ensures
        dfs_tilstand(g, s.update(y, true), f),
        forall|z: int| #[trigger] gra(s.update(y, true), f, z) <==> (gra(s, f, z) || z == y),
{
    let t = s.update(y, true);
    assert(!har(f, y));
    assert forall|v: int| #[trigger] har(f, v) implies 0 <= v < g.len() && t[v] && ferdig(g, t, v) by {
        assert(ferdig(g, s, v));
        assert forall|b: int| #[trigger] kant(g, v, b) implies t[b] by {
            assert(s[b]);
            let k = choose|k: int| 0 <= k < g[v].len() && #[trigger] g[v][k] == b;
            assert(g[v][k] < g.len());
        }
    }
    assert forall|v: int, w: int| har(f, v) && #[trigger] naar(g, v, w) && !har(f, w) implies exists|z: int|
        #[trigger] gra(t, f, z) && gjensidig(g, v, z) by {
        let z = choose|z: int| #[trigger] gra(s, f, z) && gjensidig(g, v, z);
        assert(gra(t, f, z));
    }
}

/// Å gjøre en grå node ferdig bevarer tilstanden, når den har bare besøkte
/// naboer og alle grå noder når den.
pub proof fn lemma_avslutt(g: Seq<Seq<usize>>, s: Seq<bool>, f: Seq<usize>, x: int)
    requires
        dfs_tilstand(g, s, f),
        gra(s, f, x),
        ferdig(g, s, x),
        kjede(g, s, f, x),
    ensures
        dfs_tilstand(g, s, f.push(x as usize)),
        forall|z: int| #[trigger] gra(s, f.push(x as usize), z) <==> (gra(s, f, z) && z != x),
{
    let f2 = f.push(x as usize);
    assert(x as usize as int == x);
    assert forall|v: int| #[trigger] har(f2, v) <==> (har(f, v) || v == x) by {
        lemma_har_push(f, x as usize, v);
    }
    assert forall|v: int| #[trigger] har(f2, v) implies 0 <= v < g.len() && s[v] && ferdig(g, s, v) by {
        if v != x {
            assert(har(f, v));
        }
    }
    assert forall|y: int| #[trigger] naar(g, x, y) && !har(f2, y) implies exists|z: int|
        #[trigger] gra(s, f2, z) && gjensidig(g, x, z) by {
        lemma_naar_gyldig(g, x, y);
        if s[y] {
            assert(gra(s, f, y));
            assert(naar(g, y, x));
            assert(gra(s, f2, y));
        } else {
            let z = lemma_sti_ut(g, s, x, y);
            assert(!har(f, z));
            assert(gra(s, f, z));
            assert(naar(g, z, x));
            assert(gra(s, f2, z));
        }
    }
    assert forall|v: int, y: int| har(f2, v) && #[trigger] naar(g, v, y) && !har(f2, y) implies exists|z: int|
        #[trigger] gra(s, f2, z) && gjensidig(g, v, z) by {
        if v != x {
            assert(har(f, v));
            let z = choose|z: int| #[trigger] gra(s, f, z) && gjensidig(g, v, z);
            if z != x {
                assert(gra(s, f2, z));
            } else {
                lemma_naar_trans(g, x, v, y);
                assert(naar(g, x, y));
                let z2 = choose|z2: int| #[trigger] gra(s, f2, z2) && gjensidig(g, x, z2);
                lemma_gjensidig_trans(g, v, x, z2);
                assert(gra(s, f2, z2) && gjensidig(g, v, z2));
            }
        }
    }
    assert forall|i: int, v: int| 0 <= i < f2.len() && #[trigger] naar(g, v, f2[i] as int) && !naar(g, f2[i] as int, v)
        implies exists|u: int| #[trigger] gjensidig(g, u, v) && !har(f2.take(i + 1), u) by {
        if i < f.len() {
            assert(f2[i] == f[i]);
            assert(f2.take(i + 1) =~= f.take(i + 1));
        } else {
            assert(f2[i] == x);
            assert(f2.take(i + 1) =~= f2);
            lemma_naar_gyldig(g, v, x);
            if !har(f2, v) {
                lemma_naar_selv(g, v);
                assert(gjensidig(g, v, v));
            } else {
                if v == x {
                    lemma_naar_selv(g, x);
                }
                assert(har(f, v));
                assert(!har(f, x));
                let z = choose|z: int| #[trigger] gra(s, f, z) && gjensidig(g, v, z);
                assert(z != x);
                assert(!har(f2, z));
                assert(gjensidig(g, z, v));
            }
        }
    }
    assert forall|z: int| #[trigger] gra(s, f2, z) <==> (gra(s, f, z) && z != x) by {
        if 0 <= z < s.len() {
            assert(har(f2, z) <==> (har(f, z) || z == x));
        }
    }
}

/// Nodene som blir besøkt under et kall blir også ferdige under det, så de
/// grå nodene er de samme før og etter.
pub proof fn lemma_gra_uendret(s1: Seq<bool>, r1: Seq<usize>, s2: Seq<bool>, r2: Seq<usize>)
    requires
        s1.len() == s2.len(),
        forall|v: int| 0 <= v < s1.len() && #[trigger] s1[v] ==> s2[v],
        r2.len() >= r1.len(),
        r2.take(r1.len() as int) == r1,
        forall|v: int| 0 <= v < s1.len() ==> (!s1[v] && s2[v] <==> #[trigger] har(r2.skip(r1.len() as int), v)),
    ensures
        forall|z: int| #[trigger] gra(s2, r2, z) <==> gra(s1, r1, z),
{
    let ny = r2.skip(r1.len() as int);
    assert(r2 =~= r1 + ny);
    assert forall|z: int| #[trigger] gra(s2, r2, z) <==> gra(s1, r1, z) by {
        if 0 <= z < s1.len() {
            lemma_har_pluss(r1, ny, z);
            assert(har(ny, z) <==> (!s1[z] && s2[z]));
        }
    }
}

/// Ett steg i et dybde-først-søk fra `node`: besøk naboen `nabo`, søk fra
/// den, og gjør den ferdig. Tilstanden bevares og de grå nodene er de samme.
pub proof fn lemma_dfs_steg(
    g: Seq<Seq<usize>>,
    s0: Seq<bool>,
    r0: Seq<usize>,
    node: int,
    s1: Seq<bool>,
    r1: Seq<usize>,
    nabo: int,
    s2: Seq<bool>,
    r2: Seq<usize>,
)
    requires
        dfs_tilstand(g, s1, r1),
        forall|z: int| #[trigger] gra(s1, r1, z) <==> gra(s0, r0, z),
        kjede(g, s0, r0, node),
        kant(g, node, nabo),
        0 <= nabo < s1.len(),
        !s1[nabo],
        s2.len() == s1.len(),
        forall|v: int| 0 <= v < s1.len() && #[trigger] s1.update(nabo, true)[v] ==> s2[v],
        r2.len() >= r1.len(),
        r2.take(r1.len() as int) == r1,
        forall|v: int| 0 <= v < s1.len() ==> (!s1.update(nabo, true)[v] && s2[v] <==> #[trigger] har(r2.skip(r1.len() as int), v)),
        ferdig(g, s2, nabo),
        (dfs_tilstand(g, s1.update(nabo, true), r1) && gra(s1.update(nabo, true), r1, nabo)
            && kjede(g, s1.update(nabo, true), r1, nabo)) ==> dfs_tilstand(g, s2, r2),
    ensures
        dfs_tilstand(g, s2, r2.push(nabo as usize)),
        forall|z: int| #[trigger] gra(s2, r2.push(nabo as usize), z) <==> gra(s0, r0, z),
{
    let s1u = s1.update(nabo, true);
    lemma_oppdag(g, s1, r1, nabo);
    assert(!har(r1, nabo));
    assert(gra(s1u, r1, nabo));
    lemma_naar_selv(g, nabo);
    lemma_naar_kant(g, node, nabo, nabo);
    assert forall|z: int| #[trigger] gra(s1u, r1, z) implies naar(g, z, nabo) by {
        if z != nabo {
            assert(gra(s0, r0, z));
            lemma_naar_trans(g, z, node, nabo);
        }
    }
    assert(dfs_tilstand(g, s2, r2));
    lemma_gra_uendret(s1u, r1, s2, r2);
    assert(gra(s2, r2, nabo));
    assert forall|z: int| #[trigger] gra(s2, r2, z) implies naar(g, z, nabo) by {
        assert(gra(s1u, r1, z));
    }
    lemma_avslutt(g, s2, r2, nabo);
}

/// Når alle nodene er ferdige, gir rekkefølgen de ble ferdige i baklengs
/// den rekkefølgen Kosarajus algoritme trenger.
pub proof fn lemma_kosaraju_orden(g: Seq<Seq<usize>>, s: Seq<bool>, f: Seq<usize>)
    requires
        dfs_tilstand(g, s, f),
        forall|v: int| 0 <= v < g.len() ==> #[trigger] har(f, v),
    ensures
        kosaraju_orden(g, f.reverse()),
{
    let o = f.reverse();
    let n = f.len();
    assert forall|i: int, v: int| 0 <= i < o.len() && #[trigger] naar(g, v, o[i] as int) && !naar(g, o[i] as int, v)
        implies exists|u: int| #[trigger] gjensidig(g, u, v) && har(o.take(i), u) by {
        let j = n - 1 - i;
        assert(o[i] == f[j]);
        assert(naar(g, v, f[j] as int));
        let u = choose|u: int| #[trigger] gjensidig(g, u, v) && !har(f.take(j + 1), u);
        lemma_naar_gyldig(g, u, v);
        assert(har(f, u));
        let k = choose|k: int| 0 <= k < f.len() && #[trigger] f[k] == u;
        if k <= j {
            assert(f.take(j + 1)[k] == u);
        }
        assert(o.take(i)[n - 1 - k] == u);
    }
}

/// De besøkte nodene har bare besøkte naboer.
pub open spec fn lukket(g: Seq<Seq<usize>>, s: Seq<bool>) -> bool {
    forall|v: int| 0 <= v < s.len() && #[trigger] s[v] ==> ferdig(g, s, v)
}

/// Hver node i en komponent når og nås fra roten, som står sist.
pub open spec fn rundt_roten(g: Seq<Seq<usize>>, k: Seq<Seq<usize>>) -> bool {
    forall|i: int, j: int| 0 <= i < k.len() && 0 <= j < k[i].len() ==> {
        &&& k[i][j] < g.len()
        &&& gjensidig(g, #[trigger] k[i][j] as int, k[i].last() as int)
    }
}

/// En node i en komponent når bare noder i den og i senere komponenter.
pub open spec fn naar_framover(g: Seq<Seq<usize>>, k: Seq<Seq<usize>>) -> bool {
    forall|i1: int, j1: int, i2: int, j2: int|
        0 <= i1 < k.len() && 0 <= j1 < k[i1].len() && 0 <= i2 < k.len() && 0 <= j2 < k[i2].len()
            && #[trigger] naar(g, k[i1][j1] as int, k[i2][j2] as int) ==> i1 <= i2
}

/// Nodene i en komponent er med når komponentene samles.
pub proof fn lemma_samlet_har(k: Seq<Seq<usize>>, i: int, j: int)
    requires
        0 <= i < k.len(),
        0 <= j < k[i].len(),
    ensures
        har(samlet(k), k[i][j] as int),
    decreases k.len(),
{
    let forrige = k.drop_last();
    lemma_har_pluss(samlet(forrige), k.last(), k[i][j] as int);
    if i < k.len() - 1 {
        assert(forrige[i] == k[i]);
        lemma_samlet_har(forrige, i, j);
    } else {
        assert(k.last()[j] == k[i][j]);
    }
}

/// Har de besøkte nodene bare besøkte naboer i den inverterte grafen, er
/// alle noder som når en besøkt node besøkt, fra plass `j` i stien og bakover.
proof fn lemma_lukket_fra(g: Seq<Seq<usize>>, s: Seq<bool>, p: Seq<int>, j: int)
    requires
        gyldig_graf(g),
        g.len() <= usize::MAX,
        s.len() == g.len(),
        lukket(invertert_spec(g), s),
        er_sti(g, p),
        0 <= j < p.len(),
        s[p[j]],
    ensures
        s[p[0]],
    decreases j,
{
    if j > 0 {
        assert(kant(g, p[j - 1], p[(j - 1) + 1]));
        lov_invertert_kant(g, p[j], p[j - 1]);
        assert(ferdig(invertert_spec(g), s, p[j]));
        assert(s[p[j - 1]]);
        lemma_lukket_fra(g, s, p, j - 1);
    }
}

/// Har de besøkte nodene bare besøkte naboer i den inverterte grafen, er
/// hver node som når en besøkt node besøkt.
pub proof fn lemma_lukket(g: Seq<Seq<usize>>, s: Seq<bool>, a: int, b: int)
    requires
        gyldig_graf(g),
        g.len() <= usize::MAX,
        s.len() == g.len(),
        lukket(invertert_spec(g), s),
        naar(g, a, b),
        s[b],
    ensures
        s[a],
{
    let p = choose|p: Seq<int>| #[trigger] er_sti(g, p) && p[0] == a && p.last() == b;
    lemma_lukket_fra(g, s, p, p.len() - 1);
}

/// En ny komponent fra roten `o[idx]` med noder som ikke var besøkt og som
/// når roten: roten når dem alle, og ingen av dem når noe i en tidligere
/// komponent.
pub proof fn lemma_ny_komponent(
    g: Seq<Seq<usize>>,
    o: Seq<usize>,
    idx: int,
    s1: Seq<bool>,
    k1: Seq<Seq<usize>>,
    c: Seq<usize>,
)
    requires
        gyldig_graf(g),
        g.len() <= usize::MAX,
        s1.len() == g.len(),
        kosaraju_orden(g, o),
        0 <= idx < o.len(),
        forall|i: int| 0 <= i < idx ==> s1[#[trigger] o[i] as int],
        lukket(invertert_spec(g), s1),
        forall|v: int| 0 <= v < g.len() && #[trigger] har(samlet(k1), v) ==> s1[v],
        rundt_roten(g, k1),
        naar_framover(g, k1),
        c.len() >= 1,
        c[0] == o[idx],
        forall|j: int| 0 <= j < c.len() ==> #[trigger] c[j] < g.len() && !s1[c[j] as int]
            && naar(g, c[j] as int, o[idx] as int),
    ensures
        rundt_roten(g, k1.push(c.reverse())),
        naar_framover(g, k1.push(c.reverse())),
{
    let k2 = k1.push(c.reverse());
    let rot = o[idx] as int;
    let cr = c.reverse();
    assert(cr.last() == c[0]);
    assert forall|j: int| 0 <= j < c.len() implies #[trigger] gjensidig(g, c[j] as int, rot) by {
        let m = c[j] as int;
        assert(c[j] < g.len() && !s1[m] && naar(g, m, rot));
        if !naar(g, rot, m) {
            let u = choose|u: int| #[trigger] gjensidig(g, u, m) && har(o.take(idx), u);
            let k = choose|k: int| 0 <= k < o.take(idx).len() && #[trigger] o.take(idx)[k] == u;
            assert(o[k] == o.take(idx)[k]);
            assert(s1[o[k] as int]);
            lemma_lukket(g, s1, m, u);
        }
    }
    assert forall|i: int, j: int| 0 <= i < k2.len() && 0 <= j < k2[i].len() implies {
        &&& k2[i][j] < g.len()
        &&& gjensidig(g, #[trigger] k2[i][j] as int, k2[i].last() as int)
    } by {
        if i < k1.len() {
            assert(k2[i] == k1[i]);
        } else {
            assert(k2[i] == cr);
            assert(cr[j] == c[c.len() - 1 - j]);
            assert(c[c.len() - 1 - j] < g.len());
            assert(gjensidig(g, c[c.len() - 1 - j] as int, rot));
        }
    }
    assert forall|i1: int, j1: int, i2: int, j2: int|
        0 <= i1 < k2.len() && 0 <= j1 < k2[i1].len() && 0 <= i2 < k2.len() && 0 <= j2 < k2[i2].len()
            && #[trigger] naar(g, k2[i1][j1] as int, k2[i2][j2] as int) implies i1 <= i2 by {
        if i1 < k1.len() && i2 < k1.len() {
            assert(k2[i1] == k1[i1] && k2[i2] == k1[i2]);
        } else if i1 == k1.len() && i2 < k1.len() {
            assert(k2[i2] == k1[i2]);
            lemma_samlet_har(k1, i2, j2);
            let b = k1[i2][j2] as int;
            assert(rundt_roten(g, k1));
            assert(k1[i2][j2] < g.len());
            assert(s1[b]);
            assert(k2[i1] == cr);
            let a = cr[j1] as int;
            assert(cr[j1] == c[c.len() - 1 - j1]);
            assert(c[c.len() - 1 - j1] < g.len() && !s1[a]);
            lemma_lukket(g, s1, a, b);
        }
    }
}

} // verus!
