//! En binær min-heap over elementer med en vekt og en ordning, med mulighet
//! for å endre vekten til et element som ligger i heapen. Når et element
//! flyttes oppover, sammenlignes vektene; når det flyttes nedover, brukes
//! ordningen til elementene.
use vstd::prelude::*;
use vstd::pervasive::VecAdditionalExecFns;
use vstd::std_specs::cmp::PartialEqSpec;

verus! {

/// Elementer som har en vekt heapen ordnes etter.
pub trait Vektet: Sized {
    /// Vekten til elementet.
    spec fn vekt_spec(&self) -> usize;

    /// Elementet med vekten satt til `vekt`.
    spec fn med_vekt(&self, vekt: usize) -> Self;

    fn vekt(&self) -> (res: usize)
        ensures
            res == self.vekt_spec(),
    ;

    fn sett_vekt(&mut self, vekt: usize)
        ensures
            *final(self) == old(self).med_vekt(vekt),
            final(self).vekt_spec() == vekt,
    ;

    /// Elementet med en satt vekt har den vekten.
    proof fn lemma_med_vekt(&self, vekt: usize)
        ensures
            self.med_vekt(vekt).vekt_spec() == vekt,
    ;

    /// Elementet kommer før `annet` i ordningen til elementene.
    spec fn foran(&self, annet: &Self) -> bool;

    fn er_foran(&self, annet: &Self) -> (res: bool)
        ensures
            res == self.foran(annet),
    ;

    /// Ordningen følger vekten: et element som kommer før et annet, er ikke
    /// tyngre, et lettere element kommer før, og intet element kommer før
    /// seg selv.
    proof fn lemma_foran(&self, annet: &Self)
        ensures
            self.foran(annet) ==> self.vekt_spec() <= annet.vekt_spec(),
            self.vekt_spec() < annet.vekt_spec() ==> self.foran(annet),
            !self.foran(self),
    ;
}

impl Vektet for usize {
    open spec fn vekt_spec(&self) -> usize {
        *self
    }

    open spec fn med_vekt(&self, vekt: usize) -> usize {
        vekt
    }

    fn vekt(&self) -> (res: usize) {
        *self
    }

    fn sett_vekt(&mut self, vekt: usize) {
        *self = vekt;
    }

    proof fn lemma_med_vekt(&self, vekt: usize) {
    }

    open spec fn foran(&self, annet: &usize) -> bool {
        *self < *annet
    }

    fn er_foran(&self, annet: &usize) -> (res: bool) {
        *self < *annet
    }

    proof fn lemma_foran(&self, annet: &usize) {
    }
}

/// Vekten til et element.
pub open spec fn w<T: Vektet>(x: T) -> int {
    x.vekt_spec() as int
}

/// `a` kommer før `b` i ordningen til elementene.
pub open spec fn f<T: Vektet>(a: T, b: T) -> bool {
    a.foran(&b)
}

/// Ordningen følger vekten.
pub proof fn lemma_f<T: Vektet>(a: T, b: T)
    ensures
        f(a, b) ==> w(a) <= w(b),
        w(a) < w(b) ==> f(a, b),
        !f(a, a),
{
    a.lemma_foran(&b);
    a.lemma_foran(&a);
}

/// Forelderen til posisjon `i`.
pub open spec fn forelder(i: int) -> int {
    (i - 1) / 2
}

/// Bytter plass på elementene `i` og `j`.
pub open spec fn bytt<T>(s: Seq<T>, i: int, j: int) -> Seq<T> {
    s.update(i, s[j]).update(j, s[i])
}

/// Ingen element er lettere enn forelderen sin.
pub open spec fn er_heap<T: Vektet>(s: Seq<T>) -> bool {
    forall|j: int| 0 < j < s.len() ==> w(#[trigger] s[forelder(j)]) <= w(s[j])
}

/// Flytter elementet i posisjon `i` nedover så lenge barnet som kommer først
/// i ordningen kommer før det, og velger det venstre barnet når det høyre
/// ikke kommer før det.
pub open spec fn fiks<T: Vektet>(s: Seq<T>, i: int) -> Seq<T>
    decreases s.len() - i,
{
    let m0 = 2 * i + 1;
    if i < 0 || m0 >= s.len() {
        s
    } else {
        let m = if m0 + 1 < s.len() && f(s[m0 + 1], s[m0]) {
            m0 + 1
        } else {
            m0
        };
        if f(s[m], s[i]) {
            fiks(bytt(s, i, m), m)
        } else {
            s
        }
    }
}

/// Gjør elementene fra og med posisjon `i - 1` ned til 0 til heaper.
pub open spec fn lag_fra<T: Vektet>(s: Seq<T>, i: int) -> Seq<T>
    decreases i,
{
    if i <= 0 {
        s
    } else {
        lag_fra(fiks(s, i - 1), i - 1)
    }
}

/// Heapen `fra_liste` lager av elementene.
pub open spec fn lag_heap_spec<T: Vektet>(s: Seq<T>) -> Seq<T> {
    lag_fra(s, (s.len() / 2) as int)
}

/// Flytter elementet i posisjon `i` oppover så lenge det er lettere enn
/// forelderen. Gir heapen og posisjonen elementet endte på.
pub open spec fn opp<T: Vektet>(s: Seq<T>, i: int) -> (Seq<T>, int)
    decreases i,
{
    if i > 0 && i < s.len() && w(s[i]) < w(s[forelder(i)]) {
        opp(bytt(s, i, forelder(i)), forelder(i))
    } else {
        (s, i)
    }
}

/// Heapen etter `push`.
pub open spec fn push_spec<T: Vektet>(s: Seq<T>, x: T) -> Seq<T> {
    let r = opp(s.push(x), s.len() as int);
    fiks(r.0, r.1)
}

/// Elementet `pop` gir, og heapen etterpå.
pub open spec fn pop_spec<T: Vektet>(s: Seq<T>) -> (Option<T>, Seq<T>) {
    if s.len() == 0 {
        (None, s)
    } else {
        (Some(s[0]), fiks(s.update(0, s.last()), 0).drop_last())
    }
}

/// Heapen etter `endre_vekt`.
pub open spec fn endre_spec<T: Vektet>(s: Seq<T>, i: int, vekt: usize) -> Seq<T> {
    if 0 <= i < s.len() {
        let t = s.update(i, s[i].med_vekt(vekt));
        if vekt > s[i].vekt_spec() {
            fiks(t, i)
        } else {
            opp(t, i).0
        }
    } else {
        s
    }
}

/// Hvor mange ganger `x` forekommer i `s`.
pub open spec fn teller<T>(s: Seq<T>, x: T) -> nat
    decreases s.len(),
{
    if s.len() == 0 {
        0
    } else {
        teller(s.drop_last(), x) + if s.last() == x {
            1nat
        } else {
            0nat
        }
    }
}

/// `x` forekommer i `s` nøyaktig når en posisjon har `x`.
pub proof fn lemma_teller_indeks<T>(s: Seq<T>, x: T)
    ensures
        teller(s, x) > 0 <==> exists|k: int| 0 <= k < s.len() && s[k] == x,
    decreases s.len(),
{
    if s.len() > 0 {
        lemma_teller_indeks(s.drop_last(), x);
        if exists|k: int| 0 <= k < s.drop_last().len() && s.drop_last()[k] == x {
            let k = choose|k: int| 0 <= k < s.drop_last().len() && s.drop_last()[k] == x;
            assert(s[k] == x);
        }
        if exists|k: int| 0 <= k < s.len() && s[k] == x {
            let k = choose|k: int| 0 <= k < s.len() && s[k] == x;
            if k < s.len() - 1 {
                assert(s.drop_last()[k] == x);
            }
        }
    }
}

/// To ulike posisjoner med `x` gir minst to forekomster.
pub proof fn lemma_teller_to<T>(s: Seq<T>, x: T, i: int, j: int)
    requires
        0 <= i < j < s.len(),
        s[i] == x,
        s[j] == x,
    ensures
        teller(s, x) >= 2,
    decreases s.len(),
{
    if j < s.len() - 1 {
        assert(s.drop_last()[i] == x && s.drop_last()[j] == x);
        lemma_teller_to(s.drop_last(), x, i, j);
    } else {
        assert(s.drop_last()[i] == x);
        lemma_teller_indeks(s.drop_last(), x);
    }
}

/// `s` og `t` har de samme elementene, med samme antall forekomster.
pub open spec fn samme_elementer<T>(s: Seq<T>, t: Seq<T>) -> bool {
    forall|x: T| #[trigger] teller(s, x) == teller(t, x)
}

/// En min-heap.
#[derive(Debug)]
pub struct MinHeap<T: Copy + Vektet> {
    data: Vec<T>,
}

impl<T: Copy + Vektet> View for MinHeap<T> {
    type V = Seq<T>;

    closed spec fn view(&self) -> Seq<T> {
        self.data@
    }
}

/// Å bytte ut ett element endrer antallet av hvert element med det som
/// kom inn og det som gikk ut.
pub proof fn lemma_teller_update<T>(s: Seq<T>, i: int, x: T, y: T)
    requires
        0 <= i < s.len(),
    ensures
        teller(s.update(i, x), y) + (if s[i] == y { 1int } else { 0int }) == teller(s, y) + (if x == y { 1int } else { 0int }),
    decreases s.len(),
{
    let t = s.update(i, x);
    if i == s.len() - 1 {
        assert(t.drop_last() =~= s.drop_last());
    } else {
        assert(t.drop_last() =~= s.drop_last().update(i, x));
        lemma_teller_update(s.drop_last(), i, x, y);
    }
}

/// Å bytte to elementer endrer ikke antallet av noe element.
pub proof fn lemma_bytt_teller<T>(s: Seq<T>, i: int, j: int)
    requires
        0 <= i < s.len(),
        0 <= j < s.len(),
    ensures
        samme_elementer(s, bytt(s, i, j)),
        bytt(s, i, j).len() == s.len(),
{
    assert forall|y: T| #[trigger] teller(s, y) == teller(bytt(s, i, j), y) by {
        lemma_teller_update(s, i, s[j], y);
        lemma_teller_update(s.update(i, s[j]), j, s[i], y);
    }
}

proof fn lemma_fiks_teller<T: Vektet>(s: Seq<T>, i: int)
    ensures
        samme_elementer(s, fiks(s, i)),
        fiks(s, i).len() == s.len(),
    decreases s.len() - i,
{
    let m0 = 2 * i + 1;
    if !(i < 0 || m0 >= s.len()) {
        let m = if m0 + 1 < s.len() && f(s[m0 + 1], s[m0]) {
            m0 + 1
        } else {
            m0
        };
        if f(s[m], s[i]) {
            lemma_bytt_teller(s, i, m);
            lemma_fiks_teller(bytt(s, i, m), m);
        }
    }
}

proof fn lemma_opp_teller<T: Vektet>(s: Seq<T>, i: int)
    ensures
        samme_elementer(s, opp(s, i).0),
        opp(s, i).0.len() == s.len(),
        i < s.len() ==> opp(s, i).1 < s.len(),
        i >= 0 ==> opp(s, i).1 >= 0,
    decreases i,
{
    if i > 0 && i < s.len() && w(s[i]) < w(s[forelder(i)]) {
        lemma_bytt_teller(s, i, forelder(i));
        lemma_opp_teller(bytt(s, i, forelder(i)), forelder(i));
    }
}

proof fn lemma_lag_fra_teller<T: Vektet>(s: Seq<T>, i: int)
    ensures
        samme_elementer(s, lag_fra(s, i)),
        lag_fra(s, i).len() == s.len(),
    decreases i,
{
    if i > 0 {
        lemma_fiks_teller(s, i - 1);
        lemma_lag_fra_teller(fiks(s, i - 1), i - 1);
    }
}

/// Heap-egenskapen holder mellom hver forelder fra og med posisjon `lo` og barna dens.
pub open spec fn heap_fra<T: Vektet>(s: Seq<T>, lo: int) -> bool {
    forall|j: int| 0 < j < s.len() && forelder(j) >= lo ==> w(#[trigger] s[forelder(j)]) <= w(s[j])
}

/// Heap-egenskapen holder for foreldre fra og med `lo`, unntatt mellom `i`
/// og barna dens, og forelderen til `i` er ikke tyngre enn barna til `i`.
pub open spec fn heap_unntatt_ned<T: Vektet>(s: Seq<T>, i: int, lo: int) -> bool {
    &&& forall|j: int|
        0 < j < s.len() && forelder(j) != i && forelder(j) >= lo ==> w(#[trigger] s[forelder(j)]) <= w(s[j])
    &&& forall|j: int|
        0 < j < s.len() && forelder(j) == i && i > lo ==> w(s[forelder(i)]) <= w(#[trigger] s[j])
}

proof fn lemma_fiks_heap<T: Vektet>(s: Seq<T>, i: int, lo: int)
    requires
        0 <= lo <= i < s.len(),
        heap_unntatt_ned(s, i, lo),
    ensures
        heap_fra(fiks(s, i), lo),
    decreases s.len() - i,
{
    let m0 = 2 * i + 1;
    if m0 >= s.len() {
        assert forall|j: int| 0 < j < s.len() && forelder(j) >= lo implies w(#[trigger] s[forelder(j)]) <= w(s[j]) by {
            if forelder(j) == i {
                assert(j >= 2 * i + 1);
            }
        }
    } else {
        let m = if m0 + 1 < s.len() && f(s[m0 + 1], s[m0]) {
            m0 + 1
        } else {
            m0
        };
        if m0 + 1 < s.len() {
            lemma_f(s[m0 + 1], s[m0]);
        }
        lemma_f(s[m], s[i]);
        if f(s[m], s[i]) {
            let t = bytt(s, i, m);
            assert(forelder(m) == i);
            assert forall|j: int| 0 < j < t.len() && forelder(j) != m && forelder(j) >= lo implies w(#[trigger] t[forelder(j)]) <= w(t[j]) by {
                if forelder(j) == i {
                    assert(j == m0 || j == m0 + 1);
                    if j != m {
                        assert(t[j] == s[j]);
                    }
                } else if j == i {
                    assert(s[forelder(i)] == t[forelder(i)]);
                } else if j == m {
                } else {
                    assert(t[j] == s[j]);
                    assert(forelder(j) != i);
                    if forelder(j) == m {
                    } else {
                        assert(t[forelder(j)] == s[forelder(j)]);
                    }
                }
            }
            assert forall|j: int| 0 < j < t.len() && forelder(j) == m && m > lo implies w(t[forelder(m)]) <= w(#[trigger] t[j]) by {
                assert(j != i && j != m);
                assert(t[j] == s[j]);
            }
            lemma_fiks_heap(t, m, lo);
        } else {
            assert forall|j: int| 0 < j < s.len() && forelder(j) >= lo implies w(#[trigger] s[forelder(j)]) <= w(s[j]) by {
                if forelder(j) == i {
                    assert(j == m0 || j == m0 + 1);
                }
            }
        }
    }
}

/// Heap-egenskapen holder overalt unntatt mellom `i` og forelderen, og
/// forelderen til `i` er ikke tyngre enn barna til `i`.
pub open spec fn heap_unntatt_opp<T: Vektet>(s: Seq<T>, i: int) -> bool {
    &&& forall|j: int| 0 < j < s.len() && j != i ==> w(#[trigger] s[forelder(j)]) <= w(s[j])
    &&& forall|j: int|
        0 < j < s.len() && forelder(j) == i && i > 0 ==> w(s[forelder(i)]) <= w(#[trigger] s[j])
}

proof fn lemma_opp_heap<T: Vektet>(s: Seq<T>, i: int)
    requires
        0 <= i < s.len(),
        heap_unntatt_opp(s, i),
    ensures
        er_heap(opp(s, i).0),
    decreases i,
{
    if i > 0 && w(s[i]) < w(s[forelder(i)]) {
        let p = forelder(i);
        let t = bytt(s, i, p);
        assert forall|j: int| 0 < j < t.len() && j != p implies w(#[trigger] t[forelder(j)]) <= w(t[j]) by {
            if j == i {
            } else if forelder(j) == i {
                assert(t[j] == s[j]);
            } else if forelder(j) == p {
                assert(t[j] == s[j]);
            } else if j == p {
            } else {
                assert(t[j] == s[j]);
                if forelder(j) == i || forelder(j) == p {
                } else {
                    assert(t[forelder(j)] == s[forelder(j)]);
                }
            }
        }
        assert forall|j: int| 0 < j < t.len() && forelder(j) == p && p > 0 implies w(t[forelder(p)]) <= w(#[trigger] t[j]) by {
            assert(forelder(p) != i && forelder(p) != p);
            assert(t[forelder(p)] == s[forelder(p)]);
            if j == i {
            } else {
                assert(t[j] == s[j]);
            }
        }
        lemma_opp_heap(t, p);
    } else {
        assert forall|j: int| 0 < j < s.len() implies w(#[trigger] s[forelder(j)]) <= w(s[j]) by {
            if j == i {
            }
        }
    }
}

/// Roten i en heap er ikke tyngre enn noe annet element.
pub proof fn lemma_rot_minst<T: Vektet>(s: Seq<T>, j: int)
    requires
        er_heap(s),
        0 <= j < s.len(),
    ensures
        w(s[0]) <= w(s[j]),
    decreases j,
{
    if j > 0 {
        assert(w(s[forelder(j)]) <= w(s[j]));
        lemma_rot_minst(s, forelder(j));
    }
}


proof fn lemma_lag_fra<T: Vektet>(s: Seq<T>, i: int)
    requires
        0 <= i <= s.len(),
        heap_fra(s, i),
    ensures
        er_heap(lag_fra(s, i)),
    decreases i,
{
    if i == 0 {
    } else {
        assert(heap_unntatt_ned(s, i - 1, i - 1));
        lemma_fiks_heap(s, i - 1, i - 1);
        lemma_fiks_teller(s, i - 1);
        lemma_lag_fra(fiks(s, i - 1), i - 1);
    }
}

/// `fra_liste` lager en heap med de samme elementene.
pub proof fn lov_lag_heap<T: Vektet>(s: Seq<T>)
    ensures
        er_heap(lag_heap_spec(s)),
        samme_elementer(s, lag_heap_spec(s)),
        lag_heap_spec(s).len() == s.len(),
{
    assert(heap_fra(s, (s.len() / 2) as int)) by {
        assert forall|j: int| 0 < j < s.len() && forelder(j) >= s.len() / 2 implies w(#[trigger] s[forelder(j)]) <= w(s[j]) by {
            assert(j >= 2 * (s.len() / 2) + 1);
        }
    }
    lemma_lag_fra(s, (s.len() / 2) as int);
    lemma_lag_fra_teller(s, (s.len() / 2) as int);
}

/// En heap laget av en liste er tom nøyaktig når listen er det, og etter
/// `push` har heapen ett element mer, så den er aldri tom.
pub proof fn lov_er_tom<T: Vektet>(s: Seq<T>, x: T)
    ensures
        (lag_heap_spec(s).len() == 0) == (s.len() == 0),
        push_spec(s, x).len() == s.len() + 1,
{
    lemma_lag_fra_teller(s, (s.len() / 2) as int);
    lemma_opp_teller(s.push(x), s.len() as int);
    let r = opp(s.push(x), s.len() as int);
    lemma_fiks_teller(r.0, r.1);
}

/// `push` på en heap gir en heap med det nye elementet i tillegg.
pub proof fn lov_push<T: Vektet>(s: Seq<T>, x: T)
    requires
        er_heap(s),
    ensures
        er_heap(push_spec(s, x)),
        push_spec(s, x).len() == s.len() + 1,
        forall|y: T| #[trigger] teller(push_spec(s, x), y) == teller(s, y) + if x == y { 1nat } else { 0nat },
{
    let t = s.push(x);
    assert(t.drop_last() =~= s);
    assert(heap_unntatt_opp(t, s.len() as int)) by {
        assert forall|j: int| 0 < j < t.len() && j != s.len() implies w(#[trigger] t[forelder(j)]) <= w(t[j]) by {
            assert(t[j] == s[j]);
            assert(t[forelder(j)] == s[forelder(j)]);
        }
    }
    lemma_opp_heap(t, s.len() as int);
    lemma_opp_teller(t, s.len() as int);
    let r = opp(t, s.len() as int);
    assert(heap_unntatt_ned(r.0, r.1, 0)) by {
        assert forall|j: int| 0 < j < r.0.len() && forelder(j) == r.1 && r.1 > 0 implies
            w(r.0[forelder(r.1)]) <= w(#[trigger] r.0[j]) by {
            assert(w(r.0[forelder(j)]) <= w(r.0[j]));
            assert(w(r.0[forelder(r.1)]) <= w(r.0[r.1]));
        }
    }
    lemma_fiks_heap(r.0, r.1, 0);
    lemma_fiks_teller(r.0, r.1);
    assert(er_heap(push_spec(s, x))) by {
        assert forall|j: int| 0 < j < push_spec(s, x).len() implies
            w(#[trigger] push_spec(s, x)[forelder(j)]) <= w(push_spec(s, x)[j]) by {
            assert(forelder(j) >= 0);
        }
    }
    assert forall|y: T| #[trigger] teller(push_spec(s, x), y) == teller(s, y) + if x == y { 1nat } else { 0nat } by {
        assert(teller(t, y) == teller(t.drop_last(), y) + if t.last() == y { 1nat } else { 0nat });
        assert(teller(r.0, y) == teller(t, y));
        assert(teller(push_spec(s, x), y) == teller(r.0, y));
    }
}

/// Å flytte elementet nederst i en heap til roten og fikse gir et element
/// med samme vekt nederst, siden det aldri er lettere enn seg selv.
proof fn lemma_fiks_siste<T: Vektet>(s: Seq<T>, i: int, x: T)
    requires
        0 <= i < s.len(),
        s[i] == x,
        s.last() == x,
    ensures
        fiks(s, i).last() == x,
    decreases s.len() - i,
{
    let m0 = 2 * i + 1;
    if m0 < s.len() {
        let m = if m0 + 1 < s.len() && f(s[m0 + 1], s[m0]) {
            m0 + 1
        } else {
            m0
        };
        lemma_f(s[m], s[i]);
        if f(s[m], s[i]) {
            assert(m != s.len() - 1);
            let t = bytt(s, i, m);
            lemma_fiks_siste(t, m, x);
        }
    }
}

/// `pop` på en ikke-tom heap gir roten, som ikke er tyngre enn noe annet
/// element, og en heap med resten av elementene.
pub proof fn lov_pop<T: Vektet>(s: Seq<T>)
    requires
        er_heap(s),
        s.len() > 0,
    ensures
        pop_spec(s).0 == Some(s[0]),
        forall|j: int| 0 <= j < s.len() ==> w(s[0]) <= w(#[trigger] s[j]),
        er_heap(pop_spec(s).1),
        pop_spec(s).1.len() == s.len() - 1,
        forall|y: T| #[trigger] teller(pop_spec(s).1, y) + (if s[0] == y { 1nat } else { 0nat }) == teller(s, y),
{
    assert forall|j: int| 0 <= j < s.len() implies w(s[0]) <= w(#[trigger] s[j]) by {
        lemma_rot_minst(s, j);
    }
    let u = s.update(0, s.last());
    assert(heap_unntatt_ned(u, 0, 0)) by {
        assert forall|j: int| 0 < j < u.len() && forelder(j) != 0 && forelder(j) >= 0 implies w(#[trigger] u[forelder(j)]) <= w(u[j]) by {
            assert(forelder(j) > 0);
            assert(u[forelder(j)] == s[forelder(j)]);
            if j == s.len() - 1 {
            } else {
                assert(u[j] == s[j]);
            }
        }
    }
    lemma_fiks_heap(u, 0, 0);
    lemma_fiks_teller(u, 0);
    let t = fiks(u, 0);
    lemma_fiks_siste(u, 0, s.last());
    assert(er_heap(t.drop_last())) by {
        assert forall|j: int| 0 < j < t.drop_last().len() implies w(#[trigger] t.drop_last()[forelder(j)]) <= w(t.drop_last()[j]) by {
            assert(t[forelder(j)] == t.drop_last()[forelder(j)]);
        }
    }
    assert forall|y: T| #[trigger] teller(pop_spec(s).1, y) + (if s[0] == y { 1nat } else { 0nat }) == teller(s, y) by {
        lemma_teller_update(s, 0, s.last(), y);
        assert(teller(t, y) == teller(u, y));
        assert(teller(t, y) == teller(t.drop_last(), y) + if t.last() == y { 1nat } else { 0nat });
        assert(teller(s, y) == teller(s.drop_last(), y) + if s.last() == y { 1nat } else { 0nat });
    }
}

/// `endre_vekt` på en heap gir en heap, med det ene elementet erstattet.
pub proof fn lov_endre_vekt<T: Vektet>(s: Seq<T>, i: int, vekt: usize)
    requires
        er_heap(s),
        0 <= i < s.len(),
    ensures
        er_heap(endre_spec(s, i, vekt)),
        endre_spec(s, i, vekt).len() == s.len(),
        samme_elementer(endre_spec(s, i, vekt), s.update(i, s[i].med_vekt(vekt))),
{
    let x = s[i].med_vekt(vekt);
    s[i].lemma_med_vekt(vekt);
    let t = s.update(i, x);
    if vekt > s[i].vekt_spec() {
        assert(heap_unntatt_ned(t, i, 0)) by {
            assert forall|j: int| 0 < j < t.len() && forelder(j) != i && forelder(j) >= 0 implies w(#[trigger] t[forelder(j)]) <= w(t[j]) by {
                assert(t[forelder(j)] == s[forelder(j)]);
                if j == i {
                } else {
                    assert(t[j] == s[j]);
                }
            }
            assert forall|j: int| 0 < j < t.len() && forelder(j) == i && i > 0 implies w(t[forelder(i)]) <= w(#[trigger] t[j]) by {
                assert(t[j] == s[j]);
                assert(t[forelder(i)] == s[forelder(i)]);
                assert(w(s[forelder(i)]) <= w(s[i]));
                assert(w(s[i]) <= w(s[j]));
            }
        }
        lemma_fiks_heap(t, i, 0);
        lemma_fiks_teller(t, i);
    } else {
        assert(heap_unntatt_opp(t, i)) by {
            assert forall|j: int| 0 < j < t.len() && j != i implies w(#[trigger] t[forelder(j)]) <= w(t[j]) by {
                assert(t[j] == s[j]);
                if forelder(j) == i {
                    assert(w(s[i]) <= w(s[j]));
                } else {
                    assert(t[forelder(j)] == s[forelder(j)]);
                }
            }
            assert forall|j: int| 0 < j < t.len() && forelder(j) == i && i > 0 implies w(t[forelder(i)]) <= w(#[trigger] t[j]) by {
                assert(t[j] == s[j]);
                assert(t[forelder(i)] == s[forelder(i)]);
                assert(w(s[forelder(i)]) <= w(s[i]));
                assert(w(s[i]) <= w(s[j]));
            }
        }
        lemma_opp_heap(t, i);
        lemma_opp_teller(t, i);
    }
}


/// Største antall elementer, så indeksregningen ikke går over.
pub open spec fn heap_grense() -> int {
    (usize::MAX / 2 - 1) as int
}

pub(crate) fn bytt_exec<T: Copy>(v: &mut Vec<T>, i: usize, j: usize)
    requires
        i < old(v)@.len(),
        j < old(v)@.len(),
    ensures
        final(v)@ == bytt(old(v)@, i as int, j as int),
{
    let a = v[i];
    let b = v[j];
    v.set(i, b);
    v.set(j, a);
}

impl<T: Copy + Vektet> MinHeap<T> {
    /// Heapen er ordnet og ikke større enn grensen.
    pub open spec fn er_gyldig(&self) -> bool {
        er_heap(self@) && self@.len() <= heap_grense()
    }

    /// En tom heap.
    pub fn opprett() -> (heap: Self)
        ensures
            heap@ == Seq::<T>::empty(),
            heap.er_gyldig(),
    {
        Self { data: Vec::new() }
    }

    /// Lager en heap av elementene i listen.
    pub fn fra_liste(data: &[T]) -> (heap: Self)
        requires
            data@.len() <= heap_grense(),
        ensures
            heap@ == lag_heap_spec(data@),
            heap.er_gyldig(),
            samme_elementer(data@, heap@),
    {
        let mut v: Vec<T> = Vec::new();
        let mut i: usize = 0;
        while i < data.len()
            invariant
                i <= data@.len(),
                v@ == data@.take(i as int),
            decreases data@.len() - i,
        {
            v.push(data[i]);
            assert(v@ =~= data@.take(i + 1));
            i = i + 1;
        }
        assert(v@ =~= data@);
        let mut heap = Self { data: v };
        heap.lag_heap();
        proof {
            lov_lag_heap(data@);
        }
        heap
    }

    /// Antall elementer.
    pub fn len(&self) -> (res: usize)
        ensures
            res == self@.len(),
    {
        self.data.len()
    }

    /// Om heapen er tom.
    pub fn er_tom(&self) -> (res: bool)
        ensures
            res == (self@.len() == 0),
    {
        self.len() == 0
    }

    fn over(indeks: usize) -> (res: Option<usize>)
        ensures
            res == if indeks == 0 { None } else { Some(forelder(indeks as int) as usize) },
    {
        if indeks == 0 {
            None
        } else {
            Some((indeks - 1) / 2)
        }
    }

    fn venstre(indeks: usize) -> (res: usize)
        requires
            indeks <= heap_grense(),
        ensures
            res == 2 * indeks + 1,
    {
        indeks * 2 + 1
    }

    fn hoyre(indeks: usize) -> (res: usize)
        requires
            indeks <= heap_grense(),
        ensures
            res == 2 * indeks + 2,
    {
        (indeks + 1) * 2
    }

    fn fiks_heap(&mut self, indeks: usize)
        requires
            old(self)@.len() <= heap_grense(),
        ensures
            final(self)@ == fiks(old(self)@, indeks as int),
        decreases old(self)@.len() - indeks,
    {
        if indeks >= self.data.len() {
            return;
        }
        let mut m = Self::venstre(indeks);
        if m < self.data.len() {
            let h = Self::hoyre(indeks);
            if h < self.data.len() && self.data[h].er_foran(&self.data[m]) {
                m = h;
            }
            if self.data[m].er_foran(&self.data[indeks]) {
                bytt_exec(&mut self.data, indeks, m);
                self.fiks_heap(m);
            }
        }
    }

    fn lag_heap(&mut self)
        requires
            old(self)@.len() <= heap_grense(),
        ensures
            final(self)@ == lag_heap_spec(old(self)@),
    {
        let mut i = self.data.len() / 2;
        while i > 0
            invariant
                self@.len() == old(self)@.len(),
                self@.len() <= heap_grense(),
                lag_fra(self@, i as int) == lag_heap_spec(old(self)@),
            decreases i,
        {
            i = i - 1;
            proof {
                lemma_fiks_teller(self@, i as int);
            }
            self.fiks_heap(i);
        }
    }

    /// Legger et element inn i heapen.
    pub fn push(&mut self, node: T)
        requires
            old(self)@.len() < heap_grense(),
        ensures
            final(self)@ == push_spec(old(self)@, node),
            old(self).er_gyldig() ==> final(self).er_gyldig(),
    {
        let ghost s0 = self@;
        self.data.push(node);
        let mut indeks = self.data.len() - 1;
        let mut forelder_indeks = Self::over(indeks);
        while forelder_indeks.is_some() && self.data[indeks].vekt() < self.data[forelder_indeks.unwrap()].vekt()
            invariant
                self@.len() == s0.len() + 1,
                indeks < self@.len(),
                forelder_indeks == if indeks == 0 { None } else { Some(forelder(indeks as int) as usize) },
                opp(self@, indeks as int) == opp(s0.push(node), s0.len() as int),
            decreases indeks,
        {
            let f = forelder_indeks.unwrap();
            bytt_exec(&mut self.data, indeks, f);
            indeks = f;
            forelder_indeks = Self::over(indeks);
        }
        proof {
            lemma_opp_teller(s0.push(node), s0.len() as int);
        }
        self.fiks_heap(indeks);
        proof {
            if er_heap(s0) {
                lov_push(s0, node);
            }
        }
    }

    /// Tar ut elementet med lavest vekt (roten).
    pub fn pop(&mut self) -> (res: Option<T>)
        requires
            old(self)@.len() <= heap_grense(),
        ensures
            res == pop_spec(old(self)@).0,
            final(self)@ == pop_spec(old(self)@).1,
            old(self).er_gyldig() ==> final(self).er_gyldig(),
    {
        if !self.data.is_empty() {
            let retval = self.data[0];
            let n = self.data.len();
            let siste = self.data[n - 1];
            self.data.set(0, siste);
            self.fiks_heap(0);
            proof {
                lemma_fiks_teller(old(self)@.update(0, siste), 0);
            }
            self.data.remove(n - 1);
            assert(self@ =~= pop_spec(old(self)@).1);
            proof {
                if er_heap(old(self)@) {
                    lov_pop(old(self)@);
                }
            }
            Some(retval)
        } else {
            None
        }
    }

    /// Setter vekten til elementet i posisjon `indeks` og flytter det dit
    /// det hører hjemme. Gjør ingenting når posisjonen ikke finnes.
    pub fn endre_vekt(&mut self, indeks: usize, vekt: usize)
        requires
            old(self)@.len() <= heap_grense(),
        ensures
            final(self)@ == endre_spec(old(self)@, indeks as int, vekt),
            old(self).er_gyldig() ==> final(self).er_gyldig(),
    {
        if indeks < self.data.len() {
            if vekt > self.data[indeks].vekt() {
                self.vekt_opp(indeks, vekt);
            } else {
                self.vekt_ned(indeks, vekt);
            }
            proof {
                if er_heap(old(self)@) {
                    lov_endre_vekt(old(self)@, indeks as int, vekt);
                }
            }
        }
    }

    /// Posisjonen til det første elementet som er lik `element`, om noe er det.
    pub fn finn_element(&self, element: &T) -> (res: Option<usize>)
        where
            T: PartialEq,
        ensures
            T::obeys_eq_spec() ==> match res {
                Some(i) => i < self@.len() && self@[i as int].eq_spec(element) && forall|j: int|
                    0 <= j < i ==> !(#[trigger] self@[j]).eq_spec(element),
                None => forall|j: int| 0 <= j < self@.len() ==> !(#[trigger] self@[j]).eq_spec(element),
            },
    {
        let mut i: usize = 0;
        while i < self.data.len()
            invariant
                i <= self@.len(),
                T::obeys_eq_spec() ==> forall|j: int| 0 <= j < i ==> !(#[trigger] self@[j]).eq_spec(element),
            decreases self@.len() - i,
        {
            if self.data[i] == *element {
                return Some(i);
            }
            i = i + 1;
        }
        None
    }

    fn vekt_opp(&mut self, indeks: usize, vekt: usize)
        requires
            indeks < old(self)@.len() <= heap_grense(),
        ensures
            final(self)@ == fiks(old(self)@.update(indeks as int, old(self)@[indeks as int].med_vekt(vekt)), indeks as int),
    {
        let mut e = self.data[indeks];
        e.sett_vekt(vekt);
        self.data.set(indeks, e);
        self.fiks_heap(indeks);
    }

    fn vekt_ned(&mut self, indeks: usize, vekt: usize)
        requires
            indeks < old(self)@.len() <= heap_grense(),
        ensures
            final(self)@ == opp(old(self)@.update(indeks as int, old(self)@[indeks as int].med_vekt(vekt)), indeks as int).0,
    {
        let mut e = self.data[indeks];
        e.sett_vekt(vekt);
        self.data.set(indeks, e);
        let ghost t = self@;
        let mut i = indeks;
        let mut forelder_indeks = Self::over(i);
        while forelder_indeks.is_some() && self.data[i].vekt() < self.data[forelder_indeks.unwrap()].vekt()
            invariant
                self@.len() == t.len(),
                i < self@.len(),
                forelder_indeks == if i == 0 { None } else { Some(forelder(i as int) as usize) },
                opp(self@, i as int) == opp(t, indeks as int),
            decreases i,
        {
            let f = forelder_indeks.unwrap();
            bytt_exec(&mut self.data, i, f);
            i = f;
            forelder_indeks = Self::over(i);
        }
    }
}

} // verus!
