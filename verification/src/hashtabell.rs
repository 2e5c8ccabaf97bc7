//! Hashtabeller: én for strenger med lenkede lister i hver plass, og én for
//! heltall med åpen adressering og dobbel hashing.
use vstd::prelude::*;
use vstd::pervasive::VecAdditionalExecFns;

verus! {

/// Hashen til en streng: hvert tegn vektes med 5 opphøyd i antall tegn
/// etter det, og summen holdes under kapasiteten underveis.
pub open spec fn streng_hash(s: Seq<char>, kapasitet: int) -> int
    decreases s.len(),
{
    if s.len() == 0 {
        0
    } else {
        (5 * streng_hash(s.drop_last(), kapasitet) + (s.last() as u32 as int)) % kapasitet
    }
}

/// Hashen peker alltid på en plass i tabellen.
pub proof fn lemma_hash_i_tabell(s: Seq<char>, kapasitet: int)
    requires
        kapasitet > 0,
    ensures
        0 <= streng_hash(s, kapasitet) < kapasitet,
    decreases s.len(),
{
    if s.len() > 0 {
        lemma_hash_i_tabell(s.drop_last(), kapasitet);
    }
}

/// Plassene etter at strengene i `strenger` er satt inn én etter én, fra
/// plassene `botter`: hver streng legges først i plassen den hasher til.
pub open spec fn botter_etter(botter: Seq<Seq<Seq<char>>>, kapasitet: int, strenger: Seq<Seq<char>>) -> Seq<Seq<Seq<char>>>
    decreases strenger.len(),
{
    if strenger.len() == 0 {
        botter
    } else {
        let f = botter_etter(botter, kapasitet, strenger.drop_last());
        let h = streng_hash(strenger.last(), kapasitet);
        f.update(h, seq![strenger.last()] + f[h])
    }
}

/// I en tabell som startet tom, ligger en streng i plassen den hasher til
/// etter en rekke innsettinger nøyaktig når den er en av strengene som ble
/// satt inn.
pub proof fn lov_inneholder_etter_innsettinger(kapasitet: int, strenger: Seq<Seq<char>>, s: Seq<char>)
    requires
        kapasitet > 0,
    ensures
        botter_etter(Seq::new(kapasitet as nat, |i: int| Seq::<Seq<char>>::empty()), kapasitet, strenger).len() == kapasitet,
        botter_etter(Seq::new(kapasitet as nat, |i: int| Seq::<Seq<char>>::empty()), kapasitet, strenger)[streng_hash(s, kapasitet)]
            .contains(s) <==> strenger.contains(s),
    decreases strenger.len(),
{
    let tom = Seq::new(kapasitet as nat, |i: int| Seq::<Seq<char>>::empty());
    lemma_hash_i_tabell(s, kapasitet);
    if strenger.len() == 0 {
        assert(!tom[streng_hash(s, kapasitet)].contains(s));
    } else {
        let forrige = strenger.drop_last();
        let x = strenger.last();
        lov_inneholder_etter_innsettinger(kapasitet, forrige, s);
        let f = botter_etter(tom, kapasitet, forrige);
        let h = streng_hash(x, kapasitet);
        let hs = streng_hash(s, kapasitet);
        lemma_hash_i_tabell(x, kapasitet);
        let ny = f.update(h, seq![x] + f[h]);
        assert(strenger.contains(s) <==> (forrige.contains(s) || s == x)) by {
            if strenger.contains(s) {
                let k = choose|k: int| 0 <= k < strenger.len() && strenger[k] == s;
                if k < forrige.len() {
                    assert(forrige[k] == s);
                }
            }
            if forrige.contains(s) {
                let k = choose|k: int| 0 <= k < forrige.len() && forrige[k] == s;
                assert(strenger[k] == s);
            }
            if s == x {
                assert(strenger[strenger.len() - 1] == s);
            }
        }
        if hs == h {
            let b = seq![x] + f[h];
            assert(ny[hs] == b);
            assert(b.contains(s) <==> (s == x || f[h].contains(s))) by {
                if b.contains(s) {
                    let k = choose|k: int| 0 <= k < b.len() && b[k] == s;
                    if k > 0 {
                        assert(f[h][k - 1] == s);
                    }
                }
                if s == x {
                    assert(b[0] == s);
                }
                if f[h].contains(s) {
                    let k = choose|k: int| 0 <= k < f[h].len() && f[h][k] == s;
                    assert(b[k + 1] == s);
                }
            }
        } else {
            assert(ny[hs] == f[hs]);
            assert(s != x);
        }
    }
}

/// Største kapasitet, så hashregningen ikke går over.
pub open spec fn maks_kapasitet() -> int {
    ((usize::MAX - 0x110000) / 5) as int
}

/// En hashtabell for strenger, der hver plass holder en liste med de
/// strengene som hasher dit, nyeste først.
pub struct HashTabell {
    tabell: Vec<Vec<String>>,
    kapasitet: usize,
    antall_verdier: usize,
    kollisjoner: usize,
}

/// Strengene i en plass, som tegnsekvenser.
pub open spec fn botte_innhold(b: Seq<String>) -> Seq<Seq<char>> {
    b.map_values(|s: String| s@)
}

impl HashTabell {
    /// Tabellen har én plass per kapasitet, og kapasiteten er ikke for stor.
    pub closed spec fn er_gyldig(&self) -> bool {
        &&& self.tabell@.len() == self.kapasitet
        &&& self.kapasitet <= maks_kapasitet()
    }

    /// Innholdet i hver plass.
    pub closed spec fn botter(&self) -> Seq<Seq<Seq<char>>> {
        self.tabell@.map_values(|b: Vec<String>| botte_innhold(b@))
    }

    /// Kapasiteten.
    pub closed spec fn kapasitet_spec(&self) -> nat {
        self.kapasitet as nat
    }

    /// Antall strenger satt inn.
    pub closed spec fn antall_spec(&self) -> nat {
        self.antall_verdier as nat
    }

    /// Antall innsettinger i en plass som allerede hadde innhold.
    pub closed spec fn kollisjoner_spec(&self) -> nat {
        self.kollisjoner as nat
    }

    /// Om strengen ligger i tabellen.
    pub open spec fn inneholder_spec(&self, s: Seq<char>) -> bool {
        self.botter()[streng_hash(s, self.kapasitet_spec() as int)].contains(s)
    }

    /// En tabell med `kapasitet` tomme plasser.
    pub fn new(kapasitet: usize) -> (res: Self)
        requires
            kapasitet <= maks_kapasitet(),
        ensures
            res.er_gyldig(),
            res.kapasitet_spec() == kapasitet,
            res.antall_spec() == 0,
            res.kollisjoner_spec() == 0,
            res.botter().len() == kapasitet,
            forall|i: int| 0 <= i < kapasitet ==> #[trigger] res.botter()[i].len() == 0,
    {
        let mut tabell: Vec<Vec<String>> = Vec::new();
        let mut i: usize = 0;
        while i < kapasitet
            invariant
                i <= kapasitet,
                tabell@.len() == i,
                forall|j: int| 0 <= j < i ==> #[trigger] tabell@[j]@.len() == 0,
            decreases kapasitet - i,
        {
            tabell.push(Vec::new());
            i = i + 1;
        }
        Self { tabell, kapasitet, antall_verdier: 0, kollisjoner: 0 }
    }

    /// Setter inn strengen først i plassen den hasher til, og gir tilbake
    /// strengene plassen holdt fra før: er de noen, talte det som en kollisjon.
    pub fn sett_inn(&mut self, streng: String) -> (kolliderte_med: Vec<String>)
        requires
            old(self).er_gyldig(),
            old(self).kapasitet_spec() > 0,
            old(self).antall_spec() < usize::MAX,
            old(self).kollisjoner_spec() < usize::MAX,
        ensures
            final(self).er_gyldig(),
            final(self).kapasitet_spec() == old(self).kapasitet_spec(),
            ({
                let h = streng_hash(streng@, old(self).kapasitet_spec() as int);
                &&& botte_innhold(kolliderte_med@) == old(self).botter()[h]
                &&& final(self).botter() == old(self).botter().update(h, seq![streng@] + old(self).botter()[h])
            }),
            final(self).antall_spec() == old(self).antall_spec() + 1,
            final(self).kollisjoner_spec() == old(self).kollisjoner_spec()
                + if kolliderte_med@.len() > 0 { 1int } else { 0int },
            forall|t: Seq<char>| #[trigger] final(self).inneholder_spec(t)
                <==> (t == streng@ || old(self).inneholder_spec(t)),
    {
        let hash = self.hash(&streng);
        let ghost gammel = self.botter();
        let fra_for = legg_foran(&mut self.tabell, hash, streng);
        if fra_for.len() > 0 {
            self.kollisjoner = self.kollisjoner + 1;
        }
        self.antall_verdier = self.antall_verdier + 1;
        assert(self.botter() =~= gammel.update(hash as int, seq![streng@] + gammel[hash as int]));
        proof {
            assert forall|t: Seq<char>| #[trigger] self.inneholder_spec(t)
                <==> (t == streng@ || old(self).inneholder_spec(t)) by {
                let ht = streng_hash(t, self.kapasitet as int);
                lemma_hash_i_tabell(t, self.kapasitet as int);
                if ht == hash {
                    assert(self.botter()[ht] == seq![streng@] + gammel[ht]);
                    if t == streng@ {
                        assert(self.botter()[ht][0] == t);
                    }
                    if gammel[ht].contains(t) {
                        let k = choose|k: int| 0 <= k < gammel[ht].len() && gammel[ht][k] == t;
                        assert(self.botter()[ht][k + 1] == t);
                    }
                    if self.botter()[ht].contains(t) && t != streng@ {
                        let k = choose|k: int| 0 <= k < self.botter()[ht].len() && self.botter()[ht][k] == t;
                        assert(gammel[ht][k - 1] == t);
                    }
                } else {
                    assert(t != streng@);
                }
            }
        }
        fra_for
    }

    /// Om en streng lik `streng` er satt inn.
    pub fn inneholder(&self, streng: String) -> (res: bool)
        requires
            self.er_gyldig(),
            self.kapasitet_spec() > 0,
        ensures
            res == self.inneholder_spec(streng@),
    {
        let hash = self.hash(&streng);
        botte_har(&self.tabell[hash], &streng)
    }

    /// Kapasiteten.
    pub fn kapasitet(&self) -> (res: usize)
        ensures
            res == self.kapasitet_spec(),
    {
        self.kapasitet
    }

    /// Antall strenger satt inn.
    pub fn antall_verdier(&self) -> (res: usize)
        ensures
            res == self.antall_spec(),
    {
        self.antall_verdier
    }

    /// Antall kollisjoner.
    pub fn kollisjoner(&self) -> (res: usize)
        ensures
            res == self.kollisjoner_spec(),
    {
        self.kollisjoner
    }

    fn hash(&self, nokkel: &String) -> (res: usize)
        requires
            self.er_gyldig(),
            self.kapasitet > 0,
        ensures
            res == streng_hash(nokkel@, self.kapasitet as int),
            res < self.kapasitet,
    {
        let mut hash: usize = 0;
        let ghost s = nokkel@;
        for bokstav in it: nokkel.chars()
            invariant
                self.kapasitet > 0,
                self.kapasitet <= maks_kapasitet(),
                it.seq() == s,
                hash == streng_hash(s.take(it.index()), self.kapasitet as int),
                hash < self.kapasitet,
        {
            assert(s.take(it.index() + 1).drop_last() =~= s.take(it.index() as int));
            let kode: u32 = bokstav as u32;
            proof {
                vstd::utf8::char_is_scalar(bokstav);
            }
            hash = (5 * hash) + kode as usize;
            hash = hash % self.kapasitet;
        }
        assert(s.take(s.len() as int) =~= s);
        hash
    }
}


/// Legger `streng` først i plassen `plass` og gir tilbake det plassen
/// holdt fra før.
pub(crate) fn legg_foran(tabell: &mut Vec<Vec<String>>, plass: usize, streng: String) -> (fra_for: Vec<String>)
    requires
        plass < old(tabell)@.len(),
    ensures
        final(tabell)@.len() == old(tabell)@.len(),
        botte_innhold(fra_for@) == botte_innhold(old(tabell)@[plass as int]@),
        forall|i: int| 0 <= i < final(tabell)@.len() && i != plass ==> #[trigger] final(tabell)@[i] == old(tabell)@[i],
        botte_innhold(final(tabell)@[plass as int]@) == seq![streng@] + botte_innhold(old(tabell)@[plass as int]@),
{
    let mut botte: Vec<String> = Vec::new();
    tabell.set_and_swap(plass, &mut botte);
    let fra_for = kopi(&botte);
    botte.insert(0, streng);
    assert(botte_innhold(botte@) =~= seq![streng@] + botte_innhold(fra_for@));
    tabell.set_and_swap(plass, &mut botte);
    fra_for
}

/// En kopi av strengene i en plass.
pub(crate) fn kopi(botte: &Vec<String>) -> (res: Vec<String>)
    ensures
        botte_innhold(res@) == botte_innhold(botte@),
{
    let mut res: Vec<String> = Vec::new();
    let mut i: usize = 0;
    while i < botte.len()
        invariant
            i <= botte@.len(),
            res@.len() == i,
            forall|k: int| 0 <= k < i ==> #[trigger] res@[k]@ == botte@[k]@,
        decreases botte@.len() - i,
    {
        let s = botte[i].clone();
        res.push(s);
        i = i + 1;
    }
    assert(botte_innhold(res@) =~= botte_innhold(botte@));
    res
}

/// Om plassen holder en streng lik `streng`.
pub(crate) fn botte_har(botte: &Vec<String>, streng: &String) -> (res: bool)
    ensures
        res == botte_innhold(botte@).contains(streng@),
{
    let mut i: usize = 0;
    while i < botte.len()
        invariant
            i <= botte@.len(),
            forall|j: int| 0 <= j < i ==> #[trigger] botte@[j]@ != streng@,
        decreases botte@.len() - i,
    {
        if botte[i] == *streng {
            assert(botte_innhold(botte@)[i as int] == streng@);
            return true;
        }
        i = i + 1;
    }
    proof {
        if botte_innhold(botte@).contains(streng@) {
            let j = choose|j: int| 0 <= j < botte_innhold(botte@).len() && botte_innhold(botte@)[j] == streng@;
            assert(botte@[j]@ == streng@);
        }
    }
    false
}

/// Plassen etter `j` hopp med lengde `steg` fra `start`, rundt tabellen.
pub open spec fn proeve(start: int, steg: int, j: nat, kapasitet: int) -> int
    decreases j,
{
    if j == 0 {
        start
    } else {
        (proeve(start, steg, (j - 1) as nat, kapasitet) + steg) % kapasitet
    }
}

/// Hopp nummer `j` (minst ett) lander på en ledig plass.
pub open spec fn ledig_proeve(tabell: Seq<Option<usize>>, start: int, steg: int, j: int) -> bool {
    &&& 1 <= j
    &&& tabell[proeve(start, steg, j as nat, tabell.len() as int)] is None
}

/// Hopp nummer `j` er det første som lander på en ledig plass.
pub open spec fn er_forste_ledige(tabell: Seq<Option<usize>>, start: int, steg: int, j: int) -> bool {
    &&& ledig_proeve(tabell, start, steg, j)
    &&& forall|k: int| 1 <= k < j ==> !#[trigger] ledig_proeve(tabell, start, steg, k)
}

/// Antall hopp til første ledige plass, når det finnes en.
pub open spec fn forste_ledige(tabell: Seq<Option<usize>>, start: int, steg: int) -> int {
    choose|j: int| er_forste_ledige(tabell, start, steg, j)
}

/// Finnes et hopp som lander ledig, finnes et første.
pub proof fn lemma_forste_ledige(tabell: Seq<Option<usize>>, start: int, steg: int, j: int)
    requires
        ledig_proeve(tabell, start, steg, j),
    ensures
        er_forste_ledige(tabell, start, steg, forste_ledige(tabell, start, steg)),
        forste_ledige(tabell, start, steg) <= j,
    decreases j,
{
    if exists|k: int| 1 <= k < j && #[trigger] ledig_proeve(tabell, start, steg, k) {
        let k = choose|k: int| 1 <= k < j && #[trigger] ledig_proeve(tabell, start, steg, k);
        lemma_forste_ledige(tabell, start, steg, k);
    } else {
        assert(er_forste_ledige(tabell, start, steg, j));
    }
    let m = forste_ledige(tabell, start, steg);
    if m > j {
        assert(!ledig_proeve(tabell, start, steg, j));
    }
}

/// Hoppene holder seg innenfor tabellen.
pub proof fn lemma_proeve_i_tabell(start: int, steg: int, j: nat, kapasitet: int)
    requires
        0 <= start < kapasitet,
        0 <= steg,
    ensures
        0 <= proeve(start, steg, j, kapasitet) < kapasitet,
    decreases j,
{
    if j > 0 {
        lemma_proeve_i_tabell(start, steg, (j - 1) as nat, kapasitet);
    }
}

/// En hashtabell for heltall med åpen adressering: ved kollisjon hoppes
/// det videre med en andre hash som hopplengde til en ledig plass.
pub struct HashTabell2 {
    tabell: Vec<Option<usize>>,
    kapasitet: usize,
    antall_verdier: usize,
    kollisjoner: usize,
}

impl HashTabell2 {
    /// Tabellen har én plass per kapasitet, og hoppene går ikke over.
    pub closed spec fn er_gyldig(&self) -> bool {
        &&& self.tabell@.len() == self.kapasitet
        &&& self.kapasitet <= usize::MAX / 2
    }

    /// Tabellen har like mange plasser som kapasiteten.
    pub proof fn lemma_gyldig(&self)
        requires
            self.er_gyldig(),
        ensures
            self.plasser().len() == self.kapasitet_spec(),
            self.kapasitet_spec() <= usize::MAX / 2,
    {
    }

    /// Plassene.
    pub closed spec fn plasser(&self) -> Seq<Option<usize>> {
        self.tabell@
    }

    /// Kapasiteten.
    pub closed spec fn kapasitet_spec(&self) -> nat {
        self.kapasitet as nat
    }

    /// Antall tall satt inn.
    pub closed spec fn antall_spec(&self) -> nat {
        self.antall_verdier as nat
    }

    /// Antall hopp gjort forbi opptatte plasser.
    pub closed spec fn kollisjoner_spec(&self) -> nat {
        self.kollisjoner as nat
    }

    /// Første plass et tall prøves på.
    pub open spec fn hash_spec(&self, nokkel: usize) -> int {
        nokkel as int % self.kapasitet_spec() as int
    }

    /// Hopplengden for et tall.
    pub open spec fn hash2_spec(&self, nokkel: usize) -> int {
        nokkel as int % (self.kapasitet_spec() - 1) + 1
    }

    /// Om innsetting av `nokkel` finner en ledig plass.
    pub open spec fn kan_sette_inn(&self, nokkel: usize) -> bool {
        &&& self.kapasitet_spec() > 0
        &&& self.plasser()[self.hash_spec(nokkel)] is Some ==> {
            &&& self.kapasitet_spec() >= 2
            &&& exists|j: int| #[trigger] ledig_proeve(self.plasser(), self.hash_spec(nokkel), self.hash2_spec(nokkel), j)
            &&& self.kollisjoner_spec() + forste_ledige(self.plasser(), self.hash_spec(nokkel), self.hash2_spec(nokkel))
                <= usize::MAX
        }
    }

    /// Plassen innsetting av `nokkel` ender på.
    pub open spec fn plass_for(&self, nokkel: usize) -> int {
        if self.plasser()[self.hash_spec(nokkel)] is None {
            self.hash_spec(nokkel)
        } else {
            proeve(self.hash_spec(nokkel), self.hash2_spec(nokkel),
                forste_ledige(self.plasser(), self.hash_spec(nokkel), self.hash2_spec(nokkel)) as nat,
                self.kapasitet_spec() as int)
        }
    }

    /// Antall hopp innsetting av `nokkel` gjør.
    pub open spec fn hopp_for(&self, nokkel: usize) -> int {
        if self.plasser()[self.hash_spec(nokkel)] is None {
            0
        } else {
            forste_ledige(self.plasser(), self.hash_spec(nokkel), self.hash2_spec(nokkel))
        }
    }

    /// En tabell med `kapasitet` ledige plasser.
    pub fn new(kapasitet: usize) -> (res: Self)
        requires
            kapasitet <= usize::MAX / 2,
        ensures
            res.er_gyldig(),
            res.kapasitet_spec() == kapasitet,
            res.antall_spec() == 0,
            res.kollisjoner_spec() == 0,
            res.plasser() == Seq::new(kapasitet as nat, |i: int| None::<usize>),
    {
        let mut tabell: Vec<Option<usize>> = Vec::new();
        let mut i: usize = 0;
        while i < kapasitet
            invariant
                i <= kapasitet,
                tabell@ == Seq::new(i as nat, |k: int| None::<usize>),
            decreases kapasitet - i,
        {
            tabell.push(None);
            i = i + 1;
        }
        Self { tabell, kapasitet, antall_verdier: 0, kollisjoner: 0 }
    }

    fn hash(&self, nokkel: usize) -> (res: usize)
        requires
            self.kapasitet > 0,
        ensures
            res == self.hash_spec(nokkel),
    {
        nokkel % self.kapasitet
    }

    fn hash2(&self, nokkel: usize) -> (res: usize)
        requires
            self.kapasitet > 1,
        ensures
            res == self.hash2_spec(nokkel),
    {
        (nokkel % (self.kapasitet - 1)) + 1
    }

    /// Setter inn `nokkel`: på plassen den hasher til om den er ledig, ellers
    /// på første ledige plass en kommer til ved å hoppe med den andre hashen.
    pub fn sett_inn(&mut self, nokkel: usize)
        requires
            old(self).er_gyldig(),
            old(self).kan_sette_inn(nokkel),
            old(self).antall_spec() < usize::MAX,
        ensures
            final(self).er_gyldig(),
            final(self).kapasitet_spec() == old(self).kapasitet_spec(),
            final(self).plasser() == old(self).plasser().update(old(self).plass_for(nokkel), Some(nokkel)),
            final(self).antall_spec() == old(self).antall_spec() + 1,
            final(self).kollisjoner_spec() == old(self).kollisjoner_spec() + old(self).hopp_for(nokkel),
    {
        let mut hash = self.hash(nokkel);
        if self.tabell[hash].is_some() {
            let hash2 = self.hash2(nokkel);
            let ghost tab = self.tabell@;
            let ghost start = hash as int;
            let ghost steg = hash2 as int;
            let ghost kollisjoner0 = self.kollisjoner as int;
            let ghost m = forste_ledige(tab, start, steg);
            proof {
                let j0 = choose|j: int| #[trigger] ledig_proeve(tab, start, steg, j);
                lemma_forste_ledige(tab, start, steg, j0);
            }
            let ghost mut j: int = 0;
            loop
                invariant_except_break
                    0 <= j < m,
                    hash as int == proeve(start, steg, j as nat, self.kapasitet as int),
                invariant
                    self.tabell@ == tab,
                    self.kapasitet == old(self).kapasitet,
                    self.antall_verdier == old(self).antall_verdier,
                    self.er_gyldig(),
                    self.kapasitet >= 2,
                    tab.len() == self.kapasitet,
                    0 <= start < self.kapasitet,
                    1 <= steg < self.kapasitet,
                    hash2 as int == steg,
                    hash < self.kapasitet,
                    er_forste_ledige(tab, start, steg, m),
                    kollisjoner0 + m <= usize::MAX,
                    self.kollisjoner == kollisjoner0 + j,
                ensures
                    j == m,
                    hash as int == proeve(start, steg, m as nat, self.kapasitet as int),
                decreases m - j,
            {
                self.kollisjoner = self.kollisjoner + 1;
                hash = (hash + hash2) % self.kapasitet;
                proof {
                    j = j + 1;
                }
                if self.tabell[hash].is_none() {
                    proof {
                        if j < m {
                            assert(ledig_proeve(tab, start, steg, j));
                        }
                    }
                    break;
                }
            }
        }
        self.tabell.set(hash, Some(nokkel));
        self.antall_verdier = self.antall_verdier + 1;
    }

    /// Plassene i tabellen.
    pub fn plass(&self, i: usize) -> (res: Option<usize>)
        requires
            i < self.plasser().len(),
        ensures
            res == self.plasser()[i as int],
    {
        self.tabell[i]
    }

    /// Kapasiteten.
    pub fn kapasitet(&self) -> (res: usize)
        ensures
            res == self.kapasitet_spec(),
    {
        self.kapasitet
    }

    /// Antall tall satt inn.
    pub fn antall_verdier(&self) -> (res: usize)
        ensures
            res == self.antall_spec(),
    {
        self.antall_verdier
    }

    /// Antall hopp forbi opptatte plasser.
    pub fn kollisjoner(&self) -> (res: usize)
        ensures
            res == self.kollisjoner_spec(),
    {
        self.kollisjoner
    }
}

/// `n` er et primtall.
pub open spec fn er_primtall(n: int) -> bool {
    &&& n >= 2
    &&& forall|d: int| 2 <= d < n ==> #[trigger] (n % d) != 0
}

/// Hoppene på lukket form.
pub proof fn lemma_proeve_lukket(start: int, steg: int, j: nat, p: int)
    requires
        p > 0,
        0 <= start < p,
    ensures
        proeve(start, steg, j, p) == (start + j * steg) % p,
    decreases j,
{
    if j == 0 {
        vstd::arithmetic::div_mod::lemma_small_mod(start as nat, p as nat);
    } else {
        lemma_proeve_lukket(start, steg, (j - 1) as nat, p);
        let a = start + (j - 1) * steg;
        vstd::arithmetic::div_mod::lemma_add_mod_noop_right(steg, a, p);
        assert(steg + a == start + j * steg) by (nonlinear_arith)
            requires
                a == start + (j - 1) * steg,
        ;
    }
}

/// Et primtall deler ikke et produkt av to tall som begge er mindre enn det.
pub proof fn lemma_euklid(a: int, b: int, p: int)
    requires
        er_primtall(p),
        0 < a < p,
        0 < b < p,
    ensures
        (a * b) % p != 0,
    decreases b,
{
    if b == 1 {
        vstd::arithmetic::div_mod::lemma_small_mod(a as nat, p as nat);
    } else {
        let q = p / b;
        let r = p % b;
        vstd::arithmetic::div_mod::lemma_fundamental_div_mod(p, b);
        assert(p % b != 0);
        vstd::arithmetic::div_mod::lemma_mod_pos_bound(p, b);
        lemma_euklid(a, r, p);
        if (a * b) % p == 0 {
            let t = (a * b) / p;
            vstd::arithmetic::div_mod::lemma_fundamental_div_mod(a * b, p);
            assert(a * r == (a - q * t) * p) by (nonlinear_arith)
                requires
                    p == b * q + r,
                    a * b == p * t,
            ;
            vstd::arithmetic::div_mod::lemma_mod_multiples_basic(a - q * t, p);
        }
    }
}

/// Med primtallskapasitet lander de første `p` hoppene på ulike plasser.
pub proof fn lemma_proeve_injektiv(start: int, steg: int, i: int, j: int, p: int)
    requires
        er_primtall(p),
        0 <= start < p,
        1 <= steg < p,
        1 <= i < j <= p,
    ensures
        proeve(start, steg, i as nat, p) != proeve(start, steg, j as nat, p),
{
    lemma_proeve_lukket(start, steg, i as nat, p);
    lemma_proeve_lukket(start, steg, j as nat, p);
    let x = start + j * steg;
    let y = start + i * steg;
    vstd::arithmetic::div_mod::lemma_mod_equivalence(x, y, p);
    assert(x - y == (j - i) * steg) by (nonlinear_arith)
        requires
            x == start + j * steg,
            y == start + i * steg,
    ;
    lemma_euklid(j - i, steg, p);
}

/// Med primtallskapasitet når de første `p` hoppene hver plass i tabellen.
pub proof fn lemma_proeve_naar_alle(start: int, steg: int, p: int, plass: int)
    requires
        er_primtall(p),
        0 <= start < p,
        1 <= steg < p,
        0 <= plass < p,
    ensures
        exists|j: int| 1 <= j <= p && #[trigger] proeve(start, steg, j as nat, p) == plass,
{
    let hopp = vstd::set_lib::set_int_range(1, p + 1);
    let f = |j: int| proeve(start, steg, j as nat, p);
    let truffet = hopp.map(f);
    vstd::set_lib::lemma_int_range(1, p + 1);
    vstd::set_lib::lemma_int_range(0, p);
    assert(vstd::relations::injective_on(f, hopp)) by {
        assert forall|a: int, b: int| hopp.contains(a) && hopp.contains(b) && #[trigger] f(a) == #[trigger] f(b)
            implies a == b by {
            if a < b {
                lemma_proeve_injektiv(start, steg, a, b, p);
            } else if b < a {
                lemma_proeve_injektiv(start, steg, b, a, p);
            }
        }
    }
    vstd::set_lib::lemma_map_size(hopp, truffet, f);
    assert(truffet.subset_of(vstd::set_lib::set_int_range(0, p))) by {
        assert forall|x: int| truffet.contains(x) implies vstd::set_lib::set_int_range(0, p).contains(x) by {
            let j = choose|j: int| hopp.contains(j) && f(j) == x;
            lemma_proeve_i_tabell(start, steg, j as nat, p);
        }
    }
    vstd::set_lib::lemma_subset_equality(truffet, vstd::set_lib::set_int_range(0, p));
    assert(vstd::set_lib::set_int_range(0, p).contains(plass));
    assert(truffet.contains(plass));
    let j = choose|j: int| hopp.contains(j) && f(j) == plass;
    assert(proeve(start, steg, j as nat, p) == plass);
}

/// Er kapasiteten et primtall og minst én plass ledig, finner innsetting
/// alltid en ledig plass, etter høyst så mange hopp som kapasiteten.
pub proof fn lov_primtall_gir_ledig_plass(t: HashTabell2, nokkel: usize)
    requires
        t.er_gyldig(),
        er_primtall(t.kapasitet_spec() as int),
        exists|i: int| 0 <= i < t.kapasitet_spec() && #[trigger] t.plasser()[i] is None,
    ensures
        t.hopp_for(nokkel) <= t.kapasitet_spec(),
        t.kollisjoner_spec() + t.kapasitet_spec() <= usize::MAX ==> t.kan_sette_inn(nokkel),
{
    let p = t.kapasitet_spec() as int;
    let start = t.hash_spec(nokkel);
    let steg = t.hash2_spec(nokkel);
    t.lemma_gyldig();
    if t.plasser()[start] is Some {
        let i = choose|i: int| 0 <= i < p && #[trigger] t.plasser()[i] is None;
        lemma_proeve_naar_alle(start, steg, p, i);
        let j = choose|j: int| 1 <= j <= p && #[trigger] proeve(start, steg, j as nat, p) == i;
        assert(ledig_proeve(t.plasser(), start, steg, j));
        lemma_forste_ledige(t.plasser(), start, steg, j);
    }
}

/// Antall bytes i et `usize` på denne maskinen.
pub open spec fn bredde_spec() -> int {
    if usize::BITS == 64 { 8 } else if usize::BITS == 32 { 4 } else { 2 }
}

/// Tallet som bytene fra og med `i` gir, minst signifikante først: de to
/// laveste bytene, satt sammen med resten av de høyere bytene ved deling med
/// `max`.
pub open spec fn usize_fra_bytes(b: Seq<u8>, i: int, max: usize) -> usize {
    let bredde = bredde_spec();
    let lav = (b[i] as usize) | ((b[i + 1] as usize) << 8usize);
    let hoy: usize = if bredde > 2 {
        ((b[i + 2] as usize) << 16usize) | ((b[i + 3] as usize) << 24usize) | if bredde > 4 {
            ((b[i + 4] as usize) << 32usize) | ((b[i + 5] as usize) << 40usize) | ((b[i + 6] as usize) << 48usize)
                | ((b[i + 7] as usize) << 56usize)
        } else {
            0usize
        }
    } else {
        0usize
    };
    lav | (hoy % max)
}

/// Antall bytes i et `usize`.
pub fn bredde() -> (res: usize)
    ensures
        res == bredde_spec(),
{
    if usize::BITS == 64 {
        8
    } else if usize::BITS == 32 {
        4
    } else {
        2
    }
}

/// Gjør bytene om til tall av bredden til `usize`, se `usize_fra_bytes`.
pub fn heltall_fra_bytes(filbuffer: &Vec<u8>, antall: usize, max: usize) -> (tall: Vec<usize>)
    requires
        filbuffer@.len() == bredde_spec() * antall,
        max > 0,
    ensures
        tall@.len() == antall,
        forall|i: int| 0 <= i < antall ==> #[trigger] tall@[i] == usize_fra_bytes(filbuffer@, bredde_spec() * i, max),
{
    let bredde = bredde();
    let lengde = filbuffer.len();
    let mut tall: Vec<usize> = Vec::new();
    let mut i: usize = 0;
    while i < antall
        invariant
            lengde == filbuffer@.len(),
            filbuffer@.len() == bredde * antall,
            bredde == bredde_spec(),
            max > 0,
            i <= antall,
            tall@.len() == i,
            forall|k: int| 0 <= k < i ==> #[trigger] tall@[k] == usize_fra_bytes(filbuffer@, bredde * k, max),
        decreases antall - i,
    {
        assert(bredde * i + bredde <= bredde * antall) by (nonlinear_arith)
            requires
                i < antall,
                bredde >= 0,
        ;
        let p = bredde * i;
        let lav = (filbuffer[p] as usize) | ((filbuffer[p + 1] as usize) << 8usize);
        let hoy: usize = if bredde > 2 {
            ((filbuffer[p + 2] as usize) << 16usize) | ((filbuffer[p + 3] as usize) << 24usize) | if bredde > 4 {
                ((filbuffer[p + 4] as usize) << 32usize) | ((filbuffer[p + 5] as usize) << 40usize)
                    | ((filbuffer[p + 6] as usize) << 48usize) | ((filbuffer[p + 7] as usize) << 56usize)
            } else {
                0usize
            }
        } else {
            0usize
        };
        tall.push(lav | (hoy % max));
        i = i + 1;
    }
    tall
}

} // verus!
