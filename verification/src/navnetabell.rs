//! En hashtabell for navn, der hashen vekter hvert tegn med plassen sin.
use vstd::prelude::*;
use crate::hashtabell::{botte_innhold, legg_foran, botte_har};

verus! {

/// Summen av `(i + 1) * 7 * tegn` over tegnene i strengen.
pub open spec fn vektet_sum(s: Seq<char>) -> int
    decreases s.len(),
{
    if s.len() == 0 {
        0
    } else {
        vektet_sum(s.drop_last()) + s.len() * 7 * (s.last() as u32 as int)
    }
}

/// Hashen regnes uten å gå over `usize`.
pub open spec fn kan_hashes(s: Seq<char>) -> bool {
    &&& vektet_sum(s) <= usize::MAX
    &&& 7 * s.len() <= usize::MAX
}

/// Hashen til en streng i en tabell med gitt kapasitet.
pub open spec fn navn_hash(s: Seq<char>, kapasitet: int) -> int {
    vektet_sum(s) % kapasitet
}

/// Summen vokser når tegn legges til.
pub proof fn lemma_vektet_sum_voksende(s: Seq<char>, n: int)
    requires
        0 <= n <= s.len(),
    ensures
        0 <= vektet_sum(s.take(n)) <= vektet_sum(s),
    decreases s.len(),
{
    if n < s.len() {
        assert(s.take(n) =~= s.drop_last().take(n));
        lemma_vektet_sum_voksende(s.drop_last(), n);
        vstd::utf8::char_is_scalar(s.last());
        assert(s.len() * 7 * (s.last() as u32 as int) >= 0) by (nonlinear_arith)
            requires
                s.len() >= 0,
                (s.last() as u32 as int) >= 0,
        ;
    } else {
        assert(s.take(n) =~= s);
        lemma_vektet_sum_ikke_negativ(s);
    }
}

/// Summen er aldri negativ.
pub proof fn lemma_vektet_sum_ikke_negativ(s: Seq<char>)
    ensures
        vektet_sum(s) >= 0,
    decreases s.len(),
{
    if s.len() > 0 {
        lemma_vektet_sum_ikke_negativ(s.drop_last());
        assert(s.len() * 7 * (s.last() as u32 as int) >= 0) by (nonlinear_arith)
            requires
                s.len() >= 0,
                (s.last() as u32 as int) >= 0,
        ;
    }
}

/// Om hashen til strengen kan regnes ut uten å gå over `usize`.
pub fn hash_passer(streng: &String) -> (res: bool)
    ensures
        res == kan_hashes(streng@),
{
    let ghost s = streng@;
    let mut sum: usize = 0;
    let mut i: usize = 0;
    let mut gikk_over = false;
    for bokstav in it: streng.chars()
        invariant
            it.seq() == s,
            gikk_over ==> !kan_hashes(s),
            !gikk_over ==> i == it.index() && sum == vektet_sum(s.take(it.index())) && 7 * i <= usize::MAX,
    {
        if !gikk_over {
            let ghost k = it.index();
            assert(s.take(k + 1).drop_last() =~= s.take(k));
            assert(s.take(k + 1).last() == bokstav);
            proof {
                vstd::utf8::char_is_scalar(bokstav);
                lemma_vektet_sum_voksende(s, k + 1);
                lemma_vektet_sum_ikke_negativ(s.take(k));
            }
            let kode: u32 = bokstav as u32;
            match (i + 1).checked_mul(7) {
                None => {
                    gikk_over = true;
                },
                Some(vekt) => {
                    match vekt.checked_mul(kode as usize) {
                        None => {
                            gikk_over = true;
                        },
                        Some(ledd) => {
                            match sum.checked_add(ledd) {
                                None => {
                                    gikk_over = true;
                                },
                                Some(ny) => {
                                    sum = ny;
                                    i = i + 1;
                                },
                            }
                        },
                    }
                },
            }
        }
    }
    if gikk_over {
        return false;
    }
    assert(s.take(s.len() as int) =~= s);
    true
}

/// En hashtabell for strenger, der hver plass holder en liste med de
/// strengene som hasher dit, nyeste først.
pub struct HashTabell {
    tabell: Vec<Vec<String>>,
    kapasitet: usize,
    antall_verdier: usize,
    kollisjoner: usize,
}

impl HashTabell {
    /// Tabellen har én plass per kapasitet.
    pub closed spec fn er_gyldig(&self) -> bool {
        self.tabell@.len() == self.kapasitet
    }

    /// Innholdet i hver plass.
    pub closed spec fn botter(&self) -> Seq<Seq<Seq<char>>> {
        self.tabell@.map_values(|b: Vec<String>| botte_innhold(b@))
    }

    /// Kapasiteten.
    pub closed spec fn kapasitet_spec(&self) -> nat {
        self.kapasitet as nat
    }

    /// Antall strenger satt inn.
    pub closed spec fn antall_spec(&self) -> nat {
        self.antall_verdier as nat
    }

    /// Antall innsettinger i en plass som allerede hadde innhold.
    pub closed spec fn kollisjoner_spec(&self) -> nat {
        self.kollisjoner as nat
    }

    /// Om strengen ligger i tabellen.
    pub open spec fn inneholder_spec(&self, s: Seq<char>) -> bool {
        self.botter()[navn_hash(s, self.kapasitet_spec() as int)].contains(s)
    }

    /// En tabell med `storrelse` tomme plasser.
    pub fn new(storrelse: usize) -> (res: Self)
        ensures
            res.er_gyldig(),
            res.kapasitet_spec() == storrelse,
            res.antall_spec() == 0,
            res.kollisjoner_spec() == 0,
            res.botter().len() == storrelse,
            forall|i: int| 0 <= i < storrelse ==> #[trigger] res.botter()[i].len() == 0,
    {
        let mut tabell: Vec<Vec<String>> = Vec::new();
        let mut i: usize = 0;
        while i < storrelse
            invariant
                i <= storrelse,
                tabell@.len() == i,
                forall|j: int| 0 <= j < i ==> #[trigger] tabell@[j]@.len() == 0,
            decreases storrelse - i,
        {
            tabell.push(Vec::new());
            i = i + 1;
        }
        Self { tabell, kapasitet: storrelse, antall_verdier: 0, kollisjoner: 0 }
    }

    fn hash(&self, nokkel: &String) -> (res: usize)
        requires
            self.er_gyldig(),
            self.kapasitet > 0,
            kan_hashes(nokkel@),
        ensures
            res == navn_hash(nokkel@, self.kapasitet as int),
            res < self.kapasitet,
    {
        let mut hash: usize = 0;
        let mut i: usize = 0;
        let ghost s = nokkel@;
        for bokstav in it: nokkel.chars()
            invariant
                it.seq() == s,
                kan_hashes(s),
                i == it.index(),
                hash == vektet_sum(s.take(it.index())),
        {
            assert(s.take(it.index() + 1).drop_last() =~= s.take(it.index() as int));
            let kode: u32 = bokstav as u32;
            proof {
                vstd::utf8::char_is_scalar(bokstav);
                lemma_vektet_sum_voksende(s, it.index() + 1);
                lemma_vektet_sum_ikke_negativ(s.take(it.index() as int));
                assert((i + 1) * 7 <= 7 * s.len());
                assert((i + 1) * 7 * kode <= vektet_sum(s.take(it.index() + 1)) - vektet_sum(s.take(it.index() as int)));
            }
            hash = hash + (i + 1) * 7 * kode as usize;
            i = i + 1;
        }
        assert(s.take(s.len() as int) =~= s);
        hash % self.kapasitet
    }

    /// Setter inn strengen først i plassen den hasher til, og gir tilbake
    /// strengene plassen holdt fra før: er de noen, talte det som en kollisjon.
    pub fn sett_inn(&mut self, streng: String) -> (kolliderte_med: Vec<String>)
        requires
            old(self).er_gyldig(),
            old(self).kapasitet_spec() > 0,
            kan_hashes(streng@),
            old(self).antall_spec() < usize::MAX,
            old(self).kollisjoner_spec() < usize::MAX,
        ensures
            final(self).er_gyldig(),
            final(self).kapasitet_spec() == old(self).kapasitet_spec(),
            ({
                let h = navn_hash(streng@, old(self).kapasitet_spec() as int);
                &&& botte_innhold(kolliderte_med@) == old(self).botter()[h]
                &&& final(self).botter() == old(self).botter().update(h, seq![streng@] + old(self).botter()[h])
            }),
            final(self).antall_spec() == old(self).antall_spec() + 1,
            final(self).kollisjoner_spec() == old(self).kollisjoner_spec()
                + if kolliderte_med@.len() > 0 { 1int } else { 0int },
            forall|t: Seq<char>| #[trigger] final(self).inneholder_spec(t)
                <==> (t == streng@ || old(self).inneholder_spec(t)),
    {
        let hash = self.hash(&streng);
        let ghost gammel = self.botter();
        let fra_for = legg_foran(&mut self.tabell, hash, streng);
        if fra_for.len() > 0 {
            self.kollisjoner = self.kollisjoner + 1;
        }
        self.antall_verdier = self.antall_verdier + 1;
        assert(self.botter() =~= gammel.update(hash as int, seq![streng@] + gammel[hash as int]));
        proof {
            assert forall|t: Seq<char>| #[trigger] self.inneholder_spec(t)
                <==> (t == streng@ || old(self).inneholder_spec(t)) by {
                let ht = navn_hash(t, self.kapasitet as int);
                if ht == hash {
                    assert(self.botter()[ht] == seq![streng@] + gammel[ht]);
                    if t == streng@ {
                        assert(self.botter()[ht][0] == t);
                    }
                    if gammel[ht].contains(t) {
                        let k = choose|k: int| 0 <= k < gammel[ht].len() && gammel[ht][k] == t;
                        assert(self.botter()[ht][k + 1] == t);
                    }
                    if self.botter()[ht].contains(t) && t != streng@ {
                        let k = choose|k: int| 0 <= k < self.botter()[ht].len() && self.botter()[ht][k] == t;
                        assert(gammel[ht][k - 1] == t);
                    }
                } else {
                    assert(t != streng@);
                }
            }
        }
        fra_for
    }

    /// Om en streng lik `streng` er satt inn.
    pub fn inneholder(&self, streng: String) -> (res: bool)
        requires
            self.er_gyldig(),
            self.kapasitet_spec() > 0,
            kan_hashes(streng@),
        ensures
            res == self.inneholder_spec(streng@),
    {
        let hash = self.hash(&streng);
        botte_har(&self.tabell[hash], &streng)
    }

    /// Kapasiteten.
    pub fn kapasitet(&self) -> (res: usize)
        ensures
            res == self.kapasitet_spec(),
    {
        self.kapasitet
    }

    /// Antall strenger satt inn.
    pub fn antall_verdier(&self) -> (res: usize)
        ensures
            res == self.antall_spec(),
    {
        self.antall_verdier
    }

    /// Antall kollisjoner.
    pub fn kollisjoner(&self) -> (res: usize)
        ensures
            res == self.kollisjoner_spec(),
    {
        self.kollisjoner
    }
}

} // verus!
