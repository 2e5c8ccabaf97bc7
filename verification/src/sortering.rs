//! Shellsort av heltall, sjekk av sortering og tilfeldige tall fra bytes.
use vstd::prelude::*;
use crate::minheap::{bytt, teller, samme_elementer, lemma_bytt_teller, bytt_exec};

verus! {

/// Listen er sortert stigende.
pub open spec fn sortert(s: Seq<u32>) -> bool {
    forall|a: int, b: int| 0 <= a <= b < s.len() ==> s[a] <= s[b]
}

/// Sjekk av om en liste er sortert.
pub trait IsSortedExt {
    /// Om listen er sortert stigende.
    fn is_sorted(&self) -> bool;
}

impl IsSortedExt for Vec<u32> {
    fn is_sorted(&self) -> (res: bool)
        ensures
            res == sortert(self@),
    {
        let mut retval = true;
        let mut i: usize = 1;
        while i < self.len()
            invariant_except_break
                1 <= i,
                self@.len() > 0 ==> i <= self@.len(),
                self@.len() > 0 ==> sortert(self@.take(i as int)),
                retval,
            ensures
                retval ==> self@.len() == 0 || (i == self@.len() && sortert(self@.take(i as int))),
                !retval ==> 1 <= i < self@.len() && self@[i as int] < self@[i - 1],
            decreases self@.len() - i,
        {
            if self[i] < self[i - 1] {
                retval = false;
                break;
            }
            assert forall|a: int, b: int| 0 <= a <= b < i + 1 implies self@[a] <= self@[b] by {
                if b == i {
                    if a < i {
                        assert(self@.take(i as int)[a] <= self@.take(i as int)[i - 1]);
                    }
                } else {
                    assert(self@.take(i as int)[a] <= self@.take(i as int)[b]);
                }
            }
            assert(sortert(self@.take(i + 1)));
            i = i + 1;
        }
        proof {
            if retval && self@.len() > 0 {
                assert(self@.take(i as int) =~= self@);
            }
        }
        retval
    }
}

/// Ett pass av shellsort: innsettingssortering med avstand `sprik`.
fn sprik_pass(liste: &mut Vec<u32>, sprik: usize)
    ensures
        final(liste)@.len() == old(liste)@.len(),
        samme_elementer(old(liste)@, final(liste)@),
        sprik == 1 ==> sortert(final(liste)@),
        sortert(old(liste)@) ==> final(liste)@ == old(liste)@,
{
    let ghost start = liste@;
    let mut i: usize = sprik;
    while i < liste.len()
        invariant
            sprik <= i,
            i <= liste@.len() || i == sprik,
            liste@.len() == start.len(),
            samme_elementer(start, liste@),
            sprik == 1 && i <= liste@.len() ==> sortert(liste@.take(i as int)),
            sortert(start) ==> liste@ == start,
        decreases liste@.len() - i,
    {
        let mut j: usize = i;
        let temp = liste[i];
        while j >= sprik && liste[j - sprik] > temp
            invariant
                j <= i < liste@.len(),
                sprik <= i,
                liste@.len() == start.len(),
                liste@[j as int] == temp,
                samme_elementer(start, liste@),
                sortert(start) ==> liste@ == start,
                sprik == 1 ==> {
                    &&& sortert(liste@.take(j as int))
                    &&& forall|a: int, b: int| j < a <= b <= i ==> liste@[a] <= liste@[b]
                    &&& forall|k: int| j < k <= i ==> temp < #[trigger] liste@[k]
                    &&& forall|a: int, b: int| 0 <= a < j && j < b <= i ==> liste@[a] <= liste@[b]
                },
            decreases j,
        {
            let ghost for_bytt = liste@;
            bytt_exec(liste, j, j - sprik);
            proof {
                lemma_bytt_teller(for_bytt, j as int, j - sprik);
                assert forall|x: u32| #[trigger] teller(start, x) == teller(liste@, x) by {
                    assert(teller(start, x) == teller(for_bytt, x));
                    assert(teller(for_bytt, x) == teller(bytt(for_bytt, j as int, j - sprik), x));
                }
                if sprik == 1 {
                    let forkortet = liste@.take(j - 1);
                    assert forall|a: int, b: int| 0 <= a <= b < j - 1 implies #[trigger] forkortet[a] <= #[trigger] forkortet[b] by {
                        assert(for_bytt.take(j as int)[a] <= for_bytt.take(j as int)[b]);
                    }
                    assert forall|a: int, b: int| 0 <= a < j - 1 && j - 1 < b <= i implies liste@[a] <= liste@[b] by {
                        if b == j {
                            assert(for_bytt.take(j as int)[a] <= for_bytt.take(j as int)[j - 1]);
                        }
                    }
                    assert forall|a: int, b: int| j - 1 < a <= b <= i implies liste@[a] <= liste@[b] by {
                        if a == j {
                            if b > j {
                                assert(for_bytt[a] < for_bytt[b]);
                                assert(for_bytt[j - 1] <= for_bytt[b]);
                            }
                        }
                    }
                }
            }
            j = j - sprik;
        }
        proof {
            if sprik == 1 {
                let prefiks = liste@.take(i + 1);
                assert forall|a: int, b: int| 0 <= a <= b < i + 1 implies #[trigger] prefiks[a] <= #[trigger] prefiks[b] by {
                    if b < j {
                        assert(liste@.take(j as int)[a] <= liste@.take(j as int)[b]);
                    } else if b == j {
                        if a < j {
                            assert(liste@.take(j as int)[a] <= liste@.take(j as int)[j - 1]);
                        }
                    } else if a == j {
                        assert(temp < liste@[b]);
                    }
                }
            }
        }
        let ghost for_set = liste@;
        liste.set(j, temp);
        assert(liste@ =~= for_set);
        i = i + 1;
    }
    proof {
        if sprik == 1 && liste@.len() > 0 {
            assert(liste@.take(liste@.len() as int) =~= liste@);
        }
    }
}

/// Shellsort med de gitte avstandene. Listen av avstander fullføres med 1
/// (om den ikke alt slutter på det) og så 0, så det siste passet alltid er
/// en vanlig innsettingssortering.
pub fn shellsort(liste: &mut Vec<u32>, sprik_liste: Vec<usize>)
    requires
        sprik_liste@.len() > 0,
    ensures
        final(liste)@.len() == old(liste)@.len(),
        samme_elementer(old(liste)@, final(liste)@),
        sortert(final(liste)@),
{
    let mut sprik_liste = sprik_liste;
    if sprik_liste[sprik_liste.len() - 1] != 1 {
        sprik_liste.push(1);
    }
    sprik_liste.push(0);
    let n = sprik_liste.len();
    assert(sprik_liste@[n - 2] == 1);
    let ghost start = liste@;
    let mut k: usize = 0;
    while k < n
        invariant
            n == sprik_liste@.len(),
            n >= 2,
            sprik_liste@[n - 2] == 1,
            k <= n,
            liste@.len() == start.len(),
            samme_elementer(start, liste@),
            k >= n - 1 ==> sortert(liste@),
        decreases n - k,
    {
        let ghost for_pass = liste@;
        sprik_pass(liste, sprik_liste[k]);
        proof {
            assert forall|x: u32| #[trigger] teller(start, x) == teller(liste@, x) by {
                assert(teller(start, x) == teller(for_pass, x));
            }
        }
        k = k + 1;
    }
}

/// Tallet de fire bytene fra og med `i` gir, mest signifikante først.
pub open spec fn ord_fra_bytes(b: Seq<u8>, i: int) -> int {
    b[i] * 0x1000000 + b[i + 1] * 0x10000 + b[i + 2] * 0x100 + b[i + 3]
}

/// Gjør hver fjerde byte om til et tall, mest signifikante byte først, og
/// tar resten ved deling med `max`.
pub fn heltall_fra_bytes(filbuffer: &Vec<u8>, antall: usize, max: u32) -> (tall: Vec<u32>)
    requires
        filbuffer@.len() == 4 * antall,
        max > 0,
    ensures
        tall@.len() == antall,
        forall|i: int| 0 <= i < antall ==> #[trigger] tall@[i] == ord_fra_bytes(filbuffer@, 4 * i) % (max as int),
{
    let mut tall: Vec<u32> = Vec::new();
    let mut i: usize = 0;
    let lengde = filbuffer.len();
    while i < antall
        invariant
            lengde == filbuffer@.len(),
            filbuffer@.len() == 4 * antall,
            max > 0,
            i <= antall,
            tall@.len() == i,
            forall|k: int| 0 <= k < i ==> #[trigger] tall@[k] == ord_fra_bytes(filbuffer@, 4 * k) % (max as int),
        decreases antall - i,
    {
        let a = filbuffer[4 * i];
        let b = filbuffer[4 * i + 1];
        let c = filbuffer[4 * i + 2];
        let d = filbuffer[4 * i + 3];
        let ord: u32 = (a as u32) << 24 | (b as u32) << 16 | (c as u32) << 8 | (d as u32);
        assert(ord == a * 0x1000000 + b * 0x10000 + c * 0x100 + d) by (bit_vector)
            requires
                ord == (a as u32) << 24 | (b as u32) << 16 | (c as u32) << 8 | (d as u32),
        ;
        tall.push(ord % max);
        i = i + 1;
    }
    tall
}

} // verus!
