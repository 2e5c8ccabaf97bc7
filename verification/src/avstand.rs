//! Avstander som kan være uendelige, og køelementer ordnet etter avstand.
use vstd::prelude::*;
use vstd::std_specs::cmp::PartialOrdSpecImpl;
use vstd::std_specs::cmp::PartialEqSpecImpl;
use vstd::std_specs::ops::AddSpecImpl;
use core::cmp::Ordering;

verus! {

/// En avstand: et tall, eller uendelig for noder som ikke nås.
#[derive(Clone, Copy, Debug, PartialEq, Eq, Structural)]
pub enum Avstand {
    Verdi(usize),
    Uendelig,
}

/// Ordningen på avstander: tall etter størrelse, og uendelig størst.
pub open spec fn avstand_ordning(a: Avstand, b: Avstand) -> Ordering {
    match (a, b) {
        (Avstand::Verdi(x), Avstand::Verdi(y)) => if x < y {
            Ordering::Less
        } else if x == y {
            Ordering::Equal
        } else {
            Ordering::Greater
        },
        (Avstand::Verdi(_), Avstand::Uendelig) => Ordering::Less,
        (Avstand::Uendelig, Avstand::Verdi(_)) => Ordering::Greater,
        (Avstand::Uendelig, Avstand::Uendelig) => Ordering::Equal,
    }
}

/// `a` er kortere enn `b`.
pub open spec fn kortere(a: Avstand, b: Avstand) -> bool {
    match (a, b) {
        (Avstand::Verdi(x), Avstand::Verdi(y)) => x < y,
        (Avstand::Verdi(_), Avstand::Uendelig) => true,
        _ => false,
    }
}

/// Summen av to avstander: uendelig om en av dem er det.
pub open spec fn sum_avstand(a: Avstand, b: Avstand) -> Avstand {
    match (a, b) {
        (Avstand::Verdi(x), Avstand::Verdi(y)) => Avstand::Verdi((x + y) as usize),
        _ => Avstand::Uendelig,
    }
}

/// Summen går ikke over.
pub open spec fn kan_legges_sammen(a: Avstand, b: Avstand) -> bool {
    match (a, b) {
        (Avstand::Verdi(x), Avstand::Verdi(y)) => x + y <= usize::MAX,
        _ => true,
    }
}

/// Om summen av to avstander får plass i en `usize`.
pub(crate) fn kan_legges_sammen_exec(a: Avstand, b: Avstand) -> (res: bool)
    ensures
        res == kan_legges_sammen(a, b),
{
    match (a, b) {
        (Avstand::Verdi(x), Avstand::Verdi(y)) => x <= usize::MAX - y,
        _ => true,
    }
}

impl PartialOrd for Avstand {
    fn partial_cmp(&self, other: &Avstand) -> (res: Option<Ordering>)
    {
        match (self, other) {
            (Avstand::Verdi(x), Avstand::Verdi(y)) => if *x < *y {
                Some(Ordering::Less)
            } else if *x == *y {
                Some(Ordering::Equal)
            } else {
                Some(Ordering::Greater)
            },
            (Avstand::Verdi(_), Avstand::Uendelig) => Some(Ordering::Less),
            (Avstand::Uendelig, Avstand::Verdi(_)) => Some(Ordering::Greater),
            (Avstand::Uendelig, Avstand::Uendelig) => Some(Ordering::Equal),
        }
    }
}

impl PartialOrdSpecImpl for Avstand {
    open spec fn obeys_partial_cmp_spec() -> bool {
        true
    }

    open spec fn partial_cmp_spec(&self, other: &Avstand) -> Option<Ordering> {
        Some(avstand_ordning(*self, *other))
    }
}

impl core::ops::Add for Avstand {
    type Output = Avstand;

    fn add(self, rhs: Avstand) -> (res: Avstand)
    {
        if let Avstand::Verdi(venstre) = self {
            if let Avstand::Verdi(hoyre) = rhs {
                return Avstand::Verdi(venstre + hoyre);
            }
        }
        Avstand::Uendelig
    }
}

impl AddSpecImpl for Avstand {
    open spec fn obeys_add_spec() -> bool {
        true
    }

    open spec fn add_req(self, rhs: Avstand) -> bool {
        kan_legges_sammen(self, rhs)
    }

    open spec fn add_spec(self, rhs: Avstand) -> Avstand {
        sum_avstand(self, rhs)
    }
}

impl Avstand {
    /// Legger `rhs` til avstanden.
    pub fn add_assign(&mut self, rhs: Avstand)
        requires
            kan_legges_sammen(*old(self), rhs),
        ensures
            *final(self) == sum_avstand(*old(self), rhs),
    {
        *self = *self + rhs;
    }
}

/// En node i køen med avstanden den ble lagt inn med.
#[derive(Debug, Clone, Copy)]
pub struct Koelement {
    pub node: usize,
    pub avstand: Avstand,
}

impl PartialEq for Koelement {
    fn eq(&self, other: &Koelement) -> (res: bool)
    {
        self.avstand == other.avstand
    }
}

impl PartialEqSpecImpl for Koelement {
    open spec fn obeys_eq_spec() -> bool {
        true
    }

    open spec fn eq_spec(&self, other: &Koelement) -> bool {
        self.avstand == other.avstand
    }
}

/// Køelementer ordnes omvendt etter avstand: kortest avstand er størst.
pub open spec fn koelement_ordning(a: Koelement, b: Koelement) -> Ordering {
    if a.avstand == b.avstand {
        Ordering::Equal
    } else if avstand_ordning(a.avstand, b.avstand) == Ordering::Greater {
        Ordering::Less
    } else {
        Ordering::Greater
    }
}

impl PartialOrd for Koelement {
    fn partial_cmp(&self, other: &Koelement) -> (res: Option<Ordering>)
    {
        if self.avstand == other.avstand {
            Some(Ordering::Equal)
        } else if self.avstand > other.avstand {
            Some(Ordering::Less)
        } else {
            Some(Ordering::Greater)
        }
    }
}

impl PartialOrdSpecImpl for Koelement {
    open spec fn obeys_partial_cmp_spec() -> bool {
        true
    }

    open spec fn partial_cmp_spec(&self, other: &Koelement) -> Option<Ordering> {
        Some(koelement_ordning(*self, *other))
    }
}

/// `a` står foran `b` i køen: `a` har kortere avstand.
pub proof fn lemma_foran(a: Koelement, b: Koelement)
    ensures
        (koelement_ordning(a, b) == Ordering::Greater) <==> kortere(a.avstand, b.avstand),
{
}

} // verus!
