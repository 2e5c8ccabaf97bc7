//! En node i en dobbelt lenket liste av bytes.
use vstd::prelude::*;

verus! {

/// En node med en verdi og lenker til noden før og etter.
pub struct Node {
    verdi: u8,
    forrige: Option<Box<Node>>,
    neste: Option<Box<Node>>,
}

impl Node {
    /// Verdien.
    pub closed spec fn verdi_spec(&self) -> u8 {
        self.verdi
    }

    /// Noden før.
    pub closed spec fn forrige_spec(&self) -> Option<Box<Node>> {
        self.forrige
    }

    /// Noden etter.
    pub closed spec fn neste_spec(&self) -> Option<Box<Node>> {
        self.neste
    }

    /// En node med verdi og lenker begge veier.
    pub fn new(verdi: u8, forrige: Option<Box<Node>>, neste: Option<Box<Node>>) -> (res: Self)
        ensures
            res.verdi_spec() == verdi,
            res.forrige_spec() == forrige,
            res.neste_spec() == neste,
    {
        Self { verdi, forrige, neste }
    }

    /// En node sist i lista: ingen node etter.
    pub fn new_tail(verdi: u8, forrige: Option<Box<Node>>) -> (res: Self)
        ensures
            res.verdi_spec() == verdi,
            res.forrige_spec() == forrige,
            res.neste_spec() is None,
    {
        Self { verdi, forrige, neste: None }
    }

    /// En node først i lista: ingen node før.
    pub fn new_head(verdi: u8, neste: Option<Box<Node>>) -> (res: Self)
        ensures
            res.verdi_spec() == verdi,
            res.forrige_spec() is None,
            res.neste_spec() == neste,
    {
        Self { verdi, forrige: None, neste }
    }

    /// Verdien.
    pub fn verdi(&self) -> (res: u8)
        ensures
            res == self.verdi_spec(),
    {
        self.verdi
    }
}

} // verus!
