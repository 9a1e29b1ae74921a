//! Branches and clients compare equal, and are ordered, by their code alone.
use vstd::prelude::*;
use std::cmp::Ordering;
use crate::agencia::Agencia;
use crate::cliente::Cliente;
use crate::dated_cliente;
use crate::tournament::TWrapper;
use vstd::std_specs::cmp::{PartialEqSpec, PartialOrdSpec};

verus! {

/// The order of two codes.
pub open spec fn code_order(a: u32, b: u32) -> Option<Ordering> {
    if a < b {
        Some(Ordering::Less)
    } else if a == b {
        Some(Ordering::Equal)
    } else {
        Some(Ordering::Greater)
    }
}

fn compare_codes(a: u32, b: u32) -> (r: Option<Ordering>)
    ensures
        r == code_order(a, b),
{
    if a < b {
        Some(Ordering::Less)
    } else if a == b {
        Some(Ordering::Equal)
    } else {
        Some(Ordering::Greater)
    }
}

impl PartialEq for Agencia {
    fn eq(&self, other: &Agencia) -> (r: bool) {
        self.codigo == other.codigo
    }
}

impl vstd::std_specs::cmp::PartialEqSpecImpl for Agencia {
    open spec fn obeys_eq_spec() -> bool {
        true
    }

    open spec fn eq_spec(&self, other: &Agencia) -> bool {
        self.codigo == other.codigo
    }
}

impl PartialOrd for Agencia {
    fn partial_cmp(&self, other: &Agencia) -> (r: Option<Ordering>) {
        compare_codes(self.codigo, other.codigo)
    }
}

impl vstd::std_specs::cmp::PartialOrdSpecImpl for Agencia {
    open spec fn obeys_partial_cmp_spec() -> bool {
        true
    }

    open spec fn partial_cmp_spec(&self, other: &Agencia) -> Option<Ordering> {
        code_order(self.codigo, other.codigo)
    }
}

impl PartialEq for Cliente {
    fn eq(&self, other: &Cliente) -> (r: bool) {
        self.codigo == other.codigo
    }
}

impl vstd::std_specs::cmp::PartialEqSpecImpl for Cliente {
    open spec fn obeys_eq_spec() -> bool {
        true
    }

    open spec fn eq_spec(&self, other: &Cliente) -> bool {
        self.codigo == other.codigo
    }
}

impl PartialOrd for Cliente {
    fn partial_cmp(&self, other: &Cliente) -> (r: Option<Ordering>) {
        compare_codes(self.codigo, other.codigo)
    }
}

impl vstd::std_specs::cmp::PartialOrdSpecImpl for Cliente {
    open spec fn obeys_partial_cmp_spec() -> bool {
        true
    }

    open spec fn partial_cmp_spec(&self, other: &Cliente) -> Option<Ordering> {
        code_order(self.codigo, other.codigo)
    }
}

impl PartialEq for dated_cliente::Cliente {
    fn eq(&self, other: &dated_cliente::Cliente) -> (r: bool) {
        self.codigo == other.codigo
    }
}

impl vstd::std_specs::cmp::PartialEqSpecImpl for dated_cliente::Cliente {
    open spec fn obeys_eq_spec() -> bool {
        true
    }

    open spec fn eq_spec(&self, other: &dated_cliente::Cliente) -> bool {
        self.codigo == other.codigo
    }
}

impl PartialOrd for dated_cliente::Cliente {
    fn partial_cmp(&self, other: &dated_cliente::Cliente) -> (r: Option<Ordering>) {
        compare_codes(self.codigo, other.codigo)
    }
}

impl vstd::std_specs::cmp::PartialOrdSpecImpl for dated_cliente::Cliente {
    open spec fn obeys_partial_cmp_spec() -> bool {
        true
    }

    open spec fn partial_cmp_spec(&self, other: &dated_cliente::Cliente) -> Option<Ordering> {
        code_order(self.codigo, other.codigo)
    }
}

/// Wrapped values compare as the values they wrap.
impl<T: PartialEq> PartialEq for TWrapper<T> {
    fn eq(&self, other: &TWrapper<T>) -> (r: bool) {
        self.wrap == other.wrap
    }
}

impl<T: PartialEq> vstd::std_specs::cmp::PartialEqSpecImpl for TWrapper<T> {
    open spec fn obeys_eq_spec() -> bool {
        T::obeys_eq_spec()
    }

    open spec fn eq_spec(&self, other: &TWrapper<T>) -> bool {
        self.wrap.eq_spec(&other.wrap)
    }
}

impl<T: PartialOrd> PartialOrd for TWrapper<T> {
    fn partial_cmp(&self, other: &TWrapper<T>) -> (r: Option<Ordering>) {
        self.wrap.partial_cmp(&other.wrap)
    }
}

impl<T: PartialOrd> vstd::std_specs::cmp::PartialOrdSpecImpl for TWrapper<T> {
    open spec fn obeys_partial_cmp_spec() -> bool {
        T::obeys_partial_cmp_spec()
    }

    open spec fn partial_cmp_spec(&self, other: &TWrapper<T>) -> Option<Ordering> {
        self.wrap.partial_cmp_spec(&other.wrap)
    }
}

} // verus!
