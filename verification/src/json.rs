//! Shape of one net file: a list of transition records.
//!
//! Field names follow the on-disk schema.  Instruction lists hold raw
//! `(encoded_id, value)` pairs; decoding them is the model's job.

use vstd::prelude::*;

verus! {

/// One transition record as it stands in a net file.
#[derive(Debug)]
pub struct Transition {
    pub ii_idglobal: usize,
    pub ii_valor: isize,
    pub ii_tiempo: usize,
    pub ii_duracion_disparo: usize,
    pub ii_listactes_iul: Vec<(isize, isize)>,
    pub ii_listactes_pul: Vec<(isize, isize)>,
    pub ib_desalida: bool,
}

/// A whole net file: the record list.
#[derive(Debug)]
pub struct Net {
    pub ia_red: Vec<Transition>,
}

} // verus!
