//! What the batched evaluator computes between receiving positions and
//! running the network: how large a batch is, and its input rows.

use vstd::prelude::*;

use crate::datagen::{bits_of, feature_bits};
use crate::game::GameImpl;

verus! {

/// The largest batch the evaluator forms.
pub const EXECUTOR_BATCH_SIZE: usize = 1024;

/// The batch size for an evaluator serving `num_pipes` clients: one slot per
/// client, at most `EXECUTOR_BATCH_SIZE`.
pub fn batch_capacity(num_pipes: usize) -> (r: usize)
    ensures
        r == if num_pipes < EXECUTOR_BATCH_SIZE {
            num_pipes
        } else {
            EXECUTOR_BATCH_SIZE
        },
{
    if num_pipes < EXECUTOR_BATCH_SIZE {
        num_pipes
    } else {
        EXECUTOR_BATCH_SIZE
    }
}

/// The network input of one batch, row by row: the feature bits of each
/// waiting position, in the order they were pulled, then rows of zeros up
/// to `batch_size`.
pub fn batch_input<G: GameImpl>(boards: &Vec<G>, batch_size: usize) -> (r: Vec<Vec<u8>>)
    requires
        boards@.len() <= batch_size,
    ensures
        r@.len() == batch_size,
        forall|i: int|
            0 <= i < batch_size ==> (#[trigger] r@[i])@ == if i < boards@.len() {
                bits_of(boards@[i].spec_features(), G::spec_feature_dim())
            } else {
                Seq::new(G::spec_feature_dim(), |k: int| 0u8)
            },
{
    let dim = G::feature_dim();
    let mut rows: Vec<Vec<u8>> = Vec::new();
    let mut i: usize = 0;
    while i < batch_size
        invariant
            boards@.len() <= batch_size,
            dim == G::spec_feature_dim(),
            i <= batch_size,
            rows@.len() == i,
            forall|j: int|
                0 <= j < i ==> (#[trigger] rows@[j])@ == if j < boards@.len() {
                    bits_of(boards@[j].spec_features(), G::spec_feature_dim())
                } else {
                    Seq::new(G::spec_feature_dim(), |k: int| 0u8)
                },
        decreases batch_size - i,
    {
        if i < boards.len() {
            let row = feature_bits(&boards[i]);
            rows.push(row);
        } else {
            let mut row: Vec<u8> = Vec::new();
            let mut z: usize = 0;
            while z < dim
                invariant
                    z <= dim,
                    row@ == Seq::new(z as nat, |k: int| 0u8),
                decreases dim - z,
            {
                row.push(0);
                z = z + 1;
                assert(row@ =~= Seq::new(z as nat, |k: int| 0u8));
            }
            rows.push(row);
        }
        i = i + 1;
    }
    rows
}

} // verus!
