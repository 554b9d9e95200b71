//! The pure parts of the adjacency list: the mark bits it keeps in the low
//! bits of its pointers, and when a key counts as present in the list.

use crate::graphmodels::epoch::lftt::{OpKind, OpStatus};
use vstd::prelude::*;

verus! {

/// Sets the mark bit (bit 0), leaving the other bits.
pub fn set_mark(p: usize) -> (r: usize)
    ensures
        r % 2 == 1,
        r / 2 == p / 2,
{
    assert((p | 1) % 2 == 1 && (p | 1) / 2 == p / 2) by (bit_vector);
    p | 1
}

/// Clears the mark bit, leaving the other bits.
pub fn clr_mark(p: usize) -> (r: usize)
    ensures
        r % 2 == 0,
        r / 2 == p / 2,
{
    assert((p & !1usize) % 2 == 0 && (p & !1usize) / 2 == p / 2) by (bit_vector);
    p & !1
}

/// Clears the mark bit of a pointer that carries the deletion mark.
pub fn clr_markd(p: usize) -> (r: usize)
    ensures
        r % 2 == 0,
        r / 2 == p / 2,
{
    assert((p & !1usize) % 2 == 0 && (p & !1usize) / 2 == p / 2) by (bit_vector);
    p & !1
}

/// The mark bit, as `0` or `1`.
pub fn is_marked(p: usize) -> (r: usize)
    ensures
        r == p % 2,
{
    assert(p & 1 == p % 2) by (bit_vector);
    p & 1
}

/// The invalid-deletion bit (bit 1), as `0` or `2`.
pub fn is_delinv(p: usize) -> (r: usize)
    ensures
        r == (p / 2) % 2 * 2,
{
    assert(p & 2 == (p / 2) % 2 * 2) by (bit_vector);
    p & 2
}

/// Sets the invalid-deletion bit, leaving the other bits.
pub fn set_delinv(p: usize) -> (r: usize)
    ensures
        (r / 2) % 2 == 1,
        r % 2 == p % 2,
        r / 4 == p / 4,
{
    assert(((p | 2) / 2) % 2 == 1 && (p | 2) % 2 == p % 2 && (p | 2) / 4 == p / 4) by (bit_vector);
    p | 2
}

/// Whether a node whose descriptor ran an operation of kind `op` counts as
/// present: a find leaves it as it was, an insertion counts once its
/// transaction committed, a deletion counts until then; otherwise the
/// descriptor's overrides decide.
pub fn is_key_exist(
    op: OpKind,
    is_node_active: bool,
    override_as_find: bool,
    override_as_delete: bool,
) -> (r: bool)
    ensures
        r == (match op {
            OpKind::Find => true,
            OpKind::Insert | OpKind::InsertEdge | OpKind::Connect => is_node_active,
            OpKind::Delete | OpKind::DeleteEdge => !is_node_active,
        } || override_as_find || (!is_node_active && override_as_delete)),
{
    match op {
        OpKind::Find => {
            return true;
        },
        OpKind::Insert | OpKind::InsertEdge | OpKind::Connect => {
            if is_node_active {
                return true;
            }
        },
        OpKind::Delete | OpKind::DeleteEdge => {
            if !is_node_active {
                return true;
            }
        },
    }
    override_as_find || (!is_node_active && override_as_delete)
}

/// A node is active once the transaction that wrote its descriptor committed.
pub fn is_node_active(status: OpStatus) -> (r: bool)
    ensures
        r == (status == OpStatus::Committed),
{
    match status {
        OpStatus::Committed => true,
        _ => false,
    }
}

} // verus!
