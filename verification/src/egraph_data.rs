//! What an e-graph of terms records for each equivalence class, and the rules
//! for combining it: whether the class is ground, and its constant if it has one.
use vstd::prelude::*;

verus! {

/// Data kept for each e-class.
#[derive(Debug, Clone, Copy, PartialEq, Eq, Structural)]
pub struct TermDataChirho {
    /// The class is known to contain a ground term (no variables).
    pub is_ground_chirho: bool,
    /// The integer constant in the class, if one is known.
    pub constant_chirho: Option<i64>,
}

impl Default for TermDataChirho {
    fn default() -> (r: Self)
        ensures
            r == (TermDataChirho { is_ground_chirho: false, constant_chirho: None }),
    {
        TermDataChirho { is_ground_chirho: false, constant_chirho: None }
    }
}

/// Whether a symbol's name marks a logic variable: it starts with `_v`.
pub fn is_var_name_chirho(name_chirho: &str) -> (r: bool)
    ensures
        r == (name_chirho@.len() >= 2 && name_chirho@[0] == '_' && name_chirho@[1] == 'v'),
{
    let n = name_chirho.unicode_len();
    if n < 2 {
        return false;
    }
    name_chirho.get_char(0) == '_' && name_chirho.get_char(1) == 'v'
}

/// Data of a leaf node: a symbol is ground unless it names a variable; nil and
/// integers are ground, and an integer is its class's constant.
pub fn leaf_data_chirho(is_var_chirho: bool, constant_chirho: Option<i64>) -> (r: TermDataChirho)
    ensures
        r == (TermDataChirho { is_ground_chirho: !is_var_chirho, constant_chirho: constant_chirho }),
{
    TermDataChirho { is_ground_chirho: !is_var_chirho, constant_chirho }
}

/// Data of a node with children: ground when every child is; no constant.
pub fn node_data_chirho(children_ground_chirho: &[bool]) -> (r: TermDataChirho)
    ensures
        r.is_ground_chirho == (forall|i: int| 0 <= i < children_ground_chirho@.len() ==> children_ground_chirho@[i]),
        r.constant_chirho is None,
{
    let mut all: bool = true;
    let mut i: usize = 0;
    while i < children_ground_chirho.len()
        invariant
            i <= children_ground_chirho@.len(),
            all == (forall|j: int| 0 <= j < i ==> children_ground_chirho@[j]),
        decreases children_ground_chirho@.len() - i,
    {
        all = all && children_ground_chirho[i];
        i = i + 1;
    }
    TermDataChirho { is_ground_chirho: all, constant_chirho: None }
}

/// Merge the data of class `b` into class `a`: groundness is or-ed, and `a`
/// takes `b`'s constant when it has none. Returns whether `a` changed and, as
/// the second flag, whether `b`'s data differs from the merged data (both are
/// true when a constant was taken; both equal the groundness change otherwise).
pub fn merge_data_chirho(a_chirho: &mut TermDataChirho, b_chirho: TermDataChirho) -> (r: (bool, bool))
    ensures
        final(a_chirho).is_ground_chirho == (old(a_chirho).is_ground_chirho || b_chirho.is_ground_chirho),
        final(a_chirho).constant_chirho == if old(a_chirho).constant_chirho is None {
            b_chirho.constant_chirho
        } else {
            old(a_chirho).constant_chirho
        },
        r == if old(a_chirho).constant_chirho is None && b_chirho.constant_chirho is Some {
            (true, true)
        } else {
            let changed = old(a_chirho).is_ground_chirho != (old(a_chirho).is_ground_chirho
                || b_chirho.is_ground_chirho);
            (changed, changed)
        },
{
    let did_change_chirho = a_chirho.is_ground_chirho != (a_chirho.is_ground_chirho || b_chirho.is_ground_chirho);
    a_chirho.is_ground_chirho = a_chirho.is_ground_chirho || b_chirho.is_ground_chirho;
    if a_chirho.constant_chirho.is_none() && b_chirho.constant_chirho.is_some() {
        a_chirho.constant_chirho = b_chirho.constant_chirho;
        (true, true)
    } else {
        (did_change_chirho, did_change_chirho)
    }
}

/// Two classes may be unified unless they are distinct and hold different
/// constants.
pub fn may_unify_chirho(same_class_chirho: bool, a_chirho: Option<i64>, b_chirho: Option<i64>) -> (r: bool)
    ensures
        r == (same_class_chirho || !(a_chirho is Some && b_chirho is Some && a_chirho != b_chirho)),
{
    if same_class_chirho {
        return true;
    }
    match (a_chirho, b_chirho) {
        (Some(x), Some(y)) => x == y,
        _ => true,
    }
}

} // verus!
