//! Resolving a region by its symbolic name: exact pathname equality, and
//! under duplicate names deterministically the first row in table order.

use vstd::prelude::*;

use crate::CoreError;
use crate::table::{table_models, MemoryRegion, RegionModel};
use vstd::slice::slice_to_vec;

verus! {

/// Whether a row's pathname is exactly `name`.  An anonymous row (no
/// pathname) matches nothing.
pub open spec fn name_matches(m: RegionModel, name: Seq<u8>) -> bool {
    m.pathname == Option::Some(name)
}

/// Index of the first row whose pathname is exactly `name`, or -1.
pub open spec fn first_match_idx(t: Seq<RegionModel>, name: Seq<u8>) -> int
    decreases t.len(),
{
    if t.len() == 0 {
        -1
    } else if name_matches(t[0], name) {
        0
    } else if first_match_idx(t.skip(1), name) < 0 {
        -1
    } else {
        1 + first_match_idx(t.skip(1), name)
    }
}

/// Law: the resolver's choice under duplicate pathnames is deterministic.
/// `first_match_idx` is a function of the table and the name alone, and
/// this pins what it is: the first matching row in table order when any
/// row matches, and no row at all otherwise.  Repeated lookups on the
/// same table and name therefore always yield the same row.
pub proof fn lemma_first_match(t: Seq<RegionModel>, name: Seq<u8>)
    ensures
        first_match_idx(t, name) >= 0 ==> 0 <= first_match_idx(t, name) < t.len()
            && name_matches(t[first_match_idx(t, name)], name) && forall|j: int|
            0 <= j < first_match_idx(t, name) ==> !name_matches(#[trigger] t[j], name),
        first_match_idx(t, name) < 0 ==> forall|j: int|
            0 <= j < t.len() ==> !name_matches(#[trigger] t[j], name),
    decreases t.len(),
{
    if t.len() > 0 && !name_matches(t[0], name) {
        lemma_first_match(t.skip(1), name);
        let f = first_match_idx(t.skip(1), name);
        if f >= 0 {
            assert(t.skip(1)[f] == t[f + 1]);
            assert forall|j: int| 0 <= j < first_match_idx(t, name) implies !name_matches(
                #[trigger] t[j],
                name,
            ) by {
                if j > 0 {
                    assert(t.skip(1)[j - 1] == t[j]);
                }
            }
        } else {
            assert forall|j: int| 0 <= j < t.len() implies !name_matches(
                #[trigger] t[j],
                name,
            ) by {
                if j > 0 {
                    assert(t.skip(1)[j - 1] == t[j]);
                }
            }
        }
    }
}

/// Byte-for-byte equality of two byte strings.
fn bytes_eq(a: &[u8], b: &[u8]) -> (r: bool)
    ensures
        r <==> a@ == b@,
{
    if a.len() != b.len() {
        proof {
            assert(a@ != b@);
        }
        return false;
    }
    let n = a.len();
    let mut i: usize = 0;
    while i < n
        invariant
            0 <= i <= n,
            n == a@.len() && n == b@.len(),
            forall|j: int| 0 <= j < i ==> a@[j] == b@[j],
        decreases n - i,
    {
        if a[i] != b[i] {
            return false;
        }
        i = i + 1;
    }
    proof {
        assert(a@ =~= b@);
    }
    true
}

/// Look a region up by the exact pathname `name`.  Returns the first
/// matching row in table order — the documented policy under duplicate
/// pathnames — and fails with `RegionNotFound` carrying the name exactly
/// when no row matches.
pub fn find_by_name(table: &Vec<MemoryRegion>, name: &[u8]) -> (r: Result<
    MemoryRegion,
    CoreError,
>)
    ensures
        r is Ok <==> first_match_idx(table_models(table@), name@) >= 0,
        r matches Result::Ok(region) ==> region@ == table_models(table@)[first_match_idx(
            table_models(table@),
            name@,
        )],
        r matches Result::Err(e) ==> e matches CoreError::RegionNotFound { name: n } && n@
            == name@,
{
    let ghost models = table_models(table@);
    let n = table.len();
    let mut i: usize = 0;
    while i < n
        invariant
            0 <= i <= n,
            n == table@.len(),
            models == table_models(table@),
            forall|j: int| 0 <= j < i ==> !name_matches(#[trigger] models[j], name@),
        decreases n - i,
    {
        let row = &table[i];
        let hit = match &row.pathname {
            Option::Some(p) => bytes_eq(p.as_slice(), name),
            Option::None => false,
        };
        proof {
            assert(models[i as int] == table@[i as int]@);
        }
        if hit {
            proof {
                lemma_first_match(models, name@);
                let f = first_match_idx(models, name@);
                assert(name_matches(models[i as int], name@));
                assert(f >= 0);
                if f < i as int {
                    assert(!name_matches(models[f], name@));
                }
                if f > i as int {
                    assert(!name_matches(models[i as int], name@));
                }
            }
            return Result::Ok(row.duplicate());
        }
        proof {
            assert(!name_matches(models[i as int], name@));
        }
        i = i + 1;
    }
    proof {
        lemma_first_match(models, name@);
        let f = first_match_idx(models, name@);
        if f >= 0 {
            assert(!name_matches(models[f], name@));
        }
    }
    Result::Err(CoreError::RegionNotFound { name: slice_to_vec(name) })
}

} // verus!
