//! The violation locator: turn catalog object coordinates — the
//! (classid, objid, objsubid) triples that location queries report — into
//! display names. The catalog introspection call itself is the caller's
//! job; its outcome comes in as a plain optional string, and a missed
//! lookup degrades to a raw-coordinate string instead of an error.

use vstd::prelude::*;
use crate::chars::{append_str, chars_to_string};
use crate::num::{push_i64_dec, spec_i64_dec};

verus! {

/// The catalog class that advertises free-standing types.
pub const TYPE_CATALOG_CLASSID: i64 = 1247;

/// The catalog class that advertises relations.
pub const RELATION_CATALOG_CLASSID: i64 = 1259;

/// The class to look an object up under: a column of a relation (a nonzero
/// sub-id under the type catalog class) is advertised under the wrong
/// class and is remapped to the relation catalog class; everything else
/// keeps its class.
pub open spec fn spec_resolved_classid(classid: int, objsubid: int) -> int {
    if classid == TYPE_CATALOG_CLASSID as int && objsubid != 0 {
        RELATION_CATALOG_CLASSID as int
    } else {
        classid
    }
}

/// Correct the catalog class of an object coordinate before lookup.
pub fn resolve_classid(classid: i64, objsubid: i64) -> (r: i64)
    ensures
        r as int == spec_resolved_classid(classid as int, objsubid as int),
{
    if classid == TYPE_CATALOG_CLASSID && objsubid != 0 {
        RELATION_CATALOG_CLASSID
    } else {
        classid
    }
}

/// The raw-coordinate string a failed lookup falls back to.
pub open spec fn spec_fallback_location(classid: int, objid: int, objsubid: int) -> Seq<char> {
    "classid="@ + spec_i64_dec(classid) + ", objid="@ + spec_i64_dec(objid) + ", objsubid="@
        + spec_i64_dec(objsubid)
}

/// Render the raw-coordinate fallback string.
pub fn fallback_location(classid: i64, objid: i64, objsubid: i64) -> (r: String)
    ensures
        r@ == spec_fallback_location(classid as int, objid as int, objsubid as int),
{
    let mut t: Vec<char> = Vec::new();
    append_str(&mut t, "classid=");
    push_i64_dec(&mut t, classid);
    append_str(&mut t, ", objid=");
    push_i64_dec(&mut t, objid);
    append_str(&mut t, ", objsubid=");
    push_i64_dec(&mut t, objsubid);
    assert(t@ =~= spec_fallback_location(classid as int, objid as int, objsubid as int));
    chars_to_string(&t)
}

/// The display name of a violating object: the introspection result when
/// the lookup succeeded, the raw-coordinate string otherwise. Resolution
/// failures never propagate.
pub fn resolve_violation(classid: i64, objid: i64, objsubid: i64, lookup: Option<String>) -> (r:
    String)
    ensures
        match lookup {
            Some(name) => r@ == name@,
            None => r@ == spec_fallback_location(classid as int, objid as int, objsubid as int),
        },
{
    match lookup {
        Some(name) => name,
        None => fallback_location(classid, objid, objsubid),
    }
}

} // verus!
