use pglinter::locator::{
    fallback_location, resolve_classid, resolve_violation, RELATION_CATALOG_CLASSID,
    TYPE_CATALOG_CLASSID,
};

#[test]
fn column_coordinates_are_remapped_to_the_relation_class() {
    // A nonzero sub-id under the type catalog class is a column of a
    // relation; the lookup must go through the relation catalog class.
    assert_eq!(resolve_classid(TYPE_CATALOG_CLASSID, 3), RELATION_CATALOG_CLASSID);
}

#[test]
fn other_coordinates_keep_their_class() {
    assert_eq!(resolve_classid(TYPE_CATALOG_CLASSID, 0), TYPE_CATALOG_CLASSID);
    assert_eq!(resolve_classid(RELATION_CATALOG_CLASSID, 3), RELATION_CATALOG_CLASSID);
    assert_eq!(resolve_classid(2615, 0), 2615);
}

#[test]
fn successful_lookup_uses_the_name() {
    let r = resolve_violation(1259, 16384, 0, Some("table public.orders".to_string()));
    assert_eq!(r, "table public.orders");
}

#[test]
fn failed_lookup_falls_back_to_raw_coordinates() {
    let r = resolve_violation(1259, 16384, 2, None);
    assert_eq!(r, "classid=1259, objid=16384, objsubid=2");
    assert_eq!(fallback_location(0, -1, 7), "classid=0, objid=-1, objsubid=7");
}
