use mrdt::{chain_refs, Ref};

#[test]
fn ref_id_depends_on_its_content() {
    let a = Ref::compute(7, None, None);
    let b = Ref::compute(7, None, None);
    let c = Ref::compute(7, Some(a.id), None);
    assert_eq!(a.id, b.id);
    assert_ne!(a.id, c.id);
    assert_eq!(c.left, Some(a.id));
    assert_eq!(c.object_ref, 7);
    assert_ne!(a.id, 7);
}

#[test]
fn chain_links_each_ref_to_the_previous() {
    let objects: Vec<u64> = (0..1000).map(|i| i * 31 + 5).collect();
    let refs = chain_refs(&objects);
    assert_eq!(refs.len(), 1000);
    assert_eq!(refs[0].left, None);
    for i in 1..refs.len() {
        assert_eq!(refs[i].left, Some(refs[i - 1].id));
        assert_eq!(refs[i].object_ref, objects[i]);
    }
    // appending shares every earlier ref
    let mut longer = objects.clone();
    longer.push(1);
    let refs2 = chain_refs(&longer);
    assert_eq!(refs2[..1000].iter().map(|r| r.id).collect::<Vec<_>>(), refs.iter().map(|r| r.id).collect::<Vec<_>>());
}
