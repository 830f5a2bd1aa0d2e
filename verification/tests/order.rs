use gputrace_bundle::order::sort_by_offset;
use gputrace_bundle::TextureDescriptor;

fn at(offset: u64, id: u64) -> TextureDescriptor {
    TextureDescriptor {
        store0_offset: offset,
        format: 0,
        texture_type: 0,
        width: 0,
        height: 0,
        depth: 0,
        mip_levels: 0,
        array_length: 0,
        sample_count: 0,
        usage: 0,
        texture_id: id,
    }
}

#[test]
fn sorting_by_offset_is_stable() {
    let v = vec![at(30, 0), at(10, 1), at(30, 2), at(20, 3), at(10, 4), at(30, 5)];
    let r = sort_by_offset(v);
    let got: Vec<(u64, u64)> = r.iter().map(|d| (d.store0_offset, d.texture_id)).collect();
    assert_eq!(got, vec![(10, 1), (10, 4), (20, 3), (30, 0), (30, 2), (30, 5)]);
}

#[test]
fn sorting_small_inputs() {
    assert!(sort_by_offset(Vec::new()).is_empty());
    assert_eq!(sort_by_offset(vec![at(5, 9)]), vec![at(5, 9)]);
    assert_eq!(sort_by_offset(vec![at(u64::MAX, 1), at(0, 2)]), vec![at(0, 2), at(u64::MAX, 1)]);
}
