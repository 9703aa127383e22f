use acme_native::scene::clip_runs;

#[test]
fn clip_runs_split_where_the_clip_changes() {
    assert_eq!(clip_runs(&[]), vec![]);
    assert_eq!(clip_runs(&[false]), vec![(0, 1)]);
    assert_eq!(clip_runs(&[false, true, true, false, true, false]), vec![(0, 3), (3, 5), (5, 6)]);
    // The first item starts a run whatever it says.
    assert_eq!(clip_runs(&[true, true]), vec![(0, 2)]);
}
