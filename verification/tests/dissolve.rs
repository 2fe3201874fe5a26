use imagespin::dissolve::free_layers;

#[test]
fn a_layer_already_burning_is_not_picked_again() {
    assert_eq!(free_layers(5, &[1, 3]), [0, 2, 4]);
    assert_eq!(free_layers(3, &[]), [0, 1, 2]);
    assert_eq!(free_layers(2, &[0, 1, 1]), Vec::<usize>::new());
    assert_eq!(free_layers(0, &[]), Vec::<usize>::new());
    assert_eq!(free_layers(3, &[7]), [0, 1, 2]);
}
