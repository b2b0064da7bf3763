use rwwf::text::letters_of;

#[test]
fn letters_of_a_text_are_its_scalar_values_in_order() {
    assert_eq!(letters_of("cat"), vec!['c', 'a', 't']);
    assert_eq!(letters_of(""), Vec::<char>::new());
    assert_eq!(letters_of("né日"), vec!['n', 'é', '日']);
    assert_eq!(letters_of("aa"), vec!['a', 'a']);
}
