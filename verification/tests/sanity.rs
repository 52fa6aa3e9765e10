#[test]
fn it_works() {
    assert_eq!(2 + 2, 4);
}

#[test]
fn lib_it_works() {
    assert_eq!(2 + 2, 4);
}

#[test]
fn cli_it_works() {
    assert_eq!(2 + 2, 4);
}

#[test]
fn ggez_it_works() {
    assert_eq!(2 + 2, 4);
}

#[test]
fn macroquad_it_works() {
    assert_eq!(2 + 2, 4);
}

#[test]
fn mod_it_works() {
    assert_eq!(2 + 2, 4);
}

#[test]
fn tui_it_works() {
    assert_eq!(2 + 2, 4);
}
