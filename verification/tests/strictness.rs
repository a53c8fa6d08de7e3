use fhe_dsl::dsl::compilation_mode::{CompilationMode, Strictness, StrictnessOn};

#[test]
fn adding_strictness_includes_both() {
    let s = Strictness::from(StrictnessOn::Input) + Strictness::from(StrictnessOn::Op);
    assert_eq!(Strictness(5), s);
    let from_list = Strictness::from(&[StrictnessOn::Input, StrictnessOn::Op][..]);
    assert_eq!(s, from_list);
}

#[test]
fn subtracting_strictness_excludes() {
    let all = Strictness::from(&[StrictnessOn::Input, StrictnessOn::Const, StrictnessOn::Op][..]);
    assert_eq!(Strictness(7), all);
    let s = all - Strictness::from(StrictnessOn::Const);
    assert_eq!(Strictness(5), s);
    assert!(!(&s & &Strictness::from(StrictnessOn::Const)));
    assert!(&s & &Strictness::from(StrictnessOn::Input));
}

#[test]
fn add_assign_includes() {
    let mut s = Strictness(0);
    s.add_assign(Strictness::from(&StrictnessOn::Const));
    assert_eq!(Strictness(2), s);
}

#[test]
fn strictness_of_modes() {
    assert_eq!(Strictness(0), Strictness::from(&CompilationMode::Loose));
    assert_eq!(Strictness(7), Strictness::from(&CompilationMode::StrictAll));
    assert_eq!(Strictness(2), Strictness::from(&CompilationMode::with(Strictness(2))));
}

#[test]
fn mode_of_strictness() {
    assert!(matches!(CompilationMode::from(Strictness(0)), CompilationMode::Loose));
    assert!(matches!(CompilationMode::from(Strictness(4)), CompilationMode::Strict(Strictness(4))));
    assert!(matches!(CompilationMode::from(Strictness(5)), CompilationMode::Strict(Strictness(5))));
    assert!(matches!(CompilationMode::from(Strictness(7)), CompilationMode::StrictAll));
    assert_eq!(Strictness(5), Strictness::from(&CompilationMode::from(Strictness(5))));
    assert!(matches!(CompilationMode::from(Strictness(8)), CompilationMode::Strict(Strictness(8))));
    assert!(matches!(CompilationMode::default(), CompilationMode::StrictAll));
}

#[test]
fn not_flips_every_flag() {
    assert_eq!(Strictness(0b1111_1010), !Strictness(5));
}
