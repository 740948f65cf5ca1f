use contamers::person::{with_angry_name, Gender, Person};

#[test]
fn test_with_angry_name_uppercases_ascii() {
    let person = Person { gender: Some(Gender::Male), name: "Tom".to_string() };
    let angry = with_angry_name(&person);
    assert_eq!(angry.name, "TOM");
    assert_eq!(angry.gender, Some(Gender::Male));
}

#[test]
fn test_with_angry_name_keeps_other_characters() {
    let person = Person { gender: None, name: "Joe the Porpoise 3!".to_string() };
    let angry = with_angry_name(&person);
    assert_eq!(angry.name, "JOE THE PORPOISE 3!");
    assert_eq!(angry.gender, None);
}

#[test]
fn test_with_angry_name_empty() {
    let person = Person { gender: Some(Gender::Porpoise), name: String::new() };
    let angry = with_angry_name(&person);
    assert_eq!(angry.name, "");
    assert_eq!(angry.gender, Some(Gender::Porpoise));
}
