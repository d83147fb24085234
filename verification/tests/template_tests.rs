use depict::utilities::Template;

#[test]
fn basic() {
    let template = Template::new("Hello $name!", '$');
    let values = std::collections::HashMap::from([("name", "Ben")]);
    assert_eq!(
        &template.interpolate(|key| String::from(values[key])),
        "Hello Ben!"
    );
}

#[test]
fn escape() {
    let template = Template::new("Hello $name! Here is $$20!", '$');
    let values = std::collections::HashMap::from([("name", "Ben")]);
    assert_eq!(
        &template.interpolate(|key| String::from(values[key])),
        "Hello Ben! Here is $20!"
    );
}

#[test]
fn template_without_slots() {
    let template = Template::new("just text", '$');
    assert_eq!(&template.interpolate(|_key| String::new()), "just text");
}

#[test]
fn template_two_slots() {
    let template = Template::new("$a-$b", '$');
    let values = std::collections::HashMap::from([("a", "1"), ("b", "2")]);
    assert_eq!(
        &template.interpolate(|key| String::from(values[key])),
        "1-2"
    );
}

#[test]
fn template_name_stops_at_non_word() {
    let template = Template::new("$name/rest", '$');
    let values = std::collections::HashMap::from([("name", "x")]);
    assert_eq!(
        &template.interpolate(|key| String::from(values[key])),
        "x/rest"
    );
}
