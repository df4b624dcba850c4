use darpi::template::{PathTemplate, TemplateError};

fn chars(s: &str) -> Vec<char> {
    s.chars().collect()
}

#[test]
fn parse_static_template() {
    let t = PathTemplate::parse("/hello_world").unwrap();
    assert_eq!(t.param_count(), 0);
}

#[test]
fn parse_parametric_template() {
    let t = PathTemplate::parse("/users/{id}/posts/{post}").unwrap();
    assert_eq!(t.param_count(), 2);
}

#[test]
fn parse_rejects_illegal_characters() {
    assert!(matches!(
        PathTemplate::parse("/he llo"),
        Err(TemplateError::InvalidTemplate)
    ));
    assert!(matches!(
        PathTemplate::parse("/a{b}"),
        Err(TemplateError::InvalidTemplate)
    ));
    assert!(matches!(
        PathTemplate::parse("/{x"),
        Err(TemplateError::InvalidTemplate)
    ));
    assert!(matches!(
        PathTemplate::parse("/{}"),
        Err(TemplateError::InvalidTemplate)
    ));
    assert!(matches!(
        PathTemplate::parse("/a-b"),
        Err(TemplateError::InvalidTemplate)
    ));
}

#[test]
fn parse_empty_template() {
    let t = PathTemplate::parse("").unwrap();
    assert_eq!(t.param_count(), 0);
}

#[test]
fn match_binds_parameters_in_template_order() {
    let t = PathTemplate::parse("/users/{id}/posts/{post}").unwrap();
    let m = t.matches("/users/42/posts/7").unwrap();
    assert_eq!(m.len(), 2);
    assert_eq!(m.name_at(0), &chars("id"));
    assert_eq!(m.value_at(0), &chars("42"));
    assert_eq!(m.name_at(1), &chars("post"));
    assert_eq!(m.value_at(1), &chars("7"));
    assert_eq!(m.value_of("id"), Some(&chars("42")));
    assert_eq!(m.value_of("post"), Some(&chars("7")));
    assert_eq!(m.value_of("absent"), None);
}

#[test]
fn match_requires_equal_segment_counts() {
    let t = PathTemplate::parse("/items/{id}").unwrap();
    assert!(t.matches("/items").is_none());
    assert!(t.matches("/items/1/2").is_none());
}

#[test]
fn match_requires_literal_equality() {
    let t = PathTemplate::parse("/items/{id}").unwrap();
    assert!(t.matches("/item/1").is_none());
    assert!(t.matches("/items/1").is_some());
}

#[test]
fn match_binds_any_segment_text() {
    let t = PathTemplate::parse("/greet/{name}").unwrap();
    let m = t.matches("/greet/héllo").unwrap();
    assert_eq!(m.value_of("name"), Some(&chars("héllo")));
}

#[test]
fn round_trip_reproduces_the_path() {
    let t = PathTemplate::parse("/users/{id}/posts/{post}").unwrap();
    let path = "/users/42/posts/7";
    let m = t.matches(path).unwrap();
    let rendered = t.render(&m).unwrap();
    assert_eq!(rendered, chars(path));
}

#[test]
fn render_refuses_foreign_bindings() {
    let t = PathTemplate::parse("/users/{id}").unwrap();
    let other = PathTemplate::parse("/users/{uid}").unwrap();
    let m = other.matches("/users/42").unwrap();
    assert!(t.render(&m).is_none());
}

#[test]
fn render_static_template() {
    let t = PathTemplate::parse("/hello").unwrap();
    let m = t.matches("/hello").unwrap();
    assert_eq!(m.len(), 0);
    assert_eq!(t.render(&m).unwrap(), chars("/hello"));
}
