use optparse::{Func, ParseError, Parser};
use std::cell::RefCell;

fn test(_arg: String) {
    println!("test")
}

fn strings(items: &[&str]) -> Vec<String> {
    items.iter().map(|s| s.to_string()).collect()
}

#[test]
fn test_parsing() {
    let mut parser = Parser::new("test");
    parser.register("-test", "test", test);

    let args: Vec<String> = vec![String::from("binary"), String::from("-test"), String::from("test")];
    parser.parse(args.clone()).unwrap();
}

#[test]
fn callback_receives_its_value() {
    let seen: RefCell<Vec<String>> = RefCell::new(Vec::new());
    let mut parser = Parser::new("demo");
    parser.register("-test", "records its value", |s: String| seen.borrow_mut().push(s));
    let r = parser.parse(strings(&["binary", "-test", "hello"]));
    assert_eq!(r, Ok(()));
    assert_eq!(*seen.borrow(), vec!["hello".to_string()]);
}

#[test]
fn incomplete_pair_is_refused() {
    let seen: RefCell<Vec<String>> = RefCell::new(Vec::new());
    let mut parser = Parser::new("demo");
    parser.register("-test", "records its value", |s: String| seen.borrow_mut().push(s));
    let r = parser.parse(strings(&["binary", "-test"]));
    assert_eq!(r, Err(ParseError::MalformedArgumentList));
    assert!(seen.borrow().is_empty());
}

#[test]
fn odd_list_with_valid_pairs_is_refused_before_any_callback() {
    let seen: RefCell<Vec<String>> = RefCell::new(Vec::new());
    let mut parser = Parser::new("demo");
    parser.register("-a", "a", |s: String| seen.borrow_mut().push(s));
    let r = parser.parse(strings(&["binary", "-a", "1", "-a"]));
    assert_eq!(r, Err(ParseError::MalformedArgumentList));
    assert!(seen.borrow().is_empty());
}

#[test]
fn empty_list_is_refused() {
    let parser: Parser<fn(String)> = Parser::new("demo");
    assert_eq!(parser.parse(Vec::new()), Err(ParseError::MalformedArgumentList));
}

#[test]
fn program_name_alone_succeeds() {
    let seen: RefCell<Vec<String>> = RefCell::new(Vec::new());
    let mut parser = Parser::new("demo");
    parser.register("-a", "a", |s: String| seen.borrow_mut().push(s));
    assert_eq!(parser.parse(strings(&["binary"])), Ok(()));
    assert!(seen.borrow().is_empty());
}

#[test]
fn unknown_flag_is_refused() {
    let parser: Parser<fn(String)> = Parser::new("demo");
    let r = parser.parse(strings(&["binary", "-unknown", "x"]));
    assert_eq!(r, Err(ParseError::UnknownFlag("-unknown".to_string())));
}

#[test]
fn pairs_are_dispatched_left_to_right() {
    let seen: RefCell<Vec<String>> = RefCell::new(Vec::new());
    let mut parser: Parser<Box<dyn Fn(String) + '_>> = Parser::new("demo");
    parser.register("-a", "a", Box::new(|s: String| seen.borrow_mut().push(format!("a={}", s))));
    parser.register("-b", "b", Box::new(|s: String| seen.borrow_mut().push(format!("b={}", s))));
    let r = parser.parse(strings(&["binary", "-b", "1", "-a", "2", "-b", "3"]));
    assert_eq!(r, Ok(()));
    assert_eq!(*seen.borrow(), strings(&["b=1", "a=2", "b=3"]));
}

#[test]
fn unknown_flag_stops_after_earlier_pairs() {
    let seen: RefCell<Vec<String>> = RefCell::new(Vec::new());
    let mut parser = Parser::new("demo");
    parser.register("-a", "a", |s: String| seen.borrow_mut().push(s));
    let r = parser.parse(strings(&["binary", "-a", "1", "-x", "2", "-a", "3", "-y", "4"]));
    assert_eq!(r, Err(ParseError::UnknownFlag("-x".to_string())));
    assert_eq!(*seen.borrow(), strings(&["1"]));
}

#[test]
fn flags_match_exactly() {
    let seen: RefCell<Vec<String>> = RefCell::new(Vec::new());
    let mut parser = Parser::new("demo");
    parser.register("-test", "t", |s: String| seen.borrow_mut().push(s));
    let r = parser.parse(strings(&["binary", "-TEST", "v"]));
    assert_eq!(r, Err(ParseError::UnknownFlag("-TEST".to_string())));
    assert!(seen.borrow().is_empty());
}

#[test]
fn second_registration_replaces_first() {
    let seen: RefCell<Vec<String>> = RefCell::new(Vec::new());
    let mut parser: Parser<Box<dyn Fn(String) + '_>> = Parser::new("demo");
    parser.register("-a", "first", Box::new(|s: String| seen.borrow_mut().push(format!("first {}", s))));
    parser.register("-a", "second", Box::new(|s: String| seen.borrow_mut().push(format!("second {}", s))));
    assert_eq!(parser.flags.len(), 1);
    let h = parser.resolve_func(&"-a".to_string()).unwrap();
    assert_eq!(h.func_description, "second");
    assert_eq!(parser.parse(strings(&["binary", "-a", "v"])), Ok(()));
    assert_eq!(*seen.borrow(), strings(&["second v"]));
}

#[test]
fn resolve_finds_only_registered_flags() {
    let mut parser = Parser::new("demo");
    parser.register("-a", "the a flag", test);
    parser.register("-b", "the b flag", test);
    assert_eq!(parser.resolve_func(&"-b".to_string()).unwrap().func_description, "the b flag");
    assert_eq!(parser.resolve_func(&"-a".to_string()).unwrap().func_description, "the a flag");
    assert!(parser.resolve_func(&"-c".to_string()).is_none());
}

#[test]
fn new_parser_is_empty_and_keeps_description() {
    let parser: Parser<fn(String)> = Parser::new("top level");
    assert_eq!(parser.description, "top level");
    assert!(parser.flags.is_empty());
    assert!(parser.funcs.is_empty());
}

#[test]
fn func_new_holds_both_parts() {
    let seen: RefCell<Vec<String>> = RefCell::new(Vec::new());
    let f = Func::new(|s: String| seen.borrow_mut().push(s), "desc".to_string());
    assert_eq!(f.func_description, "desc");
    (f.func_closure)("x".to_string());
    assert_eq!(*seen.borrow(), strings(&["x"]));
}

#[test]
fn execute_invokes_the_callback() {
    let seen: RefCell<Vec<String>> = RefCell::new(Vec::new());
    let cb = |s: String| seen.borrow_mut().push(s);
    let mut parser = Parser::new("demo");
    parser.register("-a", "a", cb);
    parser.execute("value".to_string(), &cb);
    assert_eq!(*seen.borrow(), strings(&["value"]));
}
