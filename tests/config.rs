use proxy::config::{gcd, Config, Entry, Error, Parser, Value};

const DEFAULT: &str = "server:\n  addr: \"127.0.0.1:8080\"\n  thread: 4\nhosts:\n  a.example.com:\n    routing:\n      - 127.0.0.1:8000\n      - b.example.com:8001\n  b.example.com:\n    routing: [127.0.0.1:9000, 127.0.0.1:9001]\n";

fn load(text: &str) -> Result<Config, Error> {
    Parser::new(text.as_bytes())?.parse()
}

#[test]
fn lists() {
    let root = load(DEFAULT).unwrap();
    let lists: Vec<Vec<u8>> = root
        .list(&["hosts", "a.example.com", "routing"])
        .unwrap()
        .into_iter()
        .map(|x| x.to_text().unwrap())
        .collect();
    assert_eq!(vec![b"127.0.0.1:8000".to_vec(), b"b.example.com:8001".to_vec()], lists);
}

#[test]
fn value_f64() {
    let root = load("a: 1.3\n").unwrap();
    let val = match root.value(&["a"]).unwrap() {
        Value::Number(text) => String::from_utf8(text).unwrap().parse::<f64>().unwrap(),
        other => panic!("not a number: {:?}", other),
    };
    assert_eq!(val, 1.3);
}

#[test]
fn server_settings() {
    let root = load(DEFAULT).unwrap();
    assert_eq!(
        root.value(&["server", "addr"]).unwrap(),
        Value::String(b"127.0.0.1:8080".to_vec())
    );
    assert_eq!(root.value(&["server", "thread"]).unwrap().to_usize(), Ok(4));
    assert_eq!(
        root.value(&["server", "addr"]).unwrap().to_usize(),
        Err(Error::MisMatchType)
    );
}

#[test]
fn hosts_in_order() {
    let root = load(DEFAULT).unwrap();
    let hosts = root.hosts().unwrap();
    assert_eq!(hosts.len(), 2);
    assert_eq!(hosts[0].name, b"a.example.com".to_vec());
    assert_eq!(hosts[1].name, b"b.example.com".to_vec());
    assert_eq!(
        hosts[1].routing,
        vec![b"127.0.0.1:9000".to_vec(), b"127.0.0.1:9001".to_vec()]
    );
}

#[test]
fn host_without_routing_is_refused() {
    let root = load("hosts:\n  a.example.com:\n    weight: 1\n").unwrap();
    assert!(matches!(root.hosts(), Err(Error::ParsingProvidedStruct)));
}

#[test]
fn values_are_classified() {
    assert_eq!(Value::parse(b" \"quoted\" "), Value::String(b"quoted".to_vec()));
    assert_eq!(Value::parse(b"True"), Value::Bool(true));
    assert_eq!(Value::parse(b"false"), Value::Bool(false));
    assert_eq!(Value::parse(b"-12.5"), Value::Number(b"-12.5".to_vec()));
    assert_eq!(Value::parse(b"12."), Value::String(b"12.".to_vec()));
    assert_eq!(Value::parse(b"host:80"), Value::String(b"host:80".to_vec()));
}

#[test]
fn entries_are_classified() {
    assert_eq!(Entry::parse(b"hosts:"), Ok(Entry::Section(b"hosts".to_vec())));
    assert_eq!(Entry::parse(b"- x"), Ok(Entry::Item(Value::String(b"x".to_vec()))));
    assert_eq!(
        Entry::parse(b"list: []"),
        Ok(Entry::InlineList(b"list".to_vec(), Vec::new()))
    );
    assert_eq!(
        Entry::parse(b"n: 3"),
        Ok(Entry::Scalar(b"n".to_vec(), Value::Number(b"3".to_vec())))
    );
    assert_eq!(Entry::parse(b"no colon here"), Err(Error::MisMatchStructure));
    assert_eq!(Entry::parse(b"  \t "), Ok(Entry::Blank));
}

#[test]
fn indentation_unit_is_the_gcd() {
    assert_eq!(gcd(0, 4), 4);
    assert_eq!(gcd(12, 18), 6);
    assert_eq!(gcd(7, 0), 7);
    let root = load("a:\n   b:\n      c: 1\n").unwrap();
    assert_eq!(root.value(&["a", "b", "c"]).unwrap(), Value::Number(b"1".to_vec()));
}

#[test]
fn blank_lines_are_skipped() {
    let root = load("a:\n\n  b: 2\r\n    \n").unwrap();
    assert_eq!(root.value(&["a", "b"]).unwrap(), Value::Number(b"2".to_vec()));
}

#[test]
fn blank_lines_count_towards_the_unit() {
    // The unit is gcd(2, 3) = 1, so `b` is two levels deep, and with no
    // line one level deep it hangs under the root.
    let root = load("a:\n  b: 1\n   \n").unwrap();
    assert_eq!(root.value(&["a", "b"]), Err(Error::Unknown));
    assert_eq!(root.value(&["b"]).unwrap(), Value::Number(b"1".to_vec()));
}

#[test]
fn server_settings_together() {
    let root = load(DEFAULT).unwrap();
    assert_eq!(root.server(), Ok((b"127.0.0.1:8080".to_vec(), 4)));
    let root = load("server:\n  addr: x\n  thread: 0\n").unwrap();
    assert_eq!(root.server(), Err(Error::MisMatchType));
    let root = load("server:\n  thread: 2\n").unwrap();
    assert_eq!(root.server(), Err(Error::Unknown));
}

#[test]
fn missing_paths_and_wrong_shapes() {
    let root = load(DEFAULT).unwrap();
    assert_eq!(root.value(&["server", "port"]), Err(Error::Unknown));
    assert_eq!(root.value(&["server"]), Err(Error::MisMatchStructure));
    assert_eq!(root.value(&["server", "addr", "x"]), Err(Error::Unknown));
}

#[test]
fn too_deep_is_refused() {
    let mut text = String::new();
    for depth in 0..40 {
        text.push_str(&" ".repeat(depth));
        text.push_str("k:\n");
    }
    assert!(matches!(Parser::new(text.as_bytes()), Err(Error::MisMatchStructure)));
}
