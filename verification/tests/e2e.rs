use ipld_node::marshal;
use ipld_node::node::Node;
use ipld_node::node::Number;
use ipld_node::unmarshal;

#[test]
fn it_works() {
    assert_eq!(2 + 2, 4);
}

#[test]
fn e2e_bool() {
    let a = Node::Bool(true);
    let bytes = marshal(&a).unwrap();
    let des = unmarshal(&bytes).unwrap();
    let out = match des.as_bool() {
        Some(b) => b,
        None => panic!("Not Bool Type"),
    };
    assert_eq!(a, Node::Bool(out));
}

#[test]
fn e2e_str() {
    let a = Node::Str(String::from("testing").into_bytes());
    let bytes = marshal(&a).unwrap();
    let des = unmarshal(&bytes).unwrap();
    let out = match des.as_str() {
        Some(s) => s.clone(),
        None => panic!("Not Str Type"),
    };
    assert_eq!(a, Node::Str(out));
}

#[test]
fn e2e_bytes() {
    let a = Node::Bytes(vec![1, 2, 3]);
    let bytes = marshal(&a).unwrap();
    let des = unmarshal(&bytes).unwrap();
    let out = match des.as_bytes() {
        Some(s) => s.clone(),
        None => panic!("Not Bytes Type"),
    };
    assert_eq!(a, Node::Bytes(out));
}

#[test]
fn e2e_numbers_int() {
    let a = Node::Number(Number::Float(123.3_f64.to_bits()));
    let bytes = marshal(&a).unwrap();
    let des = unmarshal(&bytes).unwrap();
    let out = match des.as_number() {
        Some(m) => *m,
        None => panic!("Not Int Type"),
    };
    assert_eq!(a, Node::Number(out));
}

#[test]
fn e2e_numbers_float() {
    let a = Node::Number(Number::Float(123.3_f64.to_bits()));
    let bytes = marshal(&a).unwrap();
    let des = unmarshal(&bytes).unwrap();
    let out = match des.as_number() {
        Some(m) => *m,
        None => panic!("Not Int Type"),
    };
    assert_eq!(a, Node::Number(out));
}
