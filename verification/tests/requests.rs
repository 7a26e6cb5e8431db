use linux_tuples_client::{
    encode_tuple, ClientError, LinuxTuplesConnection, E, COUNT, DUMP, GET, GET_NB, LOG, PUT,
    READ, READ_NB, REPLACE,
};

fn conn() -> LinuxTuplesConnection {
    LinuxTuplesConnection { connection: "127.0.0.1:5000".to_string() }
}

fn s(x: &str) -> E {
    E::S(x.to_string())
}

fn with_op(op: i32, rest: Vec<u8>) -> Vec<u8> {
    let mut v = op.to_le_bytes().to_vec();
    v.extend(rest);
    v
}

#[test]
fn op_codes() {
    assert_eq!([PUT, GET, READ, GET_NB, READ_NB, DUMP, COUNT, LOG, REPLACE], [0, 1, 2, 3, 4, 5, 6, 7, 8]);
}

#[test]
fn single_tuple_requests() {
    let c = conn();
    let t = vec![s("USERS_COUNT"), E::Wildcard];
    let body = encode_tuple(&t);
    assert_eq!(c.put_tuple_request(&t), with_op(0, body.clone()));
    assert_eq!(c.get_tuple_request(&t), with_op(1, body.clone()));
    assert_eq!(c.read_tuple_request(&t), with_op(2, body.clone()));
    assert_eq!(c.get_nb_tuple_request(&t), with_op(3, body.clone()));
    assert_eq!(c.read_nb_tuple_request(&t), with_op(4, body));
}

#[test]
fn template_requests() {
    let c = conn();
    let ts = vec![vec![E::I(1)], vec![s("a"), E::Wildcard]];
    let mut body = 2i32.to_le_bytes().to_vec();
    body.extend(encode_tuple(&ts[0]));
    body.extend(encode_tuple(&ts[1]));
    assert_eq!(c.read_all_tuples_request(&ts), with_op(5, body.clone()));
    assert_eq!(c.number_of_tuples_request(&ts), with_op(6, body));
    let none: Vec<Vec<E>> = vec![];
    assert_eq!(c.read_all_tuples_request(&none), vec![5, 0, 0, 0, 0, 0, 0, 0]);
}

#[test]
fn replace_request() {
    let c = conn();
    let a = vec![s("12789"), E::I(10)];
    let b = vec![s("12abv"), E::I(11)];
    let mut body = encode_tuple(&a);
    body.extend(encode_tuple(&b));
    assert_eq!(c.replace_tuple_request(&a, &b), with_op(8, body));
}

#[test]
fn log_request() {
    assert_eq!(conn().server_log_request(), vec![7, 0, 0, 0]);
}

#[test]
fn replace_reply() {
    let c = conn();
    assert_eq!(c.replace_tuple_reply(&[8, 0, 0, 0]), Ok(true));
    assert_eq!(c.replace_tuple_reply(&[0, 0, 0, 0]), Err(ClientError::ReplaceFailed));
    assert_eq!(c.replace_tuple_reply(&[8, 0, 0, 1]), Err(ClientError::ReplaceFailed));
}

#[test]
fn count_reply() {
    let c = conn();
    assert_eq!(c.number_of_tuples_reply(&[4, 0, 0, 0]), 4);
    assert_eq!(c.number_of_tuples_reply(&[0, 1, 0, 0]), 256);
}

#[test]
fn server_log_text() {
    let c = conn();
    assert_eq!(c.server_log(b"put (1)\nget (1)\n".to_vec()), "put (1)\nget (1)\n");
    assert_eq!(c.server_log("grüße".as_bytes().to_vec()), "grüße");
    assert_eq!(c.server_log(vec![]), "");
}

#[test]
fn server_log_not_utf8_is_empty() {
    let c = conn();
    assert_eq!(c.server_log(vec![b'o', b'k', 0xff]), "");
}
