use sudachi::dic::build::conn::ConnBuffer;
use sudachi::dic::connect::ConnectionMatrix;

#[test]
fn parse_simple2x2() {
    let data = "
        2 2
        0 0 0
        0 1 1
        1 0 2
        1 1 3";
    let mut parser = ConnBuffer::new();
    parser.read(data).unwrap();
    let cost = ConnectionMatrix::from_offset_size(
        parser.matrix(),
        0,
        parser.left() as _,
        parser.right() as _,
    )
    .unwrap();
    assert_eq!(cost.cost(0, 0), 0);
    assert_eq!(cost.cost(0, 1), 1);
    assert_eq!(cost.cost(1, 0), 2);
    assert_eq!(cost.cost(1, 1), 3);
}

#[test]
fn conn_rejects_bad_lines_and_writes_binary() {
    let mut parser = ConnBuffer::new();
    assert!(parser.read("2 2\n0 0 x\n").is_err());
    let mut parser = ConnBuffer::new();
    assert!(parser.read("2\n").is_err());
    let mut parser = ConnBuffer::new();
    assert!(parser.read("-1 2\n").is_err());
    let mut parser = ConnBuffer::new();
    parser.read("\n 1 2 \n0 1 -2\n\n").unwrap();
    let mut out = Vec::new();
    let n = parser.write_to(&mut out).unwrap();
    assert_eq!(n, 8);
    assert_eq!(out, vec![1, 0, 2, 0, 0, 0, 0xfe, 0xff]);
}

#[test]
fn written_costs_read_back_through_the_matrix() {
    let mut parser = ConnBuffer::new();
    parser.read("3 2\n2 1 -7\n0 0 12\n1 1 32767\n").unwrap();
    let mut out = Vec::new();
    parser.write_to(&mut out).unwrap();
    let m = ConnectionMatrix::from_bytes(&out).unwrap();
    assert_eq!(m.num_left(), 3);
    assert_eq!(m.num_right(), 2);
    assert_eq!(m.cost(2, 1), -7);
    assert_eq!(m.cost(0, 0), 12);
    assert_eq!(m.cost(1, 1), 32767);
    assert_eq!(m.cost(1, 0), 0);
}

#[test]
fn readable_tells_which_texts_read_can_take() {
    let b = ConnBuffer::new();
    assert!(b.readable("2 2\n0 0 1\n1 1 2"));
    assert!(!b.readable(""));
    assert!(!b.readable("\n  \n"));
    assert!(!b.readable("1 1\n5 5 3\n"));
    assert!(b.readable("1 1\n0 0 x\n"));
    assert!(b.readable("-1 2\n"));
}
