use sudachi::dic::connect::ConnectionMatrix;
use sudachi::dic::grammar::Grammar;

fn build_connect_table() -> Vec<u8> {
    let values: [i16; 11] = [3, 3, 0, -300, 300, 300, -500, -100, -3000, 200, 2000];
    let mut bytes = Vec::new();
    for v in values.iter() {
        bytes.extend_from_slice(&v.to_le_bytes());
    }
    bytes
}

fn build_part_of_speech() -> Vec<Vec<String>> {
    let rows: [[&str; 6]; 3] = [
        ["BOS/EOS", "*", "*", "*", "*", "*"],
        ["名詞", "一般", "*", "*", "*", "*"],
        ["動詞", "一般", "*", "*", "五段-サ行", "終止形-一般"],
    ];
    rows.iter()
        .map(|r| r.iter().map(|s| s.to_string()).collect())
        .collect()
}

fn setup_grammar() -> Grammar {
    let conn_bytes = build_connect_table();
    let connection = ConnectionMatrix::from_bytes(&conn_bytes).expect("failed to create conn");
    Grammar::from_parts(build_part_of_speech(), connection)
}

#[test]
fn storage_size() {
    let grammar = setup_grammar();
    assert_eq!(grammar.pos_list.len(), 3);
    assert_eq!(grammar.conn_matrix().num_left(), 3);
    assert_eq!(grammar.conn_matrix().num_right(), 3);
}

#[test]
fn partofspeech_string() {
    let grammar = setup_grammar();
    assert_eq!(6, grammar.pos_list[0].len());
    assert_eq!("BOS/EOS", grammar.pos_list[0][0]);
    assert_eq!("*", grammar.pos_list[0][5]);

    assert_eq!("一般", grammar.pos_list[1][1]);
    assert_eq!("*", grammar.pos_list[1][5]);

    assert_eq!("五段-サ行", grammar.pos_list[2][4]);
    assert_eq!("終止形-一般", grammar.pos_list[2][5]);
}

#[test]
fn get_connect_cost() {
    let grammar = setup_grammar();
    assert_eq!(0, grammar.connect_cost(0, 0));
    assert_eq!(-100, grammar.connect_cost(2, 1));
    assert_eq!(200, grammar.connect_cost(1, 2));
}

#[test]
fn set_connect_cost() {
    let mut grammar = setup_grammar();
    grammar.set_connect_cost(0, 0, 300);
    assert_eq!(300, grammar.connect_cost(0, 0));
}

#[test]
fn register_pos() {
    let mut grammar = setup_grammar();

    let id1 = grammar
        .register_pos(["a", "b", "c", "d", "e", "f"].as_slice())
        .expect("failed");
    let id2 = grammar
        .register_pos(["a", "b", "c", "d", "e", "f"].as_slice())
        .expect("failed");
    assert_eq!(id1, id2);
}

#[test]
fn bos_parameter() {
    assert_eq!(0, Grammar::BOS_PARAMETER.0);
    assert_eq!(0, Grammar::BOS_PARAMETER.1);
    assert_eq!(0, Grammar::BOS_PARAMETER.2);
}

#[test]
fn eos_parameter() {
    assert_eq!(0, Grammar::EOS_PARAMETER.0);
    assert_eq!(0, Grammar::EOS_PARAMETER.1);
    assert_eq!(0, Grammar::EOS_PARAMETER.2);
}

#[test]
fn registered_pos_is_found_and_listed() {
    let mut grammar = setup_grammar();
    let id = grammar
        .register_pos(["x", "y", "z", "*", "*", "*"].as_slice())
        .expect("registered");
    assert_eq!(id, 3);
    assert_eq!(
        grammar.get_part_of_speech_id(["x", "y", "z", "*", "*", "*"].as_slice()),
        Some(3)
    );
    assert_eq!(grammar.pos_components(3)[0], "x");
    assert_eq!(
        grammar.get_part_of_speech_id(["名詞", "一般", "*", "*", "*", "*"].as_slice()),
        Some(1)
    );
}
