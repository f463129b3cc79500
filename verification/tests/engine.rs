//! End-to-end tests of the segmentation engine against hand-built binary
//! dictionaries.

use wakachi::EngineError;
use wakachi::Mode;
use wakachi::Tokenizer;

fn push_u16(v: &mut Vec<u8>, x: u16) {
    v.push((x & 0xff) as u8);
    v.push((x >> 8) as u8);
}

fn push_u32(v: &mut Vec<u8>, x: u32) {
    v.push((x & 0xff) as u8);
    v.push(((x >> 8) & 0xff) as u8);
    v.push(((x >> 16) & 0xff) as u8);
    v.push(((x >> 24) & 0xff) as u8);
}

fn push_cost(v: &mut Vec<u8>, c: i32) {
    push_u16(v, (c + 32768) as u16);
}

type Word = (Vec<u8>, u16, u16, i32, Vec<u32>, Vec<u32>);

fn word(s: &str, cost: i32, a: Vec<u32>, b: Vec<u32>) -> Word {
    (s.as_bytes().to_vec(), 0, 0, cost, a, b)
}

fn word_bytes(s: Vec<u8>, cost: i32, a: Vec<u32>, b: Vec<u32>) -> Word {
    (s, 0, 0, cost, a, b)
}

fn build_dict(rows: u16, cols: u16, costs: &[i32], words: &[Word]) -> Vec<u8> {
    let mut v = vec![0x57, 0x4b, 0x44, 0x49, 0x43, 0x54, 0x00, 0x01];
    v.extend_from_slice(&[0u8; 8]);
    push_u16(&mut v, rows);
    push_u16(&mut v, cols);
    for &c in costs {
        push_cost(&mut v, c);
    }
    push_u32(&mut v, words.len() as u32);
    for (s, l, r, c, a, b) in words {
        push_u16(&mut v, s.len() as u16);
        v.extend_from_slice(s);
        push_u16(&mut v, *l);
        push_u16(&mut v, *r);
        push_cost(&mut v, *c);
        v.push(a.len() as u8);
        for id in a {
            push_u32(&mut v, *id);
        }
        v.push(b.len() as u8);
        for id in b {
            push_u32(&mut v, *id);
        }
    }
    v
}

/// The dictionary of the compound example: one coarse entry with two finer
/// decompositions.
fn example_dict() -> Vec<u8> {
    build_dict(
        1,
        1,
        &[0],
        &[
            word("選挙", 1000, vec![], vec![]),
            word("管理", 1000, vec![], vec![]),
            word("委員", 1000, vec![], vec![]),
            word("会", 1000, vec![], vec![]),
            word("委員会", 1000, vec![2, 3], vec![]),
            word("選挙管理委員会", -1000, vec![0, 1, 2, 3], vec![0, 1, 4]),
        ],
    )
}

#[test]
fn parse_mode_letters() {
    assert_eq!(Mode::from_str("A"), Ok(Mode::A));
    assert_eq!(Mode::from_str("a"), Ok(Mode::A));
    assert_eq!(Mode::from_str("B"), Ok(Mode::B));
    assert_eq!(Mode::from_str("b"), Ok(Mode::B));
    assert_eq!(Mode::from_str("C"), Ok(Mode::C));
    assert_eq!(Mode::from_str("c"), Ok(Mode::C));
}

#[test]
fn parse_mode_rejects_other_strings() {
    assert_eq!(Mode::from_str("x"), Err(EngineError::InvalidMode));
    assert_eq!(Mode::from_str(""), Err(EngineError::InvalidMode));
    assert_eq!(Mode::from_str("AB"), Err(EngineError::InvalidMode));
    assert_eq!(Mode::from_str("ab"), Err(EngineError::InvalidMode));
    assert_eq!(Mode::from_str("д"), Err(EngineError::InvalidMode));
}

#[test]
fn truncated_buffer_is_a_format_error() {
    let buf = vec![0x57, 0x4b, 0x44];
    match Tokenizer::from_dictionary_bytes(&buf) {
        Err(EngineError::DictionaryFormat) => (),
        other => panic!("expected a dictionary format error, got {:?}", other.is_ok()),
    }
}

#[test]
fn wrong_magic_is_a_format_error() {
    let mut buf = example_dict();
    buf[0] = 0x00;
    assert!(matches!(
        Tokenizer::from_dictionary_bytes(&buf),
        Err(EngineError::DictionaryFormat)
    ));
}

#[test]
fn minimal_dictionary_loads() {
    let buf = build_dict(1, 1, &[0], &[]);
    assert!(Tokenizer::from_dictionary_bytes(&buf).is_ok());
}

#[test]
fn empty_text_gives_empty_result() {
    let buf = example_dict();
    let tok = Tokenizer::from_dictionary_bytes(&buf).unwrap();
    let morphemes = tok.tokenize("", Mode::C, false).unwrap();
    assert_eq!(morphemes.len(), 0);
}

#[test]
fn example_compound_has_one_unit_in_mode_c() {
    let buf = example_dict();
    let tok = Tokenizer::from_dictionary_bytes(&buf).unwrap();
    let ms = tok.tokenize("選挙管理委員会", Mode::C, false).unwrap();
    let ids: Vec<usize> = ms.iter().map(|m| m.word_id).collect();
    assert_eq!(ids, vec![5]);
    assert_eq!(ms[0].surface, "選挙管理委員会".as_bytes().to_vec());
}

#[test]
fn example_compound_splits_in_mode_b() {
    let buf = example_dict();
    let tok = Tokenizer::from_dictionary_bytes(&buf).unwrap();
    let ms = tok.tokenize("選挙管理委員会", Mode::B, false).unwrap();
    let ids: Vec<usize> = ms.iter().map(|m| m.word_id).collect();
    assert_eq!(ids, vec![0, 1, 4]);
    assert_eq!(ms[0].surface, "選挙".as_bytes().to_vec());
    assert_eq!(ms[1].surface, "管理".as_bytes().to_vec());
    assert_eq!(ms[2].surface, "委員会".as_bytes().to_vec());
}

#[test]
fn example_compound_splits_in_mode_a() {
    let buf = example_dict();
    let tok = Tokenizer::from_dictionary_bytes(&buf).unwrap();
    let ms = tok.tokenize("選挙管理委員会", Mode::A, false).unwrap();
    let ids: Vec<usize> = ms.iter().map(|m| m.word_id).collect();
    assert_eq!(ids, vec![0, 1, 2, 3]);
}

#[test]
fn surfaces_reassemble_the_input() {
    let buf = example_dict();
    let tok = Tokenizer::from_dictionary_bytes(&buf).unwrap();
    let input = "選挙管理委員会";
    for mode in [Mode::A, Mode::B, Mode::C] {
        let ms = tok.tokenize(input, mode, false).unwrap();
        let mut joined: Vec<u8> = Vec::new();
        for m in &ms {
            joined.extend_from_slice(&m.surface);
        }
        assert_eq!(joined, input.as_bytes().to_vec());
    }
}

#[test]
fn counts_are_mode_monotonic() {
    let buf = example_dict();
    let tok = Tokenizer::from_dictionary_bytes(&buf).unwrap();
    let input = "選挙管理委員会";
    let a = tok.tokenize(input, Mode::A, false).unwrap().len();
    let b = tok.tokenize(input, Mode::B, false).unwrap().len();
    let c = tok.tokenize(input, Mode::C, false).unwrap().len();
    assert_eq!((a, b, c), (4, 3, 1));
    assert!(a >= b && b >= c);
}

#[test]
fn singleton_split_keeps_the_word_itself() {
    let words = [
        word("xy", 1, vec![1], vec![]),
        word("x", 100, vec![], vec![]),
        word("y", 100, vec![], vec![]),
    ];
    let buf = build_dict(1, 1, &[0], &words);
    let tok = Tokenizer::from_dictionary_bytes(&buf).unwrap();
    let ms = tok.tokenize("xy", Mode::A, false).unwrap();
    let ids: Vec<usize> = ms.iter().map(|m| m.word_id).collect();
    assert_eq!(ids, vec![0]);
}

#[test]
fn continuation_byte_offsets_never_start_edges() {
    // "あ" is E3 81 82; a word for the continuation bytes alone could close
    // a path only if the scan looked entries up mid-character.
    let words = [
        word_bytes(vec![0xe3], 1, vec![], vec![]),
        word_bytes(vec![0x81, 0x82], 1, vec![], vec![]),
    ];
    let buf = build_dict(1, 1, &[0], &words);
    let tok = Tokenizer::from_dictionary_bytes(&buf).unwrap();
    assert!(matches!(tok.tokenize("あ", Mode::C, false), Err(EngineError::Path)));
}

#[test]
fn same_call_twice_is_identical() {
    let buf = example_dict();
    let tok = Tokenizer::from_dictionary_bytes(&buf).unwrap();
    let first = tok.tokenize("選挙管理委員会", Mode::A, false).unwrap();
    let second = tok.tokenize("選挙管理委員会", Mode::A, false).unwrap();
    assert_eq!(first, second);
}

#[test]
fn unsegmentable_text_is_a_path_error() {
    let buf = example_dict();
    let tok = Tokenizer::from_dictionary_bytes(&buf).unwrap();
    assert!(matches!(tok.tokenize("management", Mode::C, false), Err(EngineError::Path)));
}

#[test]
fn least_cost_path_wins() {
    // "ab" as one word is cheaper than "a" + "b".
    let words = [
        word("ab", -10, vec![], vec![]),
        word("a", 1, vec![], vec![]),
        word("b", 1, vec![], vec![]),
    ];
    let buf = build_dict(1, 1, &[0], &words);
    let tok = Tokenizer::from_dictionary_bytes(&buf).unwrap();
    let ms = tok.tokenize("ab", Mode::C, false).unwrap();
    let ids: Vec<usize> = ms.iter().map(|m| m.word_id).collect();
    assert_eq!(ids, vec![0]);
}

#[test]
fn connection_costs_steer_the_path() {
    // Same word costs, but adjacency (right id 1 -> left id 1) is penalized,
    // so the path avoids the penalized pair.
    let words = [
        (b"a".to_vec(), 1u16, 1u16, 0i32, vec![], vec![]),
        (b"b".to_vec(), 1u16, 1u16, 0i32, vec![], vec![]),
        (b"ab".to_vec(), 0u16, 0u16, 50i32, vec![], vec![]),
    ];
    // cost[r][c]: from right id r to left id c; 1 -> 1 is expensive.
    let costs = [0, 0, 0, 100];
    let buf = build_dict(2, 2, &costs, &words);
    let tok = Tokenizer::from_dictionary_bytes(&buf).unwrap();
    let ms = tok.tokenize("ab", Mode::C, false).unwrap();
    let ids: Vec<usize> = ms.iter().map(|m| m.word_id).collect();
    assert_eq!(ids, vec![2]);
}

#[test]
fn inconsistent_split_is_a_format_error() {
    // The two-id split of "xy" reassembles "xx", not "xy".
    let words = [
        word("xy", 1, vec![1, 1], vec![]),
        word("x", 1, vec![], vec![]),
    ];
    let buf = build_dict(1, 1, &[0], &words);
    assert!(matches!(
        Tokenizer::from_dictionary_bytes(&buf),
        Err(EngineError::DictionaryFormat)
    ));
}

#[test]
fn uncovered_connection_id_is_a_format_error() {
    // A 1 x 1 cost table cannot cover left id 7.
    let words = [(b"x".to_vec(), 7u16, 0u16, 1i32, vec![], vec![])];
    let buf = build_dict(1, 1, &[0], &words);
    assert!(matches!(
        Tokenizer::from_dictionary_bytes(&buf),
        Err(EngineError::DictionaryFormat)
    ));
}

#[test]
fn empty_surface_is_a_format_error() {
    let words = [word("", 1, vec![], vec![])];
    let buf = build_dict(1, 1, &[0], &words);
    assert!(matches!(
        Tokenizer::from_dictionary_bytes(&buf),
        Err(EngineError::DictionaryFormat)
    ));
}

#[test]
fn word_param_out_of_range_is_a_lookup_error() {
    let buf = example_dict();
    let tok = Tokenizer::from_dictionary_bytes(&buf).unwrap();
    assert!(matches!(tok.lexicon.get_word_param(99), Err(EngineError::Lookup)));
    let (left, right, cost) = tok.lexicon.get_word_param(0).unwrap();
    assert_eq!((left, right, cost), (0, 0, 1000));
}

#[test]
fn word_info_returns_the_splits() {
    let buf = example_dict();
    let tok = Tokenizer::from_dictionary_bytes(&buf).unwrap();
    let info = tok.lexicon.get_word_info(5).unwrap();
    assert_eq!(info.a_split, vec![0, 1, 2, 3]);
    assert_eq!(info.b_split, vec![0, 1, 4]);
    assert!(matches!(tok.lexicon.get_word_info(6), Err(EngineError::Lookup)));
}

#[test]
fn debug_flag_never_changes_the_result() {
    let buf = example_dict();
    let tok = Tokenizer::from_dictionary_bytes(&buf).unwrap();
    let off = tok.tokenize("選挙管理委員会", Mode::B, false).unwrap();
    let on = tok.tokenize("選挙管理委員会", Mode::B, true).unwrap();
    assert_eq!(off, on);
}

#[test]
fn error_messages_name_the_failure() {
    assert!(EngineError::InvalidMode.message().contains("mode"));
    assert!(EngineError::DictionaryFormat.message().contains("dictionary"));
    assert_eq!(
        EngineError::Path.message(),
        "no path through the lattice covers the input"
    );
    assert_eq!(EngineError::Io.message(), "the dictionary file could not be read");
}
