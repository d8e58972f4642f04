use puzzles::hash::{Init, Instruction, ParseError};

fn test_data() -> &'static str {
    "rn=1,cm-,qp=3,cm=2,qp-,pc=4,ot=9,ab=5,pc-,pc=6,ot=7"
}

#[test]
fn test_parse_init_sequence() {
    let init = Init::parse_init_sequence(test_data()).unwrap();

    assert_eq!(init.sequence.len(), 11);
}

#[test]
fn test_hash() {
    let init = Init::parse_init_sequence(test_data()).unwrap();

    assert_eq!(init.sequence[0].hash(), 30);
    assert_eq!(init.sequence[1].hash(), 253);
    assert_eq!(init.sequence[2].hash(), 97);
    assert_eq!(init.sequence[3].hash(), 47);
    assert_eq!(init.sequence[4].hash(), 14);
    assert_eq!(init.sequence[5].hash(), 180);
    assert_eq!(init.sequence[6].hash(), 9);
    assert_eq!(init.sequence[7].hash(), 197);
    assert_eq!(init.sequence[8].hash(), 48);
    assert_eq!(init.sequence[9].hash(), 214);
    assert_eq!(init.sequence[10].hash(), 231);
}

#[test]
fn test_sum_hashes() {
    let init = Init::parse_init_sequence(test_data()).unwrap();

    assert_eq!(init.sum_hashes(), 1320);
}

#[test]
fn test_initialise() {
    let init = Init::parse_init_sequence(test_data()).unwrap();

    let lens_boxes = init.initialise();

    assert_eq!(lens_boxes.len(), 3);
    assert_eq!(lens_boxes[&0].len(), 2);
    assert_eq!(lens_boxes[&3].len(), 3);
}

#[test]
fn test_calculate_focusing_power() {
    let init = Init::parse_init_sequence(test_data()).unwrap();

    let lens_boxes = init.initialise();

    assert_eq!(Init::calculate_focusing_power(lens_boxes), 145);
}

#[test]
fn test_hash_single_word() {
    let ins = Instruction::parse_instruction("HASH=1".chars().collect()).unwrap();
    assert_eq!(ins.hash_label(), 52);
}

#[test]
fn test_parse_instruction_fields() {
    let ins = Instruction::parse_instruction("rn=1".chars().collect()).unwrap();
    assert_eq!(ins.label, vec!['r', 'n']);
    assert_eq!(ins.focul_length, Some(1));

    let ins = Instruction::parse_instruction("cm-".chars().collect()).unwrap();
    assert_eq!(ins.label, vec!['c', 'm']);
    assert_eq!(ins.focul_length, None);
}

#[test]
fn test_parse_instruction_errors() {
    assert_eq!(
        Instruction::parse_instruction("nodash".chars().collect()).unwrap_err(),
        ParseError::MissingOperation
    );
    assert_eq!(
        Instruction::parse_instruction("ab=xy".chars().collect()).unwrap_err(),
        ParseError::BadFocalLength
    );
}
