use puzzles::beams::{Beam, BeamManager, Contraption, Direction};

fn test_data() -> &'static str {
    r".|...\....
|.-.\.....
.....|-...
........|.
..........
.........\
..../.\\..
.-.-/..|..
.|....-|.\
..//.|...."
}

#[test]
fn beams_test_parse_patterns() {
    let contraption = Contraption::parse_platform(test_data()).unwrap();

    assert_eq!(contraption.tiles.len(), 100);
}

#[test]
fn test_count_energised_tiles() {
    let contraption = Contraption::parse_platform(test_data()).unwrap();

    let mut beam_manager = BeamManager::new();
    let beam = Beam::new((0, 0), Direction::Right);
    beam_manager.beams.push(beam);
    beam_manager.step(&contraption);
    beam_manager.energise();

    assert_eq!(beam_manager.get_energised_tiles(), 1);

    beam_manager.step(&contraption);
    beam_manager.energise();

    assert_eq!(beam_manager.get_energised_tiles(), 2);

    beam_manager.step(&contraption);
    beam_manager.energise();

    assert_eq!(beam_manager.get_energised_tiles(), 3);
}

#[test]
fn test_process_to_completion() {
    let contraption = Contraption::parse_platform(test_data()).unwrap();

    let mut beam_manager = BeamManager::new();
    let beam = Beam::new((0, 0), Direction::Right);
    beam_manager.beams.push(beam);

    while beam_manager.step(&contraption) {
        ()
    }

    beam_manager.step(&contraption);

    println!("{}", beam_manager.render());

    assert_eq!(beam_manager.get_energised_tiles(), 46);
}
