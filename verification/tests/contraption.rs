use aoc::day16::{
    get_energized, get_idx, get_next, is_pipe_par, parse_contraption, reflect, LightDir, LitData,
    Part,
};
use aoc::error::Error;

#[test]
fn light_direction_tables() {
    assert_eq!(LightDir::Left.perp(), (LightDir::Up, LightDir::Down));
    assert_eq!(LightDir::Down.perp(), (LightDir::Left, LightDir::Right));
    assert_eq!(LightDir::Left.inv(), LightDir::Right);
    assert_eq!(LightDir::Up.inv(), LightDir::Down);
}

#[test]
fn mirrors_bend_beams() {
    // A beam moving right meets `/` and turns upward; `\` sends it down.
    assert_eq!(reflect(LightDir::Right, Part::LRMirror), LightDir::Up);
    assert_eq!(reflect(LightDir::Right, Part::RLMirror), LightDir::Down);
    assert_eq!(reflect(LightDir::Up, Part::LRMirror), LightDir::Right);
    assert_eq!(reflect(LightDir::Down, Part::Blank), LightDir::Down);
}

#[test]
fn splitter_parallelism() {
    assert!(is_pipe_par(Part::HPipe, LightDir::Left));
    assert!(is_pipe_par(Part::VPipe, LightDir::Down));
    assert!(!is_pipe_par(Part::HPipe, LightDir::Up));
    assert!(!is_pipe_par(Part::Blank, LightDir::Left));
    assert!(Part::VPipe.is_pipe());
    assert!(!Part::LRMirror.is_pipe());
}

#[test]
fn grid_walking() {
    assert_eq!(get_idx((4, 5), (2, 3)), 13);
    assert_eq!(get_next(LightDir::Left, (4, 5), (2, 0)), None);
    assert_eq!(get_next(LightDir::Left, (4, 5), (2, 3)), Some((2, 2)));
    assert_eq!(get_next(LightDir::Down, (4, 5), (3, 3)), None);
    assert_eq!(get_next(LightDir::Down, (4, 5), (2, 3)), Some((3, 3)));
}

#[test]
fn lighting_marks() {
    let mut ld = LitData::new();
    assert!(ld.is_unlit());
    ld.set(LightDir::Left);
    assert!(ld.get(LightDir::Left));
    assert!(!ld.get(LightDir::Right));
    assert!(!ld.is_unlit());
    ld.flit();
    assert!(ld.get(LightDir::Up) && ld.get(LightDir::Down));

    let cells = vec![LitData::new(), ld];
    assert_eq!(get_energized(&cells), 1);
}

#[test]
fn contraption_parsing() {
    let v = parse_contraption("./\\\n-|.").unwrap();
    assert_eq!(
        v,
        vec![
            Part::Blank,
            Part::LRMirror,
            Part::RLMirror,
            Part::HPipe,
            Part::VPipe,
            Part::Blank,
        ]
    );
    assert_eq!(parse_contraption("..x"), Err(Error::MalformedInput));
}
