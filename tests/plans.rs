use utils::plans::{part1, Action, Plan, Track};

#[test]
fn actions_parse_from_symbols() {
    assert_eq!(Action::parse(b"+"), Action::Inc);
    assert_eq!(Action::parse(b"-"), Action::Dec);
    assert_eq!(Action::parse(b"="), Action::Noop);
    assert_eq!(Action::parse(b"S"), Action::Noop);
}

#[test]
fn plans_parse_from_comma_lists() {
    let plan = Plan::parse(b"+,-,=,S");
    assert_eq!(plan.actions, vec![Action::Inc, Action::Dec, Action::Noop, Action::Noop]);
}

#[test]
fn essence_over_ten_segments() {
    assert_eq!(Plan::parse(b"+,-,=,=").simulate(10, 10), 103);
    assert_eq!(Plan::parse(b"+,+,-,+").simulate(10, 10), 131);
    assert_eq!(Plan::parse(b"=,-,+,+").simulate(10, 10), 107);
    assert_eq!(Plan::parse(b"=,=,-,+").simulate(10, 10), 98);
}

#[test]
fn power_never_drops_below_zero() {
    assert_eq!(Plan::parse(b"-").simulate(5, 2), 1);
    assert_eq!(Plan::parse(b"S,+").simulate(3, 0), 2);
    assert_eq!(Plan::parse(b"+").simulate(0, 7), 0);
    assert_eq!(Plan::parse(b"+").simulate(-3, 7), 0);
}

fn example_track() -> Track {
    let terrain = b"+===++-=+=-S".iter().map(|&b| Action::parse(&[b])).collect();
    Track { terrain }
}

#[test]
fn track_terrain_overrides_plan() {
    let track = example_track();
    assert_eq!(track.simulate(&Plan::parse(b"+,-,=,="), 10, 10), 1290);
    assert_eq!(track.simulate(&Plan::parse(b"+,+,-,+"), 10, 10), 4860);
    assert_eq!(track.simulate(&Plan::parse(b"=,-,+,+"), 10, 10), 3700);
    assert_eq!(track.simulate(&Plan::parse(b"=,=,-,+"), 10, 10), 3640);
    let downhill = Track { terrain: vec![Action::Dec] };
    assert_eq!(downhill.simulate(&Plan::parse(b"+"), 3, 1), 0);
}

#[test]
fn one_track_segment() {
    let track = example_track();
    let plan = Plan::parse(b"-,=");
    assert_eq!(track.get_and_step(&plan, (0, 0), 5), ((1, 1), 6));
    assert_eq!(track.get_and_step(&plan, (1, 0), 5), ((2, 1), 4));
    assert_eq!(track.get_and_step(&plan, (11, 1), 5), ((0, 0), 5));
    assert_eq!(track.get_and_step(&plan, (6, 1), 0), ((7, 0), 0));
}

#[test]
fn plans_ranked_by_essence() {
    assert_eq!(part1(b"A:+,-,=,=\nB:+,=,-,+\nC:=,-,+,+\nD:=,=,=,+\n"), b"BDCA".to_vec());
    assert_eq!(part1(b"X:=\nY:S\nZ:+"), b"ZXY".to_vec());
}
