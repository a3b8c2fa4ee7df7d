use iris::portfire::Board;
use iris::script::{Cue, Script};
use iris::show::{
    armed_ok, continuity_faults, disarmed_ok, fire_plan, locate, loop_ok, match_boards, SlotFault,
    ARMED_MIN_MV, DISARMED_MAX_MV, LOOP_MIN_DV,
};

fn script() -> Script {
    Script::from_string(
        "board left 00:00:00:00:00:01\n\
         board right 00:00:00:00:00:02\n\
         channel a left 1\n\
         channel b left 2\n\
         channel c left 30\n\
         channel x right 1\n\
         channel y right 7\n\
         sleep 1\n\
         fire a x b\n\
         pause\n\
         fire y c\n"
            .to_string(),
    )
    .unwrap()
}

#[test]
fn boards_are_matched_by_hardware_address() {
    let script = script();
    let found = vec![
        Board { ip: [10, 0, 0, 5], mac: [0, 0, 0, 0, 0, 2] },
        Board { ip: [10, 0, 0, 6], mac: [0, 0, 0, 0, 0, 9] },
        Board { ip: [10, 0, 0, 7], mac: [0, 0, 0, 0, 0, 1] },
    ];
    assert_eq!(locate(&found, &[0, 0, 0, 0, 0, 9]), Some(1));
    assert_eq!(locate(&found, &[0, 0, 0, 0, 0, 3]), None);
    assert_eq!(match_boards(&script.boards, &found), Ok(vec![found[2], found[0]]));
    assert_eq!(match_boards(&script.boards, &found[..2].to_vec()), Err(0));
    assert_eq!(match_boards(&script.boards, &found[1..].to_vec()), Err(1));
    assert_eq!(match_boards(&script.boards, &vec![]), Err(0));
    assert_eq!(match_boards(&vec![], &vec![]), Ok(vec![]));
}

#[test]
fn the_latest_announcement_of_a_hardware_address_counts() {
    let found = vec![
        Board { ip: [10, 0, 0, 5], mac: [0, 0, 0, 0, 0, 1] },
        Board { ip: [10, 0, 0, 6], mac: [0, 0, 0, 0, 0, 1] },
    ];
    assert_eq!(locate(&found, &[0, 0, 0, 0, 0, 1]), Some(1));
}

#[test]
fn voltage_thresholds() {
    assert_eq!(DISARMED_MAX_MV, 1000);
    assert_eq!(ARMED_MIN_MV, 2500);
    assert_eq!(LOOP_MIN_DV, 30);
    assert!(disarmed_ok(0));
    assert!(disarmed_ok(1000));
    assert!(!disarmed_ok(1001));
    assert!(armed_ok(2500, ARMED_MIN_MV));
    assert!(!armed_ok(2499, ARMED_MIN_MV));
    assert!(armed_ok(3000, 3000));
    assert!(!armed_ok(2999, 3000));
    let mut codes = [255u8; 31];
    codes[30] = 30;
    assert!(loop_ok(&codes));
    codes[30] = 29;
    assert!(!loop_ok(&codes));
}

#[test]
fn continuity_is_held_against_the_script() {
    let script = script();
    let mut codes = [255u8; 31];
    codes[0] = 2; // a
    codes[1] = 2; // b
    codes[29] = 2; // c
    codes[30] = 33;
    assert_eq!(continuity_faults(&"left".to_string(), &codes, &script.channels), vec![]);
    assert_eq!(
        continuity_faults(&"right".to_string(), &codes, &script.channels),
        vec![
            (2, SlotFault::Stray),
            (7, SlotFault::NotConnected),
            (30, SlotFault::Stray),
        ]
    );
    assert_eq!(
        continuity_faults(&"left".to_string(), &[255u8; 31], &script.channels),
        vec![
            (1, SlotFault::NotConnected),
            (2, SlotFault::NotConnected),
            (30, SlotFault::NotConnected),
        ]
    );
    assert_eq!(continuity_faults(&"nowhere".to_string(), &[255u8; 31], &script.channels), vec![]);
}

#[test]
fn a_fire_becomes_one_command_for_each_board() {
    let script = script();
    let mut plans = Vec::new();
    for cue in &script.cues {
        if let Cue::Fire { channels } = cue {
            plans.push(fire_plan(channels, &script.channels));
        }
    }
    assert_eq!(
        plans,
        vec![
            Some(vec![("left".to_string(), [1, 2, 0]), ("right".to_string(), [1, 0, 0])]),
            Some(vec![("right".to_string(), [7, 0, 0]), ("left".to_string(), [30, 0, 0])]),
        ]
    );
}

#[test]
fn a_fire_that_cannot_be_sent_has_no_plan() {
    let channels = vec![
        ("a".to_string(), ("1".to_string(), 1)),
        ("b".to_string(), ("1".to_string(), 2)),
        ("c".to_string(), ("1".to_string(), 3)),
        ("d".to_string(), ("1".to_string(), 4)),
    ];
    let names = |list: &[&str]| list.iter().map(|s| s.to_string()).collect::<Vec<String>>();
    assert_eq!(fire_plan(&names(&[]), &channels), Some(vec![]));
    assert_eq!(
        fire_plan(&names(&["c", "a", "b"]), &channels),
        Some(vec![("1".to_string(), [3, 1, 2])])
    );
    assert_eq!(fire_plan(&names(&["a", "b", "c", "d"]), &channels), None);
    assert_eq!(fire_plan(&names(&["a", "nope"]), &channels), None);
}
