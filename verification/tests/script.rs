use iris::script::{Cue, Script, ScriptError};
use std::collections::HashMap;

fn board_map(script: &Script) -> HashMap<String, [u8; 6]> {
    script.boards.iter().cloned().collect()
}

fn channel_map(script: &Script) -> HashMap<String, (String, u8)> {
    script.channels.iter().cloned().collect()
}

#[test]
fn empty_script() {
    let script_string = "".to_string();
    let script = Script::from_string(script_string).unwrap();
    assert_eq!(board_map(&script), HashMap::new());
    assert_eq!(channel_map(&script), HashMap::new());
    assert_eq!(
        script,
        Script { cues: vec![], boards: vec![], channels: vec![], duration: 0 }
    )
}

#[test]
#[should_panic(expected = "Invalid command")]
fn invalid_cmd() {
    let script_string = "
        invalid command
        "
    .to_string();

    Script::from_string(script_string).unwrap();
}

#[test]
fn ignore_comments() {
    let script_string_1 = "
        say hello
        sleep 5
        "
    .to_string();

    let script_string_2 = "
        # this is a comment
        say hello
        # another comment
        sleep 5
        "
    .to_string();

    assert_eq!(
        Script::from_string(script_string_1).unwrap(),
        Script::from_string(script_string_2).unwrap()
    );
}

#[test]
fn duration() {
    let script_string = "
        sleep 5
        sleep 3
        sleep 2
        "
    .to_string();

    assert_eq!(Script::from_string(script_string).unwrap().duration, 10);
}

#[test]
#[should_panic(expected = "Invalid sleep time")]
fn invalid_sleep_time() {
    let script_string = "
        sleep a
        "
    .to_string();
    Script::from_string(script_string).unwrap();
}

#[test]
fn boards() {
    let script_string = "
        board 001 00:01:02:03:04:05
        board 002 aa:bb:cc:dd:ee:ff
        "
    .to_string();

    let mut boards = HashMap::new();
    boards.insert("001".to_string(), [0, 1, 2, 3, 4, 5]);
    boards.insert("002".to_string(), [170, 187, 204, 221, 238, 255]);

    assert_eq!(board_map(&Script::from_string(script_string).unwrap()), boards);
}

#[test]
#[should_panic(expected = "DuplicateBoardId")]
fn duplicate_board_name() {
    let script_string = "
        board 001 00:01:02:03:04:05
        board 001 aa:bb:cc:dd:ee:ff
        "
    .to_string();
    Script::from_string(script_string).unwrap();
}

#[test]
#[should_panic(expected = "DuplicateBoardMac")]
fn duplicate_board_mac() {
    let script_string = "
        board 001 00:01:02:03:04:05
        board 002 00:01:02:03:04:05
        "
    .to_string();
    Script::from_string(script_string).unwrap();
}

#[test]
#[should_panic(expected = "Invalid MAC address")]
fn invalid_mac_address() {
    let script_string = "
        board 001 00:01:02:03:04:ZZ
        "
    .to_string();
    Script::from_string(script_string).unwrap();
}

#[test]
#[should_panic(expected = "Invalid MAC address")]
fn invalid_mac_address_2() {
    let script_string = "
        board 001 hello
        "
    .to_string();
    Script::from_string(script_string).unwrap();
}

#[test]
fn channels() {
    let script_string = "
        board 001 00:00:00:00:00:00
        channel ch1 001 1
        channel ch2 001 2
        "
    .to_string();

    let mut channels = HashMap::new();
    channels.insert("ch1".to_string(), ("001".to_string(), 1));
    channels.insert("ch2".to_string(), ("001".to_string(), 2));

    assert_eq!(channel_map(&Script::from_string(script_string).unwrap()), channels);
}

#[test]
#[should_panic(expected = "DuplicateChannel")]
fn duplicate_channels() {
    let script_string = "
        board 001 00:00:00:00:00:00
        channel ch1 001 1
        channel ch1 001 2
        "
    .to_string();
    Script::from_string(script_string).unwrap();
}

#[test]
#[should_panic(expected = "DuplicateChannel")]
fn duplicate_board_channels() {
    let script_string = "
        board 001 00:00:00:00:00:00
        channel ch1 001 1
        channel ch2 001 1
        "
    .to_string();
    Script::from_string(script_string).unwrap();
}

#[test]
#[should_panic(expected = "UnknownBoardId")]
fn unknown_channel_board() {
    let script_string = "
        channel ch1 001 1
        "
    .to_string();
    Script::from_string(script_string).unwrap();
}

#[test]
#[should_panic(expected = "Invalid firing channel")]
fn invalid_firing_channel() {
    let script_string = "
        board 001 00:00:00:00:00:00
        channel ch1 001 a
        "
    .to_string();
    Script::from_string(script_string).unwrap();
}

#[test]
#[should_panic(expected = "InvalidChannelNum")]
fn invalid_firing_channel_2() {
    let script_string = "
        board 001 00:00:00:00:00:00
        channel ch1 001 31
        "
    .to_string();
    Script::from_string(script_string).unwrap();
}

#[test]
#[should_panic(expected = "FireWithoutSleep")]
fn fire_without_sleep() {
    let script_string = "
        board 001 00:00:00:00:00:00
        channel ch1 001 1
        channel ch2 001 2
        sleep 1
        fire ch1
        fire ch2
        sleep 1
        "
    .to_string();
    Script::from_string(script_string).unwrap();
}

#[test]
#[should_panic(expected = "ChannelRefired")]
fn channel_refired() {
    let script_string = "
        board 001 00:00:00:00:00:00
        channel ch1 001 1
        fire ch1
        sleep 1
        fire ch1
        "
    .to_string();
    Script::from_string(script_string).unwrap();
}

#[test]
#[should_panic(expected = "UndefinedChannel")]
fn undefined_channel() {
    let script_string = "
        fire ch1
        "
    .to_string();
    Script::from_string(script_string).unwrap();
}

#[test]
#[should_panic(expected = "ExcessChannelsPerBoard")]
fn excess_channels_per_board() {
    let script_string = "
        board 001 00:00:00:00:00:00
        channel ch1 001 1
        channel ch2 001 2
        channel ch3 001 3
        channel ch4 001 4
        fire ch1 ch2 ch3 ch4
        "
    .to_string();
    Script::from_string(script_string).unwrap();
}

#[test]
fn complete_script() {
    let script_string = "
        board 001 00:00:00:00:00:01\n\
        board 002 00:00:00:00:00:02\n\
        channel ch1 001 1\n\
        channel ch2 001 2\n\
        channel ch3 001 3\n\
        channel ch4 001 4\n\
        channel ch5 001 5\n\
        channel chA 002 1\n\
        channel chB 002 2\n\
        channel chC 002 3\n\
        print\n\
        print Hello\n\
        say Hello\n\
        say\n\
        pause\n\
        sleep 1\n\
        fire ch1 chA chB chC\n\
        sleep 2\n\
        fire ch2 ch3 ch4\n\
        pause\n\
        fire ch5\n\
        "
    .to_string();
    let script = Script::from_string(script_string).unwrap();

    let cues = vec![
        Cue::Board { board_id: "001".to_string(), mac_address: [0, 0, 0, 0, 0, 1] },
        Cue::Board { board_id: "002".to_string(), mac_address: [0, 0, 0, 0, 0, 2] },
        Cue::Channel { name: "ch1".to_string(), board_id: "001".to_string(), num: 1 },
        Cue::Channel { name: "ch2".to_string(), board_id: "001".to_string(), num: 2 },
        Cue::Channel { name: "ch3".to_string(), board_id: "001".to_string(), num: 3 },
        Cue::Channel { name: "ch4".to_string(), board_id: "001".to_string(), num: 4 },
        Cue::Channel { name: "ch5".to_string(), board_id: "001".to_string(), num: 5 },
        Cue::Channel { name: "chA".to_string(), board_id: "002".to_string(), num: 1 },
        Cue::Channel { name: "chB".to_string(), board_id: "002".to_string(), num: 2 },
        Cue::Channel { name: "chC".to_string(), board_id: "002".to_string(), num: 3 },
        Cue::Print { message: "".to_string() },
        Cue::Print { message: "Hello".to_string() },
        Cue::Say { message: "Hello".to_string() },
        Cue::Say { message: "".to_string() },
        Cue::Pause,
        Cue::Sleep { time: 1 },
        Cue::Fire {
            channels: vec![
                "ch1".to_string(),
                "chA".to_string(),
                "chB".to_string(),
                "chC".to_string(),
            ],
        },
        Cue::Sleep { time: 2 },
        Cue::Fire { channels: vec!["ch2".to_string(), "ch3".to_string(), "ch4".to_string()] },
        Cue::Pause,
        Cue::Fire { channels: vec!["ch5".to_string()] },
    ];

    let mut boards: HashMap<String, [u8; 6]> = HashMap::new();
    boards.insert("001".to_string(), [0, 0, 0, 0, 0, 1]);
    boards.insert("002".to_string(), [0, 0, 0, 0, 0, 2]);

    let mut channels: HashMap<String, (String, u8)> = HashMap::new();
    channels.insert("ch1".to_string(), ("001".to_string(), 1));
    channels.insert("ch2".to_string(), ("001".to_string(), 2));
    channels.insert("ch3".to_string(), ("001".to_string(), 3));
    channels.insert("ch4".to_string(), ("001".to_string(), 4));
    channels.insert("ch5".to_string(), ("001".to_string(), 5));
    channels.insert("chA".to_string(), ("002".to_string(), 1));
    channels.insert("chB".to_string(), ("002".to_string(), 2));
    channels.insert("chC".to_string(), ("002".to_string(), 3));

    assert_eq!(script.cues, cues);
    assert_eq!(board_map(&script), boards);
    assert_eq!(channel_map(&script), channels);
    assert_eq!(script.duration, 3);
}

fn compile(text: &str) -> Result<Script, ScriptError> {
    Script::from_string(text.to_string())
}

#[test]
fn one_board_one_channel_one_fire() {
    let script = compile("board 1 00:00:00:00:00:01\nchannel a 1 1\nsleep 1\nfire a\n").unwrap();
    assert_eq!(script.boards, vec![("1".to_string(), [0, 0, 0, 0, 0, 1])]);
    assert_eq!(script.channels, vec![("a".to_string(), ("1".to_string(), 1))]);
    assert_eq!(
        script.cues,
        vec![
            Cue::Board { board_id: "1".to_string(), mac_address: [0, 0, 0, 0, 0, 1] },
            Cue::Channel { name: "a".to_string(), board_id: "1".to_string(), num: 1 },
            Cue::Sleep { time: 1 },
            Cue::Fire { channels: vec!["a".to_string()] },
        ]
    );
    assert_eq!(script.duration, 1);
}

#[test]
fn first_fire_needs_no_sleep_second_does() {
    let text = "board 1 00:00:00:00:00:01\nchannel a 1 1\nfire a\n";
    let script = compile(text).unwrap();
    assert_eq!(script.cues.len(), 3);
    assert_eq!(script.duration, 0);
    let again = "board 1 00:00:00:00:00:01\nchannel a 1 1\nfire a\nfire a\n";
    assert_eq!(compile(again), Err(ScriptError::FireWithoutSleep { lineno: 4 }));
}

#[test]
fn four_channels_of_one_board_are_too_many() {
    let text = "board 1 00:00:00:00:00:01\nchannel a 1 1\nchannel b 1 2\nchannel c 1 3\nchannel d 1 4\nsleep 1\nfire a b c d\n";
    assert_eq!(
        compile(text),
        Err(ScriptError::ExcessChannelsPerBoard { lineno: 7, board_id: "1".to_string() })
    );
}

#[test]
fn compiling_twice_gives_the_same_script() {
    let text = "board 1 00:00:00:00:00:01\nchannel a 1 1\nsay one\nsleep 4\nfire a\n";
    assert_eq!(compile(text), compile(text));
    assert!(compile(text).is_ok());
}

#[test]
fn duration_counts_sleeps_only() {
    let text = "sleep 7\nsay x\npause\nprint y\nsleep 0\nsleep 11\n";
    assert_eq!(compile(text).unwrap().duration, 18);
}

#[test]
fn duration_past_the_machine_limit_is_refused() {
    let text = "sleep 18446744073709551615\nsleep 1\n";
    assert_eq!(
        compile(text),
        Err(ScriptError::Parse { lineno: 2, error: "Invalid sleep time" })
    );
    assert_eq!(compile("sleep 18446744073709551615\n").unwrap().duration, u64::MAX);
    assert_eq!(
        compile("sleep 18446744073709551616\n"),
        Err(ScriptError::Parse { lineno: 1, error: "Invalid sleep time" })
    );
}

#[test]
fn fires_are_paced_by_pause_too() {
    let text = "board 1 00:00:00:00:00:01\nchannel a 1 1\nchannel b 1 2\nfire a\npause\nfire b\n";
    assert!(compile(text).is_ok());
    let text = "board 1 00:00:00:00:00:01\nchannel a 1 1\nchannel b 1 2\nfire a\nsay x\nprint y\nfire b\n";
    assert_eq!(compile(text), Err(ScriptError::FireWithoutSleep { lineno: 7 }));
}

#[test]
fn fire_without_sleep_whatever_the_channels() {
    let text = "fire a\nfire nothing declared here\n";
    assert_eq!(
        compile(text),
        Err(ScriptError::UndefinedChannel { lineno: 1, channel: "a".to_string() })
    );
    let text = "board 1 00:00:00:00:00:01\nchannel a 1 1\nfire a\nfire zz a a a a\n";
    assert_eq!(compile(text), Err(ScriptError::FireWithoutSleep { lineno: 4 }));
}

#[test]
fn a_channel_fires_once_in_the_whole_script() {
    let head = "board 1 00:00:00:00:00:01\nchannel a 1 1\nchannel b 1 2\n";
    assert_eq!(
        compile(&format!("{}fire a\nsleep 1\nfire b\nsleep 1\nfire a\n", head)),
        Err(ScriptError::ChannelRefired { lineno: 8, channel: "a".to_string() })
    );
    assert_eq!(
        compile(&format!("{}fire a b a\n", head)),
        Err(ScriptError::ChannelRefired { lineno: 4, channel: "a".to_string() })
    );
}

#[test]
fn fire_rules_come_in_order() {
    let head = "board 1 00:00:00:00:00:01\nchannel a 1 1\nchannel b 1 2\nchannel c 1 3\nchannel d 1 4\n";
    // refired comes before undeclared, whatever the order of the names
    assert_eq!(
        compile(&format!("{}fire a\nsleep 1\nfire nope a\n", head)),
        Err(ScriptError::ChannelRefired { lineno: 8, channel: "a".to_string() })
    );
    // undeclared comes before the per-board limit
    assert_eq!(
        compile(&format!("{}fire a b c d nope\n", head)),
        Err(ScriptError::UndefinedChannel { lineno: 6, channel: "nope".to_string() })
    );
}

#[test]
fn three_channels_on_each_of_two_boards() {
    let text = "board 1 00:00:00:00:00:01\nboard 2 00:00:00:00:00:02\n\
channel a 1 1\nchannel b 1 2\nchannel c 1 3\nchannel d 2 1\nchannel e 2 2\nchannel f 2 3\nchannel g 2 4\n\
fire a d b e c f\n";
    assert!(compile(text).is_ok());
    let text = "board 1 00:00:00:00:00:01\nboard 2 00:00:00:00:00:02\n\
channel a 1 1\nchannel b 1 2\nchannel c 1 3\nchannel d 2 1\nchannel e 2 2\nchannel f 2 3\nchannel g 2 4\n\
fire a d b e c f g\n";
    assert_eq!(
        compile(text),
        Err(ScriptError::ExcessChannelsPerBoard { lineno: 10, board_id: "2".to_string() })
    );
}

#[test]
fn channel_rules_come_in_order() {
    let head = "board 1 00:00:00:00:00:01\nchannel a 1 1\n";
    assert_eq!(
        compile(&format!("{}channel a 9 99\n", head)),
        Err(ScriptError::DuplicateChannel { lineno: 3, name: "a".to_string() })
    );
    assert_eq!(
        compile(&format!("{}channel b 1 1\n", head)),
        Err(ScriptError::DuplicateChannelSlot { lineno: 3, name: "b".to_string() })
    );
    assert_eq!(
        compile(&format!("{}channel b 9 99\n", head)),
        Err(ScriptError::UnknownBoardId { lineno: 3, board_id: "9".to_string() })
    );
    assert_eq!(
        compile(&format!("{}channel b 1 0\n", head)),
        Err(ScriptError::InvalidChannelNum { lineno: 3, num: 0 })
    );
    assert_eq!(
        compile(&format!("{}channel b 1 31\n", head)),
        Err(ScriptError::InvalidChannelNum { lineno: 3, num: 31 })
    );
    assert_eq!(
        compile(&format!("{}channel b 1 256\n", head)),
        Err(ScriptError::Parse { lineno: 3, error: "Invalid firing channel" })
    );
    assert!(compile(&format!("{}channel b 1 30\n", head)).is_ok());
}

#[test]
fn board_rules_come_in_order() {
    let head = "board 1 00:00:00:00:00:01\n";
    assert_eq!(
        compile(&format!("{}board 1 00:00:00:00:00:01\n", head)),
        Err(ScriptError::DuplicateBoardId { lineno: 2, board_id: "1".to_string() })
    );
    assert_eq!(
        compile(&format!("{}board 2 0:0:0:0:0:1\n", head)),
        Err(ScriptError::DuplicateBoardMac { lineno: 2, mac_address: [0, 0, 0, 0, 0, 1] })
    );
}

#[test]
fn hardware_addresses_are_six_hex_bytes() {
    for bad in [
        "board 1 00:01:02:03:04",
        "board 1 00:01:02:03:04:05:06",
        "board 1 00:01:02:03:04:05:ZZ",
        "board 1 00:01:02:03:04:100",
        "board 1 00:01:02:03:04:",
        "board 1 :00:01:02:03:04:05",
        "board 1 00-01-02-03-04-05",
    ] {
        assert_eq!(
            compile(bad),
            Err(ScriptError::Parse { lineno: 1, error: "Invalid MAC address" }),
            "{}",
            bad
        );
    }
    let script = compile("board x A:b:0C:00d:+e:Ff").unwrap();
    assert_eq!(script.boards, vec![("x".to_string(), [10, 11, 12, 13, 14, 255])]);
}

#[test]
fn wrong_number_of_words() {
    for bad in ["sleep", "sleep 1 2", "board", "board 1", "board 1 0:0:0:0:0:0 x", "channel a 1",
        "channel a 1 1 1", "fire", "pause now"]
    {
        assert_eq!(
            compile(bad),
            Err(ScriptError::Parse { lineno: 1, error: "Wrong number of arguments" }),
            "{}",
            bad
        );
    }
}

#[test]
fn comments_need_a_word_of_their_own() {
    assert!(compile("# fire a\n   #   \n\n \t \n").unwrap().cues.is_empty());
    assert_eq!(
        compile("#fire a\n"),
        Err(ScriptError::Parse { lineno: 1, error: "Invalid command" })
    );
    assert_eq!(
        compile("pause # wait\n"),
        Err(ScriptError::Parse { lineno: 1, error: "Wrong number of arguments" })
    );
}

#[test]
fn messages_keep_what_follows_the_keyword() {
    let script = compile("say  two  spaces \nprint # not a comment\n\tsay\tindented\nprint   \nsay\u{3000}wide").unwrap();
    assert_eq!(
        script.cues,
        vec![
            Cue::Say { message: " two  spaces ".to_string() },
            Cue::Print { message: "# not a comment".to_string() },
            Cue::Say { message: "indented".to_string() },
            Cue::Print { message: "".to_string() },
            Cue::Say { message: "wide".to_string() },
        ]
    );
}

#[test]
fn lines_end_at_line_feeds() {
    let script = compile("say a\r\nsay b\rc\nsay d\r").unwrap();
    assert_eq!(
        script.cues,
        vec![
            Cue::Say { message: "a".to_string() },
            Cue::Say { message: "b\rc".to_string() },
            Cue::Say { message: "d\r".to_string() },
        ]
    );
    assert_eq!(
        compile("\n\nnope\n"),
        Err(ScriptError::Parse { lineno: 3, error: "Invalid command" })
    );
}

#[test]
fn from_lines_agrees_with_from_string() {
    let text = "board 1 00:00:00:00:00:01\nchannel a 1 1\nsleep 3\nfire a\n";
    let lines: Vec<String> = text.lines().map(|l| l.to_string()).collect();
    assert_eq!(Script::from_lines(&lines), compile(text));
}

#[test]
fn numbers_may_carry_a_plus_sign() {
    assert_eq!(compile("sleep +5\nsleep 007\n").unwrap().duration, 12);
    for bad in ["sleep -1", "sleep +", "sleep 1.5", "sleep 0x10", "sleep ١"] {
        assert_eq!(
            compile(bad),
            Err(ScriptError::Parse { lineno: 1, error: "Invalid sleep time" }),
            "{}",
            bad
        );
    }
}

#[test]
fn single_lines() {
    assert_eq!(Cue::from_line(&"   ".to_string(), 1), Ok(None));
    assert_eq!(Cue::from_line(&"pause".to_string(), 1), Ok(Some(Cue::Pause)));
    assert_eq!(
        Cue::from_line(&"fire a  b\tc".to_string(), 9),
        Ok(Some(Cue::Fire { channels: vec!["a".to_string(), "b".to_string(), "c".to_string()] }))
    );
    assert_eq!(
        Cue::from_line(&"launch".to_string(), 9),
        Err(ScriptError::Parse { lineno: 9, error: "Invalid command" })
    );
}
