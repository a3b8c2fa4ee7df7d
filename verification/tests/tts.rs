use iris::tts::TTS;

#[test]
fn messages_come_out_in_the_order_they_went_in() {
    let mut tts = TTS::new();
    assert_eq!(tts.waiting(), 0);
    assert_eq!(tts.take(), None);
    tts.say("Discovering portfires");
    tts.say("");
    tts.say("One board found");
    assert_eq!(tts.waiting(), 3);
    assert_eq!(tts.take(), Some("Discovering portfires".to_string()));
    tts.say("OK");
    assert_eq!(tts.take(), Some("".to_string()));
    assert_eq!(tts.take(), Some("One board found".to_string()));
    assert_eq!(tts.take(), Some("OK".to_string()));
    assert_eq!(tts.take(), None);
    assert_eq!(tts.waiting(), 0);
}
