use multisync::command::{can_read, read_command, Command};

fn read(text: &str) -> Command {
    assert!(can_read(text));
    read_command(text)
}

#[test]
fn names_are_taken_as_they_stand() {
    assert_eq!(read("usr:Ann: the \u{e9}"), Command::Rename("Ann: the \u{e9}".to_string()));
    assert_eq!(read("usr:"), Command::Rename(String::new()));
}

#[test]
fn settings_are_numbers() {
    assert_eq!(read("bpm:120"), Command::Bpm(120));
    assert_eq!(read("bpm:4294967295"), Command::Bpm(u32::MAX));
    assert_eq!(read("bpm:4294967296"), Command::Unknown);
    assert_eq!(read("cnt:8"), Command::Counts(8));
    assert_eq!(read("cnt:-8"), Command::Unknown);
    assert_eq!(read("buf:240000"), Command::Buffer(240000));
    assert_eq!(read("buf:"), Command::Unknown);
    assert_eq!(read("off:17"), Command::Offset(17));
    assert_eq!(read("off:x"), Command::Unknown);
    assert_eq!(read("tim:48000"), Command::Time(48000));
    assert_eq!(read("tim: 1"), Command::Unknown);
}

#[test]
fn a_metronome_has_a_tempo_and_a_bar() {
    assert_eq!(read("met:92.5:3"), Command::Metronome("92.5".to_string(), 3));
    assert_eq!(read("met:92.5:3:9"), Command::Metronome("92.5".to_string(), 3));
    assert_eq!(read("met:92.5"), Command::Unknown);
    assert_eq!(read("met:92.5:"), Command::Unknown);
    assert_eq!(read("met::4"), Command::Metronome(String::new(), 4));
}

#[test]
fn words_that_stand_alone() {
    assert_eq!(read("srt:"), Command::Start);
    assert_eq!(read("sts:"), Command::StopSync);
    assert_eq!(read("stp:"), Command::Stop(false));
    assert_eq!(read("stp:true"), Command::Stop(true));
    assert_eq!(read("stp:false"), Command::Stop(false));
    assert_eq!(read("end:"), Command::End);
    assert_eq!(read("bck:"), Command::Backing);
    assert_eq!(read("ops:"), Command::Packed(true));
    assert_eq!(read("nps:"), Command::Packed(false));
    assert_eq!(read("abk:"), Command::AudienceHears(true));
    assert_eq!(read("nbk:"), Command::AudienceHears(false));
    assert_eq!(read("zzz:1"), Command::Unknown);
    assert_eq!(read("bpm"), Command::Unknown);
    assert_eq!(read(""), Command::Unknown);
}

#[test]
fn an_emergency_has_a_name_and_maybe_a_number() {
    assert_eq!(read("emg:Ann"), Command::Emergency("Ann".to_string(), 0));
    assert_eq!(read("emg:Ann:16777472"), Command::Emergency("Ann".to_string(), 16777472));
    assert_eq!(read("emg::1"), Command::Emergency(String::new(), 1));
    assert!(!can_read("emg:Ann:"));
    assert!(!can_read("emg:Ann:x"));
}

#[test]
fn the_fourth_byte_has_to_end_a_character() {
    assert!(!can_read("usr\u{e9}"));
    assert!(can_read("us\u{e9}"));
    assert!(can_read("\u{e9}\u{e9}"));
    assert_eq!(read("\u{e9}\u{e9}abc"), Command::Unknown);
    assert!(can_read("\u{e9}"));
}
